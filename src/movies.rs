//! Records of the small movie catalogue.

use vstd::prelude::*;
use crate::item::Item;
use crate::ratings::RatingVector;

verus! {

/// A movie row as stored.
#[derive(Clone, Debug)]
pub struct QueryableItem {
    pub id: i32,
    pub title: String,
}

/// A movie row to store; the store assigns the id.
#[derive(Clone, Debug)]
pub struct NewMovie {
    pub title: String,
}

/// A viewer row as stored.
#[derive(Clone, Debug)]
pub struct QueryableUser {
    pub id: i32,
    pub username: String,
}

/// A viewer row to store; the store assigns the id.
#[derive(Clone, Debug)]
pub struct NewUser {
    pub username: String,
}

/// A movie: its id and its title.
#[derive(Clone, Debug)]
pub struct MovieItem {
    pub id: i32,
    pub name: String,
}

/// A viewer: its id, its name and its ratings.
#[derive(Clone, Debug)]
pub struct MovieUser {
    pub id: i32,
    pub name: String,
    pub ratings: RatingVector,
}

impl Item for MovieItem {
    type ID = i32;

    fn id(&self) -> i32 {
        self.id
    }

    fn name(&self) -> String {
        self.name.clone()
    }

    fn data(&self) -> Vec<(String, String)> {
        Vec::new()
    }
}

} // verus!
