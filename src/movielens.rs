//! Records of the MovieLens catalogue.

use vstd::prelude::*;
use crate::item::Item;
use crate::ratings::RatingVector;

verus! {

/// A movie row as stored.
#[derive(Clone, Debug)]
pub struct QueryableItem {
    pub id: i32,
    pub title: String,
    pub genres: String,
}

/// A movie row to store.
#[derive(Clone, Debug)]
pub struct NewMovie {
    pub id: i32,
    pub title: String,
    pub genres: String,
}

/// A user row as stored.
#[derive(Clone, Debug)]
pub struct QueryableUser {
    pub id: i32,
}

/// A user row to store.
#[derive(Clone, Debug)]
pub struct NewUser {
    pub id: i32,
}

/// A movie: its id, its title and its other fields.
#[derive(Clone, Debug)]
pub struct SMovieLensItem {
    pub id: i32,
    pub title: String,
    pub extra_data: Vec<(String, String)>,
}

impl SMovieLensItem {
    /// A movie with its genres as its one extra field.
    pub fn create(id: i32, title: String, genres: String) -> (r: SMovieLensItem)
        ensures
            r.id == id,
            r.title@ == title@,
            r.extra_data@.len() == 1,
            r.extra_data@[0].0@ == "Genres"@,
            r.extra_data@[0].1@ == genres@,
    {
        let mut extra_data: Vec<(String, String)> = Vec::new();
        extra_data.push(("Genres".to_owned(), genres));
        SMovieLensItem { id, title, extra_data }
    }
}

/// A user: its id and its ratings.
#[derive(Clone, Debug)]
pub struct SMovieLensUser {
    pub id: i32,
    pub ratings: RatingVector,
}

impl Item for SMovieLensItem {
    type ID = i32;

    fn id(&self) -> i32 {
        self.id
    }

    fn name(&self) -> String {
        self.title.clone()
    }

    fn data(&self) -> Vec<(String, String)> {
        self.extra_data.clone()
    }
}

} // verus!
