//! Records of the book catalogue.

use vstd::prelude::*;
use crate::item::Item;
use crate::ratings::RatingVector;

verus! {

/// A book row as stored.
#[derive(Clone, Debug)]
pub struct QueryableItem {
    pub id: String,
    pub title: String,
    pub author: String,
    pub pub_year: String,
    pub publisher: String,
}

/// A book row to store.
#[derive(Clone, Debug)]
pub struct NewBook {
    pub id: String,
    pub title: String,
    pub author: String,
    pub pub_year: String,
    pub publisher: String,
}

/// A reader row as stored.
#[derive(Clone, Debug)]
pub struct QueryableUser {
    pub id: i32,
    pub city: String,
    pub age: Option<i32>,
}

/// A reader row to store.
#[derive(Clone, Debug)]
pub struct NewUser {
    pub id: i32,
    pub city: String,
    pub age: Option<i32>,
}

/// A book: its ISBN, its title and its other fields.
#[derive(Clone, Debug)]
pub struct BookItem {
    pub id: String,
    pub title: String,
    pub extra_data: Vec<(String, String)>,
}

impl BookItem {
    /// A book with author, publication year and publisher as extra fields,
    /// in that order.
    pub fn create(id: String, title: String, author: String, pub_year: String, publisher: String) -> (r:
        BookItem)
        ensures
            r.id@ == id@,
            r.title@ == title@,
            r.extra_data@.len() == 3,
            r.extra_data@[0].0@ == "Author"@,
            r.extra_data@[0].1@ == author@,
            r.extra_data@[1].0@ == "Publication Year"@,
            r.extra_data@[1].1@ == pub_year@,
            r.extra_data@[2].0@ == "Publisher"@,
            r.extra_data@[2].1@ == publisher@,
    {
        let mut extra_data: Vec<(String, String)> = Vec::new();
        extra_data.push(("Author".to_owned(), author));
        extra_data.push(("Publication Year".to_owned(), pub_year));
        extra_data.push(("Publisher".to_owned(), publisher));
        BookItem { id, title, extra_data }
    }
}

/// A reader: its id, its further fields and its ratings. Books are keyed by
/// the integer ids that the caller assigned to their ISBNs.
#[derive(Clone, Debug)]
pub struct BookUser {
    pub id: i32,
    pub extra_data: Vec<(String, String)>,
    pub ratings: RatingVector,
}

impl BookUser {
    /// A reader with its city, and its age where known, as extra fields.
    pub fn create(id: i32, ratings: RatingVector, city: String, age: Option<i32>) -> (r: BookUser)
        ensures
            r.id == id,
            r.ratings@ == ratings@,
            r.extra_data@[0].0@ == "City"@,
            r.extra_data@[0].1@ == city@,
            age is None ==> r.extra_data@.len() == 1,
            age matches Some(a) ==> r.extra_data@.len() == 2 && r.extra_data@[1].0@ == "Age"@
                && vstd::string::to_string_from_display_ensures::<i32>(&a, r.extra_data@[1].1),
    {
        let mut extra_data: Vec<(String, String)> = Vec::new();
        extra_data.push(("City".to_owned(), city));
        if let Some(a) = age {
            extra_data.push(("Age".to_owned(), a.to_string()));
        }
        BookUser { id, extra_data, ratings }
    }
}

impl Item for BookItem {
    type ID = String;

    fn id(&self) -> String {
        self.id.clone()
    }

    fn name(&self) -> String {
        self.title.clone()
    }

    fn data(&self) -> Vec<(String, String)> {
        self.extra_data.clone()
    }
}

} // verus!
