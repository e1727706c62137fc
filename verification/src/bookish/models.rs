//! The review data that `bookish` wrote into the front matter of a new review.
use vstd::prelude::*;

verus! {

pub struct Cover {
    pub name: String,
    pub size: i32,
    pub tint_color: String,
}

pub struct Book {
    pub author: String,
    pub narrator: Option<String>,
    pub cover: Cover,
    pub publication_year: String,
    pub title: String,
    pub isbn10: Option<String>,
    pub isbn13: Option<String>,
}

pub struct Review {
    pub date_read: String,
    pub format: String,
    pub rating: Option<usize>,
    pub did_not_finish: bool,
}

pub struct ReviewEntry {
    pub book: Book,
    pub review: Review,
}

} // verus!
