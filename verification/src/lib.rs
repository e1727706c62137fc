//! The verified core of `vfd`, the tool that builds a static site of book
//! reviews: the text helpers that turn review metadata into display text, the
//! tag autocompletion used when adding a review, the ordering of reviews on
//! the site, and the small decisions that the command-line tool makes.
pub mod strings;
pub mod models;
pub mod tags;
pub mod text_helpers;
pub mod render_html;
pub mod colours;
pub mod bookish;
pub mod fs_helpers;
pub mod create_favicon;
pub mod urls;
pub mod add_review;
pub mod serve;
pub mod version;
