//! `bookish`, the project's second site generator: its own models and
//! rules, and the helpers it shares with `vfd`.
pub mod add_review;
pub mod colours;
pub mod fs_helpers;
pub mod models;
pub mod text;
pub mod urls;
