//! Slugs in `bookish`, which are made as in `vfd`.
pub use crate::text_helpers::slugify;
