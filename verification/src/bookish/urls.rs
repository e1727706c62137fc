//! URLs in `bookish`, which are recognised as in `vfd`.
pub use crate::urls::is_url;
