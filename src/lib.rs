//! A personal bookmark ("pin") manager: a credential store that keeps salted
//! password hashes, and a pin store that keeps each user's bookmarks in
//! insertion order with duplicate-URL detection.

pub mod text;
pub mod url;
pub mod credential;
pub mod pin;
pub mod store;
pub mod codec;
