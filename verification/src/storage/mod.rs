//! What is stored: rows of the database, vector blobs and thumbnails.

pub mod database;
pub mod thumbnail;
