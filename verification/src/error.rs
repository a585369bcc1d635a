//! The errors that the library reports.

use vstd::prelude::*;

verus! {

/// What went wrong, with a message for the operator or the client.
#[derive(Debug)]
pub enum AppError {
    Config(String),
    Pdf(String),
    Image(String),
    Model(String),
    VectorIndex(String),
    InvalidRequest(String),
    UnsupportedMediaType { mime: String },
    PayloadTooLarge { max_bytes: usize },
    Other(String),
}

} // verus!
