//! Reading the text of a page: where it stands, and what it says.

pub mod det;
pub mod rec;
