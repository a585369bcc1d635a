//! Images and what is computed from them.

pub mod clip;
pub mod phash;
pub mod pixels;
pub mod vision;
