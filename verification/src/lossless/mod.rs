//! Compression that loses nothing.
pub mod jpg;
