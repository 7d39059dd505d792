//! Entropy coding.
pub mod ans;
