//! A codec for images and videos.
//!
//! Images are written without loss ([`lossless`]) or block by block
//! ([`lossy::jpg`]). Videos are written as groups of frames that are predicted
//! from one another ([`lossy::frame`]). What needs floating point, the cosine
//! transform and the colours, is handed in as functions.
pub mod bits;
pub mod bitstream;
pub mod bitvec;
pub mod block;
pub mod bytes;
pub mod color;
pub mod dimensions;
pub mod encoders;
pub mod error;
pub mod image;
pub mod lossless;
pub mod lossy;
pub mod numeric;
pub(crate) mod parallel;
pub mod pixels;
pub mod point;
pub mod rice;
pub mod sample;
