//! A verified compressor for the LZ4 block format.
//!
//! [`compress`] and [`compress_into`] turn bytes into one block, `search::compressed`. What such a
//! block decodes to is `block::decode`, and `laws` relates the two. What a block tells of the search is in
//! `trace`, and how short it is in `sizes`.

pub mod block;
pub mod encoder;
pub mod laws;
pub mod search;
pub mod sizes;
pub mod trace;
pub mod words;

pub use encoder::{compress, compress_into};
