//! Binary codecs for the columns of a chunk.

pub mod bits;
pub mod delta;
pub mod gorilla;

pub use delta::{decode_timestamps, encode_timestamps};
pub use gorilla::{decode as decode_floats, encode as encode_floats};
