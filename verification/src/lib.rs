//! A single-file Huffman compressor/decompressor.
//!
//! The codec builds a prefix code from observed byte frequencies, serializes
//! the code tree together with the bit-packed payload into one self-describing
//! buffer, and inverts that process exactly on decompression.

pub mod bits;
pub mod compression;
pub mod correctness;
pub mod decompression;
pub mod huffman;
