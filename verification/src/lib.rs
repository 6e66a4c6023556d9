//! A pure bzip2 decoder library.
//!
//! The decompression pipeline is split into small verified pieces: a
//! big-endian bit reader, the bzip2 variant of CRC-32, canonical Huffman
//! trees, the move-to-front list, the inverse Burrows-Wheeler transform,
//! the block decoder, a streaming push/pull decoder, and the
//! block-signature scanner and scheduling logic that back the
//! multi-threaded decoder.

use vstd::prelude::*;

pub mod bitreader;
pub mod bits;
pub mod block;
pub mod bwt;
pub mod crc;
pub mod decoder;
pub mod errors;
pub mod header;
pub mod huffman;
pub mod move_to_front;
pub mod parallel;
pub mod scanner;

verus! {

} // verus!
