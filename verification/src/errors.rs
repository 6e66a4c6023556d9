//! The decoder's error taxonomy: block-level reasons and the top-level
//! error that merges them with header errors.

use crate::header::HeaderError;
use vstd::prelude::*;

verus! {

/// An error returned by the block decoder. Each variant carries a stable
/// diagnostic string through [`BlockError::message`].
#[derive(Debug, Clone, Copy, PartialEq, Eq, Structural)]
pub enum BlockError {
    /// The 48-bit magic in front of a block could not be read.
    NextMagicTruncated,
    /// The 32-bit whole-stream CRC after the final magic could not be read.
    WholeStreamCrcTruncated,
    /// The 48 bits in front of a block are neither magic.
    BadMagic,
    /// The 32-bit block CRC could not be read.
    CrcTruncated,
    /// The randomised bit could not be read.
    RandomisedTruncated,
    /// The deprecated randomised mode is not supported.
    Randomised,
    /// The 24-bit BWT origin pointer could not be read.
    OrigPtrTruncated,
    /// The symbol map bits could not be read.
    SymbolRangeTruncated,
    /// The symbol map holds no symbol at all.
    NoSymbols,
    /// The 3-bit Huffman group count could not be read.
    HuffmanGroupsTruncated,
    /// The Huffman group count is outside `2..=6`.
    InvalidHuffmanGroups,
    /// The 15-bit selector count could not be read.
    SelectorsUsedTruncated,
    /// The selector count is larger than any stream can need.
    TooManySelectors,
    /// A unary selector could not be read.
    SelectorTruncated,
    /// A unary selector names a tree index at or past the group count.
    TreeIndexTooLarge,
    /// The selector table is empty.
    NoSelectors,
    /// A selector names no existing tree.
    SelectorOutOfRange,
    /// The 5-bit initial code length of a group could not be read.
    GroupLengthTruncated,
    /// A delta-decoded code length left `1..=20`.
    LengthOutOfRange,
    /// The stop bit of a length delta could not be read.
    LengthBit1Truncated,
    /// The direction bit of a length delta could not be read.
    LengthBit2Truncated,
    /// Fewer than two symbols were handed to the Huffman builder.
    TooFewSymbols,
    /// One side of a Huffman split is empty with fewer than two codes.
    EmptyHuffmanTree,
    /// Two identical codes survive to the bottom of the Huffman trie.
    EqualSymbols,
    /// The Huffman-coded symbol stream ended early.
    HuffmanTruncated,
    /// The selector table ran out before the symbol stream ended.
    NotEnoughSelectors,
    /// A RUNA/RUNB run accumulated past the 2 MiB cap.
    RepeatTooLarge,
    /// A run reaches past the declared maximum block size.
    RepeatsPastEnd,
    /// The block body holds more entries than the maximum block size.
    DataExceedsBlockSize,
    /// The BWT origin pointer points past the block.
    OrigPtrOutOfBounds,
    /// The running CRC of the emitted bytes differs from the block header.
    BadCrc,
    /// The block is not ready to be read.
    NotReady,
    /// Data was written after the end of the stream.
    Eof,
    /// No block magic was found and the stream also ends without the
    /// final magic.
    NoBlocksFoundEof,
    /// No block magic was found and the stream does not end here.
    NoBlocksFound,
}

impl BlockError {
    /// The diagnostic string of this error.
    pub fn message(&self) -> &'static str {
        match self {
            BlockError::NextMagicTruncated => "next magic truncated",
            BlockError::WholeStreamCrcTruncated => "whole stream crc truncated",
            BlockError::BadMagic => "bad magic value found",
            BlockError::CrcTruncated => "crc truncated",
            BlockError::RandomisedTruncated => "randomised truncated",
            BlockError::Randomised => "randomised expected to be 'normal'",
            BlockError::OrigPtrTruncated => "orig ptr truncated",
            BlockError::SymbolRangeTruncated => "symbol range truncated",
            BlockError::NoSymbols => "no symbols in input",
            BlockError::HuffmanGroupsTruncated => "huffmann groups truncated",
            BlockError::InvalidHuffmanGroups => "invalid number of huffman trees",
            BlockError::SelectorsUsedTruncated => "selectors used truncated",
            BlockError::TooManySelectors => "too high value for num_selectors",
            BlockError::SelectorTruncated => "selector truncated",
            BlockError::TreeIndexTooLarge => "tree index too large",
            BlockError::NoSelectors => "no tree selectors given",
            BlockError::SelectorOutOfRange => "tree selector out of range",
            BlockError::GroupLengthTruncated => "huffman group length truncated",
            BlockError::LengthOutOfRange => "huffman length out of range",
            BlockError::LengthBit1Truncated => "length bit1 truncated",
            BlockError::LengthBit2Truncated => "length bit2 truncated",
            BlockError::TooFewSymbols => "too few symbols",
            BlockError::EmptyHuffmanTree => "empty huffman tree",
            BlockError::EqualSymbols => "equal symbols in huffman tree",
            BlockError::HuffmanTruncated => "huffman bitstream truncated",
            BlockError::NotEnoughSelectors => {
                "insufficient selector indices for number of symbols"
            },
            BlockError::RepeatTooLarge => "repeat count too large",
            BlockError::RepeatsPastEnd => "repeats past end of block",
            BlockError::DataExceedsBlockSize => "data exceeds block size",
            BlockError::OrigPtrOutOfBounds => "orig_ptr out of bounds",
            BlockError::BadCrc => "bad crc",
            BlockError::NotReady => "not ready",
            BlockError::Eof => "eof",
            BlockError::NoBlocksFoundEof => "no blocks have been found - eof",
            BlockError::NoBlocksFound => "no blocks have been found",
        }
    }
}

/// An error returned by the streaming decoders.
#[derive(Debug, Clone, Copy, PartialEq, Eq, Structural)]
pub enum DecoderError {
    /// The file header was rejected.
    Header(HeaderError),
    /// A block was rejected.
    Block(BlockError),
}

} // verus!
