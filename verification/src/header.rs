//! The 4-byte bzip2 file header: `"BZh"` followed by an ASCII digit
//! `'1'..='9'` giving the block size in units of 100 000 bytes.

use vstd::prelude::*;

verus! {

/// An error returned while parsing a [`Header`].
#[derive(Debug, Clone, Copy, PartialEq, Eq, Structural)]
pub enum HeaderError {
    /// The file signature is not `BZ`.
    InvalidSignature,
    /// The version byte is not `h` (only the Huffman version exists).
    UnsupportedVersion,
    /// The block-size digit is not `1..=9`.
    InvalidBlockSize,
}

/// A parsed bzip2 header.
#[derive(Debug, Clone, Copy)]
pub struct Header {
    raw_blocksize: u8,
    max_blocksize: u32,
}

/// What parsing a 4-byte candidate header yields.
pub open spec fn spec_parse(buf: Seq<u8>) -> Result<u8, HeaderError>
    recommends
        buf.len() == 4,
{
    if buf[0] != 0x42 || buf[1] != 0x5a {
        Err(HeaderError::InvalidSignature)
    } else if buf[2] != 0x68 {
        Err(HeaderError::UnsupportedVersion)
    } else if buf[3] < 0x31 || buf[3] > 0x39 {
        Err(HeaderError::InvalidBlockSize)
    } else {
        Ok((buf[3] - 0x30) as u8)
    }
}

/// The 4 bytes that carry a given raw block size.
pub open spec fn spec_emit(raw_blocksize: u8) -> Seq<u8>
    recommends
        1 <= raw_blocksize <= 9,
{
    seq![0x42u8, 0x5au8, 0x68u8, (0x30 + raw_blocksize) as u8]
}

impl Header {
    /// The raw block size this header declares, `1..=9`.
    pub closed spec fn spec_raw_blocksize(self) -> u8 {
        self.raw_blocksize
    }

    /// The byte bound this header declares.
    pub closed spec fn spec_max_blocksize(self) -> u32 {
        self.max_blocksize
    }

    /// The header is well formed: the block size digit was `1..=9` and the
    /// byte bound is that digit times 100 000.
    pub open spec fn wf(self) -> bool {
        &&& 1 <= self.spec_raw_blocksize() <= 9
        &&& self.spec_max_blocksize() == 100_000 * self.spec_raw_blocksize()
    }

    /// Parse a bzip2 header.
    pub fn parse(buf: [u8; 4]) -> (r: Result<Self, HeaderError>)
        ensures
            match r {
                Ok(h) => h.wf() && spec_parse(buf@) == Ok::<u8, HeaderError>(h.spec_raw_blocksize()),
                Err(e) => spec_parse(buf@) == Err::<u8, HeaderError>(e),
            },
    {
        if buf[0] != 0x42 || buf[1] != 0x5a {
            return Err(HeaderError::InvalidSignature);
        }

        if buf[2] != 0x68 {
            return Err(HeaderError::UnsupportedVersion);
        }

        let hundred_k_blocksize = buf[3];
        if hundred_k_blocksize >= 0x31 && hundred_k_blocksize <= 0x39 {
            Self::from_raw_blocksize(hundred_k_blocksize - 0x30)
        } else {
            Err(HeaderError::InvalidBlockSize)
        }
    }

    /// Construct a `Header` from the raw block size; rejects anything
    /// outside `1..=9` with [`HeaderError::InvalidBlockSize`].
    pub fn from_raw_blocksize(raw_blocksize: u8) -> (r: Result<Self, HeaderError>)
        ensures
            match r {
                Ok(h) => {
                    &&& 1 <= raw_blocksize <= 9
                    &&& h.wf()
                    &&& h.spec_raw_blocksize() == raw_blocksize
                },
                Err(e) => !(1 <= raw_blocksize <= 9) && e == HeaderError::InvalidBlockSize,
            },
    {
        if raw_blocksize < 1 || raw_blocksize > 9 {
            return Err(HeaderError::InvalidBlockSize);
        }

        let max_blocksize = 100_000 * (raw_blocksize as u32);
        Ok(Self { raw_blocksize, max_blocksize })
    }

    /// The 4 header bytes that [`Header::parse`] accepts back.
    pub fn emit(&self) -> (r: [u8; 4])
        requires
            self.wf(),
        ensures
            r@ == spec_emit(self.spec_raw_blocksize()),
    {
        let r = [0x42u8, 0x5au8, 0x68u8, 0x30 + self.raw_blocksize];
        assert(r@ =~= spec_emit(self.spec_raw_blocksize()));
        r
    }

    /// The raw block size, as declared in the header; always `1..=9`.
    pub fn raw_blocksize(&self) -> (r: u8)
        requires
            self.wf(),
        ensures
            r == self.spec_raw_blocksize(),
            1 <= r <= 9,
    {
        self.raw_blocksize
    }

    /// The maximum number of bytes a block of this stream may hold;
    /// always `100_000..=900_000`.
    pub fn max_blocksize(&self) -> (r: u32)
        requires
            self.wf(),
        ensures
            r == 100_000 * self.spec_raw_blocksize(),
            100_000 <= r <= 900_000,
    {
        self.max_blocksize
    }
}

/// Emitting a header for any raw block size `1..=9` and parsing the bytes
/// back yields the same raw block size.
pub proof fn lemma_header_roundtrip(raw_blocksize: u8)
    requires
        1 <= raw_blocksize <= 9,
    ensures
        spec_parse(spec_emit(raw_blocksize)) == Ok::<u8, HeaderError>(raw_blocksize),
{
}

} // verus!
