//! A big-endian bit cursor over a byte buffer.
//!
//! bzip2 frames nothing on byte boundaries: block magics, selector tables
//! and Huffman codes all start at arbitrary bit offsets, so every field is
//! read through this cursor, MSB first.

use crate::bits::{bit_at, bits_val, lemma_bits_val_bound, lemma_bits_val_fits_u64};
use vstd::arithmetic::power2::{lemma2_to64, lemma2_to64_rest, lemma_pow2_strictly_increases, pow2};
use vstd::prelude::*;

verus! {

/// A bit cursor over a byte buffer. Reads are MSB-first within each byte
/// and big-endian across bytes; reading past the end yields `None` and
/// leaves the cursor at the end of the buffer.
pub struct BitReader<'a> {
    bytes: &'a [u8],
    pos: usize,
}

impl<'a> BitReader<'a> {
    /// The bytes the cursor walks over.
    pub closed spec fn data(self) -> Seq<u8> {
        self.bytes@
    }

    /// The absolute bit position of the cursor.
    pub closed spec fn bit_pos(self) -> int {
        self.pos as int
    }

    /// The cursor sits inside the buffer and the buffer's bit count fits
    /// the machine word.
    pub open spec fn wf(self) -> bool {
        &&& 0 <= self.bit_pos() <= 8 * self.data().len()
        &&& 8 * self.data().len() <= usize::MAX
    }

    /// A new cursor over `bytes`, pre-positioned at bit `skip_bits`.
    pub fn new(bytes: &'a [u8], skip_bits: usize) -> (r: Self)
        requires
            8 * bytes@.len() <= usize::MAX,
            skip_bits <= 8 * bytes@.len(),
        ensures
            r.wf(),
            r.data() == bytes@,
            r.bit_pos() == skip_bits,
    {
        BitReader { bytes, pos: skip_bits }
    }

    /// How many bits have been consumed, counted from the start of the
    /// buffer (pre-skipped bits included).
    pub fn position(&self) -> (r: usize)
        ensures
            r == self.bit_pos(),
    {
        self.pos
    }

    /// Read one bit and advance past it; `None` once the buffer is
    /// exhausted.
    pub fn read_bit(&mut self) -> (r: Option<bool>)
        requires
            old(self).wf(),
        ensures
            final(self).wf(),
            final(self).data() == old(self).data(),
            if old(self).bit_pos() < 8 * old(self).data().len() {
                &&& r == Some(bit_at(old(self).data(), old(self).bit_pos()))
                &&& final(self).bit_pos() == old(self).bit_pos() + 1
            } else {
                &&& r is None
                &&& final(self).bit_pos() == old(self).bit_pos()
            },
    {
        if self.pos / 8 < self.bytes.len() {
            let byte = self.bytes[self.pos / 8];
            let sh: u8 = 7 - (self.pos % 8) as u8;
            let bit = ((byte >> sh) & 1) == 1;
            self.pos = self.pos + 1;
            Some(bit)
        } else {
            None
        }
    }

    /// Try to advance the cursor by `n` bits; on failure the cursor is
    /// left at the end of the buffer.
    pub fn advance_by(&mut self, n: usize) -> (r: bool)
        requires
            old(self).wf(),
        ensures
            final(self).wf(),
            final(self).data() == old(self).data(),
            r == (old(self).bit_pos() + n <= 8 * old(self).data().len()),
            r ==> final(self).bit_pos() == old(self).bit_pos() + n,
            !r ==> final(self).bit_pos() == 8 * old(self).data().len(),
    {
        let whole_bytes = self.bytes.len();
        // self.pos <= 8 * len, so the subtraction cannot underflow.
        let remaining: usize = whole_bytes * 8 - self.pos;
        if n <= remaining {
            self.pos = self.pos + n;
            true
        } else {
            self.pos = whole_bytes * 8;
            false
        }
    }

    /// Read `bit_count <= 64` bits as a big-endian value. `None` when
    /// fewer bits remain; the cursor is then left at the end.
    pub fn read_u64(&mut self, bit_count: u8) -> (r: Option<u64>)
        requires
            old(self).wf(),
            bit_count <= 64,
        ensures
            final(self).wf(),
            final(self).data() == old(self).data(),
            if old(self).bit_pos() + bit_count <= 8 * old(self).data().len() {
                &&& r == Some(bits_val(old(self).data(), old(self).bit_pos(), bit_count as nat) as u64)
                &&& final(self).bit_pos() == old(self).bit_pos() + bit_count
            } else {
                &&& r is None
                &&& final(self).bit_pos() == 8 * old(self).data().len()
            },
    {
        proof {
            lemma_bits_val_fits_u64(self.data(), self.bit_pos(), bit_count as nat);
        }
        let ghost start = self.bit_pos();
        let mut value: u64 = 0;
        let mut k: u8 = 0;
        while k < bit_count
            invariant
                self.wf(),
                self.data() == old(self).data(),
                k <= bit_count <= 64,
                self.bit_pos() == start + k,
                start == old(self).bit_pos(),
                start + k <= 8 * self.data().len(),
                value == bits_val(self.data(), start, k as nat),
            decreases bit_count - k,
        {
            match self.read_bit() {
                Some(bit) => {
                    proof {
                        lemma_bits_val_bound(self.data(), start, k as nat);
                        lemma2_to64();
                        lemma2_to64_rest();
                        if (k as nat) < 63 {
                            lemma_pow2_strictly_increases(k as nat, 63);
                        }
                        assert(pow2(63) == 0x8000_0000_0000_0000);
                    }
                    let b: u64 = if bit {
                        1
                    } else {
                        0
                    };
                    value = value * 2 + b;
                    k = k + 1;
                },
                None => {
                    return None;
                },
            }
        }
        Some(value)
    }

    /// Read `bit_count <= 32` bits as a big-endian value.
    pub fn read_u32(&mut self, bit_count: u8) -> (r: Option<u32>)
        requires
            old(self).wf(),
            bit_count <= 32,
        ensures
            final(self).wf(),
            final(self).data() == old(self).data(),
            if old(self).bit_pos() + bit_count <= 8 * old(self).data().len() {
                &&& r == Some(bits_val(old(self).data(), old(self).bit_pos(), bit_count as nat) as u32)
                &&& final(self).bit_pos() == old(self).bit_pos() + bit_count
            } else {
                &&& r is None
                &&& final(self).bit_pos() == 8 * old(self).data().len()
            },
    {
        proof {
            lemma_bits_val_bound(self.data(), self.bit_pos(), bit_count as nat);
            lemma2_to64();
            if (bit_count as nat) < 32 {
                lemma_pow2_strictly_increases(bit_count as nat, 32);
            }
        }
        match self.read_u64(bit_count) {
            Some(v) => Some(v as u32),
            None => None,
        }
    }

    /// Read `bit_count <= 16` bits as a big-endian value.
    pub fn read_u16(&mut self, bit_count: u8) -> (r: Option<u16>)
        requires
            old(self).wf(),
            bit_count <= 16,
        ensures
            final(self).wf(),
            final(self).data() == old(self).data(),
            if old(self).bit_pos() + bit_count <= 8 * old(self).data().len() {
                &&& r == Some(bits_val(old(self).data(), old(self).bit_pos(), bit_count as nat) as u16)
                &&& final(self).bit_pos() == old(self).bit_pos() + bit_count
            } else {
                &&& r is None
                &&& final(self).bit_pos() == 8 * old(self).data().len()
            },
    {
        proof {
            lemma_bits_val_bound(self.data(), self.bit_pos(), bit_count as nat);
            lemma2_to64();
            if (bit_count as nat) < 16 {
                lemma_pow2_strictly_increases(bit_count as nat, 16);
            }
        }
        match self.read_u64(bit_count) {
            Some(v) => Some(v as u16),
            None => None,
        }
    }

    /// Read `bit_count <= 8` bits as a big-endian value.
    pub fn read_u8(&mut self, bit_count: u8) -> (r: Option<u8>)
        requires
            old(self).wf(),
            bit_count <= 8,
        ensures
            final(self).wf(),
            final(self).data() == old(self).data(),
            if old(self).bit_pos() + bit_count <= 8 * old(self).data().len() {
                &&& r == Some(bits_val(old(self).data(), old(self).bit_pos(), bit_count as nat) as u8)
                &&& final(self).bit_pos() == old(self).bit_pos() + bit_count
            } else {
                &&& r is None
                &&& final(self).bit_pos() == 8 * old(self).data().len()
            },
    {
        proof {
            lemma_bits_val_bound(self.data(), self.bit_pos(), bit_count as nat);
            lemma2_to64();
            if (bit_count as nat) < 8 {
                lemma_pow2_strictly_increases(bit_count as nat, 8);
            }
        }
        match self.read_u64(bit_count) {
            Some(v) => Some(v as u8),
            None => None,
        }
    }
}

} // verus!
