//! bzip2's block checksum: CRC-32/BZIP2.
//!
//! bzip2 feeds bytes most-significant-bit first into the classic CRC-32,
//! which is equivalent to bit-reversing every input byte, running the
//! byte-reversed (IEEE) CRC-32, and bit-reversing the 32-bit result.
//! The CRC-32 engine itself is `crc32fast`; the per-byte and final
//! reversals are verified here.

use vstd::prelude::*;

verus! {

#[verifier::external_type_specification]
#[verifier::external_body]
pub struct ExCrc32Hasher(crc32fast::Hasher);

/// The bytes an in-progress `crc32fast` computation has absorbed so far.
pub uninterp spec fn crc_fed(h: crc32fast::Hasher) -> Seq<u8>;

/// The (byte-reversed, IEEE) CRC-32 of a byte sequence, as `crc32fast`
/// computes it.
pub uninterp spec fn crc32_ieee(data: Seq<u8>) -> u32;

/// Relies on `crc32fast::Hasher::new`: a fresh state has absorbed nothing.
#[verifier::external_body]
fn crc_new() -> (r: crc32fast::Hasher)
    ensures
        crc_fed(r) == Seq::<u8>::empty(),
{
    crc32fast::Hasher::new()
}

/// Relies on `crc32fast::Hasher::update`: the state absorbs the bytes of
/// `buf` after whatever it already held.
#[verifier::external_body]
fn crc_update(h: &mut crc32fast::Hasher, buf: &[u8])
    ensures
        crc_fed(*final(h)) == crc_fed(*old(h)) + buf@,
{
    h.update(buf)
}

/// Relies on `crc32fast::Hasher::clone` and `crc32fast::Hasher::finalize`:
/// the finalized value is the CRC-32 of the absorbed bytes, and cloning
/// does not disturb the state. A state that absorbed nothing finalizes to
/// its initial register, which is zero.
#[verifier::external_body]
fn crc_finalize(h: &crc32fast::Hasher) -> (r: u32)
    ensures
        r == crc32_ieee(crc_fed(*h)),
        crc_fed(*h) == Seq::<u8>::empty() ==> r == 0,
{
    h.clone().finalize()
}

/// The bits of a byte, reversed.
pub open spec fn rev8(b: u8) -> u8 {
    ((b & 0x01) << 7) | ((b & 0x02) << 5) | ((b & 0x04) << 3) | ((b & 0x08) << 1) | ((b & 0x10)
        >> 1) | ((b & 0x20) >> 3) | ((b & 0x40) >> 5) | ((b & 0x80) >> 7)
}

/// The bits of a 32-bit word, reversed.
pub open spec fn rev32(x: u32) -> u32 {
    ((rev8((x & 0xff) as u8) as u32) << 24) | ((rev8(((x >> 8) & 0xff) as u8) as u32) << 16) | ((
    rev8(((x >> 16) & 0xff) as u8) as u32) << 8) | (rev8(((x >> 24) & 0xff) as u8) as u32)
}

/// Each byte of a sequence, bit-reversed.
pub open spec fn rev_bytes(s: Seq<u8>) -> Seq<u8> {
    s.map_values(|b: u8| rev8(b))
}

/// The CRC-32/BZIP2 checksum of a byte sequence: bit-reverse each input
/// byte, take the IEEE CRC-32, and bit-reverse the result.
pub open spec fn bz_crc(data: Seq<u8>) -> u32 {
    rev32(crc32_ieee(rev_bytes(data)))
}

/// The bits of `b`, reversed.
pub fn reverse_byte(b: u8) -> (r: u8)
    ensures
        r == rev8(b),
{
    ((b & 0x01) << 7) | ((b & 0x02) << 5) | ((b & 0x04) << 3) | ((b & 0x08) << 1) | ((b & 0x10)
        >> 1) | ((b & 0x20) >> 3) | ((b & 0x40) >> 5) | ((b & 0x80) >> 7)
}

/// The bits of `x`, reversed.
pub fn reverse_u32(x: u32) -> (r: u32)
    ensures
        r == rev32(x),
{
    ((reverse_byte((x & 0xff) as u8) as u32) << 24) | ((reverse_byte(((x >> 8) & 0xff) as u8)
        as u32) << 16) | ((reverse_byte(((x >> 16) & 0xff) as u8) as u32) << 8) | (reverse_byte(
        ((x >> 24) & 0xff) as u8,
    ) as u32)
}

/// A running CRC-32/BZIP2 over the bytes a block emits. The view is the
/// sequence of bytes fed so far.
pub struct Crc {
    val: crc32fast::Hasher,
    processed: Ghost<Seq<u8>>,
}

impl View for Crc {
    type V = Seq<u8>;

    closed spec fn view(&self) -> Seq<u8> {
        self.processed@
    }
}

impl Crc {
    /// The inner engine has absorbed exactly the bit-reversed view.
    pub closed spec fn wf(self) -> bool {
        crc_fed(self.val) == rev_bytes(self.processed@)
    }

    /// A fresh hasher over no bytes.
    pub fn new() -> (r: Self)
        ensures
            r.wf(),
            r@ == Seq::<u8>::empty(),
    {
        let r = Crc { val: crc_new(), processed: Ghost(Seq::empty()) };
        proof {
            assert(rev_bytes(Seq::<u8>::empty()) =~= Seq::<u8>::empty());
        }
        r
    }

    /// Feed the bytes of `buf`.
    pub fn update(&mut self, buf: &[u8])
        requires
            old(self).wf(),
        ensures
            final(self).wf(),
            final(self)@ == old(self)@ + buf@,
    {
        let mut reversed: Vec<u8> = Vec::new();
        let mut i: usize = 0;
        while i < buf.len()
            invariant
                i <= buf@.len(),
                reversed@ =~= rev_bytes(buf@.subrange(0, i as int)),
            decreases buf@.len() - i,
        {
            reversed.push(reverse_byte(buf[i]));
            i = i + 1;
            proof {
                assert(reversed@ =~= rev_bytes(buf@.subrange(0, i as int)));
            }
        }
        proof {
            assert(buf@.subrange(0, buf@.len() as int) =~= buf@);
        }
        crc_update(&mut self.val, reversed.as_slice());
        proof {
            self.processed@ = old(self).processed@ + buf@;
            assert(rev_bytes(old(self)@ + buf@) =~= rev_bytes(old(self)@) + rev_bytes(buf@));
        }
    }

    /// The CRC-32/BZIP2 of everything fed so far; over no bytes it is
    /// zero.
    pub fn finalize(&self) -> (r: u32)
        requires
            self.wf(),
        ensures
            r == bz_crc(self@),
            self@.len() == 0 ==> r == 0,
    {
        proof {
            if self@.len() == 0 {
                assert(rev_bytes(self@) =~= Seq::<u8>::empty());
                assert(rev32(0) == 0) by (bit_vector);
            }
        }
        reverse_u32(crc_finalize(&self.val))
    }
}

} // verus!
