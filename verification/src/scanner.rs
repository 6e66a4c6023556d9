//! Finding block magics inside an unaligned bitstream.
//!
//! The multi-threaded decoder partitions its input by looking for the
//! 48-bit block magic at every bit alignment. The scanner walks 8-byte
//! windows two bytes apart and tests the sixteen alignments each window
//! adds, so every bit offset from 1 on is covered while the window still
//! fits the buffer.

use crate::bitreader::BitReader;
use crate::bits::{bits_val, lemma_bits_val_extract};
use crate::block::BLOCK_MAGIC;
use vstd::arithmetic::power2::{lemma2_to64, lemma2_to64_rest};
use vstd::prelude::*;

verus! {

/// The 48-bit block magic sits at bit `p` of the buffer.
pub open spec fn magic_at(s: Seq<u8>, p: int) -> bool {
    bits_val(s, p, 48) == BLOCK_MAGIC
}

/// The 16-offset stripe a candidate offset belongs to.
pub open spec fn stripe_of(q: int) -> int {
    (q - 1) / 16
}

/// Offset `q` is one the scan reaches: at least 1, and the 8-byte window
/// of its stripe still fits the buffer.
pub open spec fn scan_covered(s: Seq<u8>, q: int) -> bool {
    &&& 1 <= q
    &&& 16 * stripe_of(q) + 64 <= 8 * s.len()
}

/// What the scan returns: the covered magic offset in the earliest stripe
/// (the highest offset within that stripe), or nothing when no covered
/// offset carries the magic.
pub open spec fn scanner_post(s: Seq<u8>, r: Option<int>) -> bool {
    match r {
        None => forall|q: int| scan_covered(s, q) ==> !magic_at(s, q),
        Some(p) => {
            &&& scan_covered(s, p)
            &&& magic_at(s, p)
            &&& forall|q: int|
                scan_covered(s, q) && #[trigger] magic_at(s, q) ==> stripe_of(q) >= stripe_of(p)
            &&& forall|q: int|
                scan_covered(s, q) && #[trigger] magic_at(s, q) && stripe_of(q) == stripe_of(p)
                    ==> q <= p
        },
    }
}

/// The scanner's answer is forced: a buffer with exactly one covered
/// magic offset makes it return exactly that offset.
pub proof fn lemma_scanner_unique(s: Seq<u8>, r: Option<int>, p: int)
    requires
        scanner_post(s, r),
        scan_covered(s, p),
        magic_at(s, p),
        forall|q: int| scan_covered(s, q) && #[trigger] magic_at(s, q) ==> q == p,
    ensures
        r == Some(p),
{
    match r {
        None => {
            assert(!magic_at(s, p));
        },
        Some(p2) => {
            assert(p2 == p);
        },
    }
}

/// Find the bit offset of the next block magic, or `None` when no window
/// holds one.
#[verifier::loop_isolation(false)]
pub fn find_next_signature(buf: &[u8]) -> (r: Option<u64>)
    requires
        buf@.len() <= usize::MAX / 8,
    ensures
        scanner_post(
            buf@,
            match r {
                Some(p) => Some(p as int),
                None => None,
            },
        ),
        r matches Some(p) ==> p + 48 <= 8 * buf@.len(),
{
    let n = buf.len();
    let mut i: usize = 0;
    while i + 8 <= n
        invariant
            i % 2 == 0,
            i <= n + 1,
            forall|q: int|
                scan_covered(buf@, q) && stripe_of(q) < i as int / 2 ==> !magic_at(buf@, q),
        decreases n - i,
    {
        let mut reader = BitReader::new(buf, 8 * i);
        proof {
            crate::bits::lemma_bits_val_fits_u64(buf@, 8 * i as int, 64);
        }
        let w = match reader.read_u64(64) {
            Some(w) => w,
            None => {
                proof {
                    assert(false);
                }
                0
            },
        };
        let mut sh: u32 = 0;
        while sh < 16
            invariant
                sh <= 16,
                i + 8 <= n,
                w == bits_val(buf@, 8 * i as int, 64),
                forall|q: int|
                    8 * i + 16 - sh < q <= 8 * i + 16 ==> !magic_at(buf@, q),
            decreases 16 - sh,
        {
            let shifted = w >> (sh as u64);
            let masked = shifted & 0xFFFF_FFFF_FFFFu64;
            proof {
                vstd::bits::lemma_u64_shr_is_div(w, sh as u64);
                assert(masked == shifted % 0x1_0000_0000_0000u64) by (bit_vector)
                    requires
                        masked == shifted & 0xFFFF_FFFF_FFFFu64,
                ;
                lemma2_to64();
                lemma2_to64_rest();
                lemma_bits_val_extract(buf@, 8 * i as int, (16 - sh) as nat, 48, 64);
            }
            if masked == BLOCK_MAGIC {
                let p = (i as u64) * 8 + (16 - sh) as u64;
                proof {
                    assert(magic_at(buf@, p as int));
                    assert(stripe_of(p as int) == i as int / 2);
                }
                return Some(p);
            }
            sh = sh + 1;
        }
        proof {
            assert forall|q: int|
                scan_covered(buf@, q) && stripe_of(q) < (i + 2) as int / 2 implies !magic_at(
                buf@,
                q,
            ) by {
                if stripe_of(q) == i as int / 2 {
                    assert(8 * i < q <= 8 * i + 16);
                }
            }
        }
        i = i + 2;
    }
    proof {
        assert forall|q: int| scan_covered(buf@, q) implies !magic_at(buf@, q) by {
            assert(16 * stripe_of(q) + 64 <= 8 * buf@.len());
            assert(2 * stripe_of(q) + 8 <= buf@.len());
            assert(stripe_of(q) < i as int / 2);
        }
    }
    None
}

/// Bits of a byte-aligned suffix are the bits of the whole buffer,
/// shifted by whole bytes.
pub proof fn lemma_bits_val_byte_shift(s: Seq<u8>, b: int, pos: int, n: nat)
    requires
        0 <= b <= s.len(),
        0 <= pos,
        pos + n <= 8 * (s.len() - b),
    ensures
        bits_val(s.skip(b), pos, n) == bits_val(s, 8 * b + pos, n),
    decreases n,
{
    if n > 0 {
        lemma_bits_val_byte_shift(s, b, pos, (n - 1) as nat);
        let q = pos + n - 1;
        assert((8 * b + q) / 8 == b + q / 8 && (8 * b + q) % 8 == q % 8) by (nonlinear_arith)
            requires
                0 <= q && 0 <= b,
        ;
        assert(q / 8 < s.len() - b) by (nonlinear_arith)
            requires
                0 <= q && q < 8 * (s.len() - b),
        ;
        assert(s.skip(b)[q / 8] == s[b + q / 8]);
    }
}

/// An iterator-style cursor returning the bit offsets of successive block
/// magics.
pub struct SignatureFinder<'a> {
    buf: &'a [u8],
    skip: u64,
}

impl<'a> SignatureFinder<'a> {
    /// The buffer being scanned.
    pub closed spec fn data(self) -> Seq<u8> {
        self.buf@
    }

    /// How many bits of the buffer have been ruled out already.
    pub closed spec fn spec_skip(self) -> u64 {
        self.skip
    }

    /// A finder at the start of `buf`.
    pub fn new(buf: &'a [u8]) -> (r: Self)
        ensures
            r.data() == buf@,
            r.spec_skip() == 0,
    {
        Self { buf, skip: 0 }
    }

    /// The next magic's bit offset (into the whole buffer), or `None`
    /// once the bytes from the cursor on hold no further covered magic.
    /// Each hit is skipped over, so successive calls return strictly
    /// increasing offsets.
    pub fn next_signature(&mut self) -> (r: Option<u64>)
        requires
            old(self).data().len() <= usize::MAX / 8,
        ensures
            final(self).data() == old(self).data(),
            ({
                let data = old(self).data();
                let base = old(self).spec_skip() as int / 8;
                match r {
                    Some(p) => {
                        &&& base <= data.len()
                        &&& scanner_post(data.skip(base), Some(p - 8 * base))
                        &&& magic_at(data, p as int)
                        &&& 8 * base < p && p + 48 <= 8 * data.len()
                        &&& final(self).spec_skip() == p + 48
                    },
                    None => {
                        &&& (base <= data.len() ==> forall|q: int|
                            scan_covered(data.skip(base), q) ==> !magic_at(data.skip(base), q))
                        &&& final(self).spec_skip() == old(self).spec_skip()
                    },
                }
            }),
    {
        let skip_bytes_wide = self.skip / 8;
        if skip_bytes_wide > (self.buf.len() as u64) {
            return None;
        }
        let skip_bytes = skip_bytes_wide as usize;
        let tail: &[u8] = &self.buf[skip_bytes..self.buf.len()];
        proof {
            assert(tail@ =~= self.buf@.skip(skip_bytes as int));
        }
        match find_next_signature(tail) {
            Some(raw) => {
                proof {
                    lemma_bits_val_byte_shift(self.buf@, skip_bytes as int, raw as int, 48);
                }
                let signature = (skip_bytes as u64) * 8 + raw;
                self.skip = signature + 48;
                Some(signature)
            },
            None => None,
        }
    }
}

/// All block-magic offsets a linear scan finds, in strictly increasing
/// order.
/// The byte the scan resumes at after a hit: the found magic is skipped
/// whole-bytes-wise.
pub open spec fn resume_base(r: Seq<u64>, i: int) -> int {
    if i == 0 {
        0int
    } else {
        (r[i - 1] + 48) as int / 8
    }
}

/// All block-magic offsets a linear scan finds, in strictly increasing
/// order. Each hit is the scan result of the bytes from its resume point
/// on (so nothing in an earlier stripe of that tail is a magic), and once
/// the list ends, the bytes after the last resume point hold no further
/// covered magic.
pub fn find_signatures(buf: &[u8]) -> (r: Vec<u64>)
    requires
        buf@.len() <= usize::MAX / 8,
    ensures
        forall|t: int|
            0 <= t < r@.len() ==> magic_at(buf@, #[trigger] r@[t] as int) && r@[t] + 48 <= 8
                * buf@.len(),
        forall|t1: int, t2: int| 0 <= t1 < t2 < r@.len() ==> r@[t1] < r@[t2],
        r@.len() == 0 ==> forall|q: int| scan_covered(buf@, q) ==> !magic_at(buf@, q),
        forall|i: int|
            0 <= i < r@.len() ==> #[trigger] resume_base(r@, i) <= buf@.len() && scanner_post(
                buf@.skip(resume_base(r@, i)),
                Some(r@[i] - 8 * resume_base(r@, i)),
            ),
        ({
            let last_base = resume_base(r@, r@.len() as int);
            r@.len() > 0 && last_base <= buf@.len() ==> forall|q: int|
                scan_covered(buf@.skip(last_base), q) ==> !magic_at(buf@.skip(last_base), q)
        }),
{
    let mut finder = SignatureFinder::new(buf);
    let mut out: Vec<u64> = Vec::new();
    loop
        invariant
            finder.data() == buf@,
            buf@.len() <= usize::MAX / 8,
            forall|t: int|
                0 <= t < out@.len() ==> magic_at(buf@, #[trigger] out@[t] as int) && out@[t] + 48
                    <= 8 * buf@.len(),
            forall|t1: int, t2: int| 0 <= t1 < t2 < out@.len() ==> out@[t1] < out@[t2],
            out@.len() > 0 ==> finder.spec_skip() == out@.last() + 48,
            out@.len() == 0 ==> finder.spec_skip() == 0,
            forall|i: int|
                0 <= i < out@.len() ==> #[trigger] resume_base(out@, i) <= buf@.len()
                    && scanner_post(
                    buf@.skip(resume_base(out@, i)),
                    Some(out@[i] - 8 * resume_base(out@, i)),
                ),
        decreases 8 * buf@.len() + 48 - finder.spec_skip(),
    {
        let ghost pre = out@;
        let ghost pre_skip = finder.spec_skip();
        match finder.next_signature() {
            Some(p) => {
                out.push(p);
                proof {
                    assert forall|i: int|
                        0 <= i < out@.len() implies #[trigger] resume_base(out@, i) <= buf@.len()
                        && scanner_post(
                        buf@.skip(resume_base(out@, i)),
                        Some(out@[i] - 8 * resume_base(out@, i)),
                    ) by {
                        if i < pre.len() {
                            assert(resume_base(out@, i) == resume_base(pre, i));
                        } else {
                            if i > 0 {
                                assert(out@[i - 1] == pre.last());
                            }
                            assert(resume_base(out@, i) == pre_skip as int / 8);
                        }
                    }
                }
            },
            None => {
                proof {
                    if out@.len() == 0 {
                        assert(buf@.skip(0) =~= buf@);
                    }
                }
                return out;
            },
        }
    }
}

/// Sort signature offsets ascending (used to merge per-chunk scans).
/// The result is a permutation of the input.
pub fn sort_signatures(v: &mut Vec<u64>)
    ensures
        final(v)@.len() == old(v)@.len(),
        forall|a: int, b: int| 0 <= a < b < final(v)@.len() ==> final(v)@[a] <= final(v)@[b],
        final(v)@.to_multiset() == old(v)@.to_multiset(),
{
    let ghost orig = v@;
    let mut rest: Vec<u64> = Vec::new();
    core::mem::swap(v, &mut rest);
    proof {
        v@.to_multiset_ensures();
        vstd::multiset::lemma_multiset_empty_len(v@.to_multiset());
        assert(v@.to_multiset().add(rest@.to_multiset()) =~= orig.to_multiset());
    }
    while rest.len() > 0
        invariant
            v@.len() + rest@.len() == orig.len(),
            v@.to_multiset().add(rest@.to_multiset()) == orig.to_multiset(),
            forall|a: int, b: int| 0 <= a < b < v@.len() ==> v@[a] <= v@[b],
            v@.len() > 0 ==> forall|k: int|
                0 <= k < rest@.len() ==> v@.last() <= #[trigger] rest@[k],
        decreases rest@.len(),
    {
        // Select the smallest remaining offset.
        let mut m: usize = 0;
        let mut j: usize = 1;
        while j < rest.len()
            invariant
                m < j || (j <= 1 && m == 0),
                m < rest@.len(),
                j <= rest@.len(),
                forall|k: int| 0 <= k < j ==> rest@[m as int] <= #[trigger] rest@[k],
            decreases rest@.len() - j,
        {
            if rest[j] < rest[m] {
                m = j;
            }
            j = j + 1;
        }
        let ghost old_v = v@;
        let ghost old_rest = rest@;
        let x = rest.remove(m);
        v.push(x);
        proof {
            old_rest.to_multiset_ensures();
            old_v.to_multiset_ensures();
            assert(old_rest.to_multiset().count(x) > 0);
            assert(v@.to_multiset().add(rest@.to_multiset()) =~= orig.to_multiset());
            assert forall|k: int|
                0 <= k < rest@.len() implies v@.last() <= #[trigger] rest@[k] by {
                assert(rest@[k] == if k < m {
                    old_rest[k]
                } else {
                    old_rest[k + 1]
                });
            }
        }
    }
    proof {
        rest@.to_multiset_ensures();
        vstd::multiset::lemma_multiset_empty_len(rest@.to_multiset());
        assert(v@.to_multiset() =~= v@.to_multiset().add(rest@.to_multiset()));
    }
}

} // verus!
