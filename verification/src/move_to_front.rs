//! The 256-entry move-to-front list and the block symbol map.
//!
//! The symbol map names which byte values occur in a block: 16 bits flag
//! 16-symbol ranges, and each flagged range carries 16 more bits, one per
//! symbol. The move-to-front list starts with the used symbols in
//! increasing order; `decode(n)` returns the symbol at position `n` and
//! rotates it to the front.

use crate::bits::bit_at;
use crate::bitreader::BitReader;
use crate::errors::BlockError;
use vstd::prelude::*;

verus! {

/// How many of the first `r` range bits (the 16 bits at `pos`) are set.
pub open spec fn ranges_before(s: Seq<u8>, pos: int, r: int) -> int
    decreases r,
{
    if r <= 0 {
        0
    } else {
        ranges_before(s, pos, r - 1) + if bit_at(s, pos + r - 1) {
            1int
        } else {
            0int
        }
    }
}

/// Counting set range bits never decreases.
pub proof fn lemma_ranges_before_mono(s: Seq<u8>, pos: int, a: int, b: int)
    requires
        a <= b,
    ensures
        ranges_before(s, pos, a) <= ranges_before(s, pos, b),
        ranges_before(s, pos, b) <= ranges_before(s, pos, a) + (b - a),
    decreases b - a,
{
    if a < b {
        lemma_ranges_before_mono(s, pos, a, b - 1);
    }
}

/// Symbol `b` is declared present by the symbol map whose first bit is at
/// `pos`: the bit of its 16-symbol range is set, and so is its own bit
/// inside that range's bitmap.
pub open spec fn symbol_present(s: Seq<u8>, pos: int, b: int) -> bool {
    &&& bit_at(s, pos + b / 16)
    &&& bit_at(s, pos + 16 + 16 * ranges_before(s, pos, b / 16) + b % 16)
}

/// How many bits the symbol map at `pos` occupies.
pub open spec fn symbol_map_bits(s: Seq<u8>, pos: int) -> int {
    16 + 16 * ranges_before(s, pos, 16)
}

/// A successful symbol-map parse: the cursor moved over the whole map,
/// the list starts with exactly the declared symbols in increasing order
/// (the rest is zero), and the alphabet adds two symbols for RUNB and the
/// block terminator.
pub open spec fn symbol_map_ok(
    data: Seq<u8>,
    start: int,
    d: Seq<u8>,
    alpha_size: int,
    end_pos: int,
) -> bool {
    let used = alpha_size - 2;
    &&& 1 <= used <= 256
    &&& end_pos == start + symbol_map_bits(data, start)
    &&& d.len() == 256
    &&& (forall|t1: int, t2: int| 0 <= t1 < t2 < used ==> d[t1] < d[t2])
    &&& (forall|t: int| 0 <= t < used ==> symbol_present(data, start, #[trigger] d[t] as int))
    &&& (forall|b: int|
        0 <= b < 256 && #[trigger] symbol_present(data, start, b) ==> exists|t: int|
            0 <= t < used && d[t] == b)
    &&& (forall|t: int| used <= t < 256 ==> d[t] == 0)
}

/// A failed symbol-map parse: either the bits ran out inside the map, or
/// the map declares no symbol at all.
pub open spec fn symbol_map_err(data: Seq<u8>, start: int, e: BlockError, end_pos: int) -> bool {
    &&& (e == BlockError::SymbolRangeTruncated || e == BlockError::NoSymbols)
    &&& (e == BlockError::SymbolRangeTruncated ==> 8 * data.len() < start + symbol_map_bits(
        data,
        start,
    ))
    &&& (e == BlockError::NoSymbols ==> end_pos == start + symbol_map_bits(data, start) && forall|
        b: int,
    | 0 <= b < 256 ==> !symbol_present(data, start, b))
}

/// A 256-entry move-to-front list.
#[derive(Debug)]
pub struct MoveToFrontDecoder {
    symbols: [u8; 256],
}

impl View for MoveToFrontDecoder {
    type V = Seq<u8>;

    closed spec fn view(&self) -> Seq<u8> {
        self.symbols@
    }
}

impl MoveToFrontDecoder {
    /// A list of 256 zero entries.
    pub fn new_zeroed() -> (r: Self)
        ensures
            r@.len() == 256,
            forall|i: int| 0 <= i < 256 ==> r@[i] == 0,
    {
        Self { symbols: [0u8; 256] }
    }

    /// The identity list: entry `i` holds symbol `i`.
    pub fn new() -> (r: Self)
        ensures
            r@.len() == 256,
            forall|i: int| 0 <= i < 256 ==> r@[i] == i,
    {
        let mut this = Self::new_zeroed();
        let mut i: usize = 0;
        while i < 256
            invariant
                i <= 256,
                this@.len() == 256,
                forall|j: int| 0 <= j < i ==> this@[j] == j,
            decreases 256 - i,
        {
            this.symbols[i] = i as u8;
            i = i + 1;
        }
        this
    }

    /// The symbol at position `i` of the list.
    pub fn symbol_at(&self, i: u8) -> (r: u8)
        ensures
            r == self@[i as int],
    {
        self.symbols[i as usize]
    }

    /// The symbol at the front of the list.
    pub fn first(&self) -> (r: u8)
        ensures
            r == self@[0],
    {
        self.symbols[0]
    }

    /// Return the symbol at position `n` and rotate positions `0..=n`
    /// right by one, so that symbol moves to the front.
    pub fn decode(&mut self, n: u8) -> (r: u8)
        ensures
            r == old(self)@[n as int],
            final(self)@.len() == 256,
            final(self)@[0] == old(self)@[n as int],
            forall|i: int| 1 <= i <= n ==> final(self)@[i] == old(self)@[i - 1],
            forall|i: int| n < i < 256 ==> final(self)@[i] == old(self)@[i],
    {
        let b = self.symbols[n as usize];
        let mut i: usize = n as usize;
        while i > 0
            invariant
                i <= n,
                self@.len() == 256,
                b == old(self)@[n as int],
                forall|j: int| 0 <= j <= i ==> self@[j] == old(self)@[j],
                forall|j: int| i < j <= n ==> self@[j] == old(self)@[j - 1],
                forall|j: int| n < j < 256 ==> self@[j] == old(self)@[j],
            decreases i,
        {
            let prev = self.symbols[i - 1];
            self.symbols[i] = prev;
            i = i - 1;
        }
        self.symbols[0] = b;
        b
    }

    /// Like [`MoveToFrontDecoder::decode`], restricted to the small
    /// indices used while decoding selectors.
    pub fn decode_small(&mut self, n: u8) -> (r: u8)
        requires
            n <= 6,
        ensures
            r == old(self)@[n as int],
            final(self)@.len() == 256,
            final(self)@[0] == old(self)@[n as int],
            forall|i: int| 1 <= i <= n ==> final(self)@[i] == old(self)@[i - 1],
            forall|i: int| n < i < 256 ==> final(self)@[i] == old(self)@[i],
    {
        self.decode(n)
    }

    /// Parse the symbol map. On success the returned list starts with the
    /// used symbols in increasing order (the rest is zero), and the
    /// returned alphabet size is the number of used symbols plus two (for
    /// RUNB and the end-of-block symbol).
    #[verifier::loop_isolation(false)]
    #[verifier::rlimit(100)]
    #[verifier::spinoff_prover]
    pub fn read_from_block(reader: &mut BitReader<'_>) -> (r: Result<
        (Self, usize),
        BlockError,
    >)
        requires
            old(reader).wf(),
        ensures
            final(reader).wf(),
            final(reader).data() == old(reader).data(),
            old(reader).bit_pos() <= final(reader).bit_pos(),
            match r {
                Ok((d, alpha_size)) => symbol_map_ok(
                    old(reader).data(),
                    old(reader).bit_pos(),
                    d@,
                    alpha_size as int,
                    final(reader).bit_pos(),
                ),
                Err(e) => symbol_map_err(
                    old(reader).data(),
                    old(reader).bit_pos(),
                    e,
                    final(reader).bit_pos(),
                ),
            },
    {
        let ghost data = reader.data();
        let ghost start = reader.bit_pos();

        let mut this = Self::new_zeroed();
        let mut bitmaps: Vec<u8> = Vec::new();

        let mut i: usize = 0;
        while i < 16
            invariant
                reader.wf(),
                reader.data() == data,
                reader.bit_pos() == start + i,
                i <= 16,
                bitmaps@.len() == ranges_before(data, start, i as int),
                forall|k: int| 0 <= k < bitmaps@.len() ==> #[trigger] bitmaps@[k] < i,
                forall|k1: int, k2: int|
                    0 <= k1 < k2 < bitmaps@.len() ==> bitmaps@[k1] < bitmaps@[k2],
                forall|k: int|
                    0 <= k < bitmaps@.len() ==> bit_at(data, start + #[trigger] bitmaps@[k])
                        && ranges_before(data, start, bitmaps@[k] as int) == k,
                forall|q: int|
                    0 <= q < i && #[trigger] bit_at(data, start + q) ==> exists|k: int|
                        0 <= k < bitmaps@.len() && bitmaps@[k] == q,
            decreases 16 - i,
        {
            match reader.read_bit() {
                Some(bit) => {
                    proof {
                        assert(ranges_before(data, start, i + 1) == ranges_before(
                            data,
                            start,
                            i as int,
                        ) + if bit_at(data, start + i) {
                            1int
                        } else {
                            0int
                        });
                    }
                    if bit {
                        let ghost old_b = bitmaps@;
                        bitmaps.push(i as u8);
                        proof {
                            assert forall|q: int|
                                0 <= q < i + 1 && #[trigger] bit_at(data, start + q) implies exists|
                                k: int,
                            | 0 <= k < bitmaps@.len() && bitmaps@[k] == q by {
                                if q < i {
                                    let k = choose|k: int|
                                        0 <= k < old_b.len() && old_b[k] == q;
                                    assert(bitmaps@[k] == q);
                                } else {
                                    assert(bitmaps@[bitmaps@.len() - 1] == q);
                                }
                            }
                        }
                    }
                    i = i + 1;
                },
                None => {
                    proof {
                        lemma_ranges_before_mono(data, start, 0, 16);
                        assert(symbol_map_err(
                            data,
                            start,
                            BlockError::SymbolRangeTruncated,
                            reader.bit_pos(),
                        ));
                    }
                    return Err(BlockError::SymbolRangeTruncated);
                },
            }
        }

        let ghost total_ranges = ranges_before(data, start, 16);
        let mut used: usize = 0;
        let mut k: usize = 0;
        while k < bitmaps.len()
            invariant
                reader.wf(),
                reader.data() == data,
                k <= bitmaps@.len(),
                reader.bit_pos() == start + 16 + 16 * k,
                used <= 256,
                this@.len() == 256,
                forall|t: int| 0 <= t < used ==> #[trigger] this@[t] >= t,
                k < bitmaps@.len() ==> forall|t: int|
                    0 <= t < used ==> #[trigger] this@[t] < 16 * bitmaps@[k as int],
                forall|t1: int, t2: int| 0 <= t1 < t2 < used ==> this@[t1] < this@[t2],
                forall|t: int|
                    0 <= t < used ==> symbol_present(data, start, #[trigger] this@[t] as int),
                forall|b: int|
                    0 <= b < 256 && #[trigger] symbol_present(data, start, b) && (exists|kk: int|
                        0 <= kk < k && bitmaps@[kk] == b / 16) ==> exists|t: int|
                        0 <= t < used && this@[t] == b,
                forall|t: int| used <= t < 256 ==> this@[t] == 0,
            decreases bitmaps@.len() - k,
        {
            let range = bitmaps[k];
            let mut j: usize = 0;
            while j < 16
                invariant
                    reader.wf(),
                    reader.data() == data,
                    j <= 16,
                    k < bitmaps@.len(),
                    reader.bit_pos() == start + 16 + 16 * k + j,
                    used <= 256,
                    this@.len() == 256,
                    forall|t: int| 0 <= t < used ==> #[trigger] this@[t] >= t,
                    forall|t: int| 0 <= t < used ==> #[trigger] this@[t] < 16 * range + j,
                    forall|t1: int, t2: int| 0 <= t1 < t2 < used ==> this@[t1] < this@[t2],
                    forall|t: int|
                        0 <= t < used ==> symbol_present(data, start, #[trigger] this@[t] as int),
                    forall|b: int|
                        0 <= b < 256 && #[trigger] symbol_present(data, start, b) && ((exists|
                            kk: int,
                        | 0 <= kk < k && bitmaps@[kk] == b / 16) || (b / 16 == range && b % 16 < j))
                            ==> exists|t: int| 0 <= t < used && this@[t] == b,
                    forall|t: int| used <= t < 256 ==> this@[t] == 0,
                decreases 16 - j,
            {
                match reader.read_bit() {
                    Some(bit) => {
                        if bit {
                            let b: u8 = range * 16 + (j as u8);
                            proof {
                                assert(b / 16 == range && b % 16 == j);
                                assert(symbol_present(data, start, b as int));
                                if used > 0 {
                                    assert(this@[used - 1] >= used - 1);
                                    assert(this@[used - 1] < b);
                                }
                            }
                            let ghost old_syms = this@;
                            let ghost old_used = used as int;
                            this.symbols[used] = b;
                            used = used + 1;
                            proof {
                                assert(this@ == old_syms.update(old_used, b));
                                assert forall|bb: int|
                                    0 <= bb < 256 && #[trigger] symbol_present(data, start, bb)
                                        && ((exists|kk: int|
                                        0 <= kk < k && bitmaps@[kk] == bb / 16) || (bb / 16 == range
                                        && bb % 16 < j + 1)) implies exists|t: int|
                                    0 <= t < used && this@[t] == bb by {
                                    if bb == b {
                                        assert(this@[old_used] == bb);
                                    } else {
                                        let t = choose|t: int|
                                            0 <= t < old_used && old_syms[t] == bb;
                                        assert(this@[t] == bb);
                                    }
                                }
                            }
                        }
                        j = j + 1;
                    },
                    None => {
                        proof {
                            assert(ranges_before(data, start, range + 1) == k + 1);
                            lemma_ranges_before_mono(data, start, range as int + 1, 16);
                        }
                        return Err(BlockError::SymbolRangeTruncated);
                    },
                }
            }
            k = k + 1;
            proof {
                if k < bitmaps@.len() {
                    assert(bitmaps@[k as int - 1] < bitmaps@[k as int]);
                    assert forall|t: int| 0 <= t < used implies #[trigger] this@[t] < 16
                        * bitmaps@[k as int] by {
                        assert(this@[t] < 16 * range + 16);
                    }
                }
            }
        }

        proof {
            // Every present symbol's range bit is set, so its range shows
            // up among the bitmaps and its own bit was read.
            assert forall|b: int|
                0 <= b < 256 && #[trigger] symbol_present(data, start, b) implies exists|t: int|
                0 <= t < used && this@[t] == b by {
                assert(bit_at(data, start + b / 16));
                assert(exists|kk: int| 0 <= kk < bitmaps@.len() && bitmaps@[kk] == b / 16);
            }
        }

        proof {
            lemma_ranges_before_mono(data, start, 0, 16);
        }
        if used == 0 {
            proof {
                assert(symbol_map_err(data, start, BlockError::NoSymbols, reader.bit_pos()));
            }
            return Err(BlockError::NoSymbols);
        }

        let alpha_size = used + 2;
        proof {
            assert(symbol_map_ok(
                data,
                start,
                this@,
                alpha_size as int,
                reader.bit_pos(),
            ));
        }
        Ok((this, alpha_size))
    }
}

} // verus!
