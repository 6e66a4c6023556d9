//! The inverse Burrows-Wheeler transform.
//!
//! The block decoder leaves the BWT-transformed bytes in the low 8 bits of
//! `tt` and per-byte counts in `c`. The inverse transform turns `c` into
//! cumulative starting positions and threads a linked list through the
//! high 24 bits of `tt`: the entry for row `i` is stored at the position
//! that row occupies in the sorted order, which is the count of smaller
//! bytes plus the number of earlier rows with the same byte.

use vstd::prelude::*;

verus! {

/// How many entries of `s` are strictly below `v`.
pub open spec fn count_lt(s: Seq<u32>, v: int) -> int
    decreases s.len(),
{
    if s.len() == 0 {
        0
    } else {
        count_lt(s.drop_last(), v) + if s.last() < v {
            1int
        } else {
            0int
        }
    }
}

/// How many of the first `i` entries of `s` equal `v`.
pub open spec fn count_eq_upto(s: Seq<u32>, i: int, v: int) -> int
    decreases i,
{
    if i <= 0 {
        0
    } else {
        count_eq_upto(s, i - 1, v) + if s[i - 1] == v {
            1int
        } else {
            0int
        }
    }
}

/// How many entries of `s` equal `v`.
pub open spec fn count_val(s: Seq<u32>, v: int) -> int {
    count_eq_upto(s, s.len() as int, v)
}

/// Where the inverse BWT stores the link for row `i`: after every row
/// with a smaller byte and every earlier row with the same byte.
pub open spec fn bwt_pos(s: Seq<u32>, i: int) -> int {
    count_lt(s, s[i] as int) + count_eq_upto(s, i, s[i] as int)
}

proof fn lemma_count_lt_zero(s: Seq<u32>)
    ensures
        count_lt(s, 0) == 0,
    decreases s.len(),
{
    if s.len() > 0 {
        lemma_count_lt_zero(s.drop_last());
    }
}

proof fn lemma_count_lt_bounds(s: Seq<u32>, v: int)
    ensures
        0 <= count_lt(s, v) <= s.len(),
    decreases s.len(),
{
    if s.len() > 0 {
        lemma_count_lt_bounds(s.drop_last(), v);
    }
}

proof fn lemma_count_lt_mono(s: Seq<u32>, v1: int, v2: int)
    requires
        v1 <= v2,
    ensures
        count_lt(s, v1) <= count_lt(s, v2),
    decreases s.len(),
{
    if s.len() > 0 {
        lemma_count_lt_mono(s.drop_last(), v1, v2);
    }
}

proof fn lemma_count_eq_prefix(s: Seq<u32>, i: int, v: int)
    requires
        0 <= i < s.len(),
    ensures
        count_eq_upto(s, i, v) == count_eq_upto(s.drop_last(), i, v),
    decreases i,
{
    if i > 0 {
        lemma_count_eq_prefix(s, i - 1, v);
    }
}

proof fn lemma_count_eq_mono(s: Seq<u32>, i1: int, i2: int, v: int)
    requires
        i1 <= i2,
    ensures
        count_eq_upto(s, i1, v) <= count_eq_upto(s, i2, v),
        count_eq_upto(s, i1, v) >= 0,
    decreases i2 - i1,
{
    if i1 < i2 {
        lemma_count_eq_mono(s, i1, i2 - 1, v);
    } else if i1 == i2 {
        lemma_count_eq_nonneg(s, i1, v);
    }
}

proof fn lemma_count_eq_nonneg(s: Seq<u32>, i: int, v: int)
    ensures
        count_eq_upto(s, i, v) >= 0,
    decreases i,
{
    if i > 0 {
        lemma_count_eq_nonneg(s, i - 1, v);
    }
}

/// Splitting the strict count at `v + 1` separates the entries below `v`
/// from those equal to `v`.
proof fn lemma_count_lt_step(s: Seq<u32>, v: int)
    ensures
        count_lt(s, v + 1) == count_lt(s, v) + count_val(s, v),
    decreases s.len(),
{
    if s.len() > 0 {
        lemma_count_lt_step(s.drop_last(), v);
        lemma_count_eq_prefix(s, s.len() - 1, v);
    }
}

/// Each row's slot lies inside the array.
proof fn lemma_pos_range(s: Seq<u32>, i: int)
    requires
        0 <= i < s.len(),
    ensures
        0 <= bwt_pos(s, i) < s.len(),
{
    let b = s[i] as int;
    lemma_count_lt_bounds(s, b);
    lemma_count_eq_nonneg(s, i, b);
    lemma_count_eq_mono(s, i + 1, s.len() as int, b);
    lemma_count_lt_step(s, b);
    lemma_count_lt_bounds(s, b + 1);
    assert(count_eq_upto(s, i + 1, b) == count_eq_upto(s, i, b) + 1);
}

/// Distinct rows get distinct slots.
proof fn lemma_pos_inj(s: Seq<u32>, j1: int, j2: int)
    requires
        0 <= j1 < j2 < s.len(),
    ensures
        bwt_pos(s, j1) != bwt_pos(s, j2),
{
    let b1 = s[j1] as int;
    let b2 = s[j2] as int;
    if b1 == b2 {
        assert(count_eq_upto(s, j1 + 1, b1) == count_eq_upto(s, j1, b1) + 1);
        lemma_count_eq_mono(s, j1 + 1, j2, b1);
    } else if b1 < b2 {
        lemma_count_lt_step(s, b1);
        lemma_count_lt_mono(s, b1 + 1, b2);
        lemma_count_eq_mono(s, j1 + 1, s.len() as int, b1);
        assert(count_eq_upto(s, j1 + 1, b1) == count_eq_upto(s, j1, b1) + 1);
        lemma_count_eq_nonneg(s, j2, b2);
    } else {
        lemma_count_lt_step(s, b2);
        lemma_count_lt_mono(s, b2 + 1, b1);
        lemma_count_eq_mono(s, j2 + 1, s.len() as int, b2);
        assert(count_eq_upto(s, j2 + 1, b2) == count_eq_upto(s, j2, b2) + 1);
        lemma_count_eq_nonneg(s, j1, b1);
    }
}

/// Counting over a prefix never exceeds the prefix length.
pub proof fn lemma_count_eq_le(s: Seq<u32>, i: int, v: int)
    ensures
        count_eq_upto(s, i, v) <= i || i < 0,
    decreases i,
{
    if i > 0 {
        lemma_count_eq_le(s, i - 1, v);
    }
}

/// Counting a prefix ignores a pushed element.
pub proof fn lemma_count_eq_upto_push(s: Seq<u32>, x: u32, i: int, v: int)
    requires
        i <= s.len(),
    ensures
        count_eq_upto(s.push(x), i, v) == count_eq_upto(s, i, v),
    decreases i,
{
    if i > 0 {
        lemma_count_eq_upto_push(s, x, i - 1, v);
    }
}

/// Pushing an element adds one to exactly its own bucket.
pub proof fn lemma_count_val_push(s: Seq<u32>, x: u32, v: int)
    ensures
        count_val(s.push(x), v) == count_val(s, v) + if x == v {
            1int
        } else {
            0int
        },
{
    lemma_count_eq_upto_push(s, x, s.len() as int, v);
    assert(count_eq_upto(s.push(x), s.len() as int + 1, v) == count_eq_upto(s.push(x), s.len() as int, v)
        + if s.push(x)[s.len() as int] == v {
        1int
    } else {
        0int
    });
}

/// Run the inverse BWT in place. `tt` holds one byte per entry (high bits
/// zero) and `c[b]` counts the entries equal to `b`. Afterwards the entry
/// at each row's slot carries that row's index in its high 24 bits, with
/// the slot's own byte kept in the low 8; the returned cursor is the high
/// part of the entry at `orig_ptr`.
pub fn inverse_bwt(tt: &mut Vec<u32>, orig_ptr: usize, c: &mut [u32; 256]) -> (r: u32)
    requires
        old(tt)@.len() < 0x100_0000,
        orig_ptr < old(tt)@.len(),
        forall|j: int| 0 <= j < old(tt)@.len() ==> old(tt)@[j] < 256,
        forall|b: int| 0 <= b < 256 ==> old(c)@[b] == count_val(old(tt)@, b),
    ensures
        final(tt)@.len() == old(tt)@.len(),
        forall|j: int|
            0 <= j < old(tt)@.len() ==> final(tt)@[bwt_pos(old(tt)@, j)] == old(tt)@[bwt_pos(
                old(tt)@,
                j,
            )] + 256 * j,
        forall|p: int|
            0 <= p < old(tt)@.len() && final(tt)@[p] != old(tt)@[p] ==> exists|j: int|
                0 <= j < old(tt)@.len() && bwt_pos(old(tt)@, j) == p,
        forall|p: int| 0 <= p < old(tt)@.len() ==> (#[trigger] final(tt)@[p]) % 256 == old(tt)@[p],
        forall|p: int|
            0 <= p < old(tt)@.len() ==> (#[trigger] final(tt)@[p]) >> 8 < old(tt)@.len(),
        r == final(tt)@[orig_ptr as int] >> 8,
        r < old(tt)@.len(),
{
    let ghost orig = tt@;
    let n = tt.len();
    proof {
        lemma_count_lt_zero(orig);
    }

    // Turn per-byte counts into cumulative starting positions.
    let mut sum: u32 = 0;
    let mut b: usize = 0;
    while b < 256
        invariant
            b <= 256,
            n == orig.len() < 0x100_0000,
            sum == count_lt(orig, b as int),
            forall|x: int| 0 <= x < b ==> c@[x] == count_lt(orig, x),
            forall|x: int| b <= x < 256 ==> c@[x] == count_val(orig, x),
        decreases 256 - b,
    {
        proof {
            lemma_count_lt_step(orig, b as int);
            lemma_count_lt_bounds(orig, b as int + 1);
            lemma_count_eq_nonneg(orig, orig.len() as int, b as int);
        }
        let cb = c[b];
        sum = sum + cb;
        c[b] = sum - cb;
        b = b + 1;
    }

    // Thread the linked list: row i's index goes to the slot its byte and
    // rank assign it.
    proof {
        assert forall|p: int| 0 <= p < n implies (#[trigger] tt@[p]) >> 8 < n by {
            let v = tt@[p];
            assert(v >> 8 == 0) by (bit_vector)
                requires
                    v < 256,
            ;
        }
    }
    let mut i: usize = 0;
    while i < n
        invariant
            i <= n,
            n == orig.len() < 0x100_0000,
            tt@.len() == n,
            forall|j: int| 0 <= j < n ==> orig[j] < 256,
            forall|p: int| 0 <= p < n ==> (#[trigger] tt@[p]) % 256 == orig[p],
            forall|x: int|
                0 <= x < 256 ==> c@[x] == count_lt(orig, x) + count_eq_upto(orig, i as int, x),
            forall|j: int|
                0 <= j < i ==> tt@[bwt_pos(orig, j)] == orig[bwt_pos(orig, j)] + 256 * j,
            forall|p: int|
                0 <= p < n && tt@[p] != orig[p] ==> exists|j: int| 0 <= j < i && bwt_pos(orig, j)
                    == p,
            forall|p: int| 0 <= p < n ==> (#[trigger] tt@[p]) >> 8 < n,
        decreases n - i,
    {
        let ghost i0 = i as int;
        let entry = tt[i];
        let byte = (entry % 256) as usize;
        proof {
            assert(orig[i as int] == byte);
            lemma_pos_range(orig, i as int);
            lemma_count_eq_mono(orig, i as int, orig.len() as int, byte as int);
            lemma_count_lt_bounds(orig, byte as int);
            lemma_count_eq_nonneg(orig, i as int, byte as int);
        }
        let idx = c[byte] as usize;
        proof {
            assert(idx == bwt_pos(orig, i as int));
            // The slot has not been written yet: any earlier writer would
            // share this slot, and slots are distinct.
            if tt@[idx as int] != orig[idx as int] {
                let j = choose|j: int| 0 <= j < i && bwt_pos(orig, j) == idx as int;
                lemma_pos_inj(orig, j, i as int);
                assert(false);
            }
        }
        let v = tt[idx];
        let link: u32 = v | ((i as u32) << 8);
        proof {
            let iv = i as u32;
            assert(link == v + 256 * iv && link % 256 == v && link >> 8 == iv) by (bit_vector)
                requires
                    v < 256,
                    iv < 0x100_0000,
                    link == v | (iv << 8),
            ;
        }
        let ghost before_write = tt@;
        tt[idx] = link;
        c[byte] = c[byte] + 1;
        i = i + 1;
        proof {
            assert(count_eq_upto(orig, i0 + 1, byte as int) == count_eq_upto(orig, i0, byte as int)
                + 1);
            assert forall|x: int| 0 <= x < 256 implies c@[x] == count_lt(orig, x) + count_eq_upto(
                orig,
                i0 + 1,
                x,
            ) by {
                if x != byte {
                    assert(count_eq_upto(orig, i0 + 1, x) == count_eq_upto(orig, i0, x));
                }
            }
            assert forall|j: int|
                0 <= j < i0 + 1 implies tt@[bwt_pos(orig, j)] == orig[bwt_pos(orig, j)] + 256
                * j by {
                if j < i0 {
                    lemma_pos_range(orig, j);
                    lemma_pos_inj(orig, j, i0);
                    assert(bwt_pos(orig, i0) == idx as int);
                    assert(bwt_pos(orig, j) != idx as int);
                    assert(tt@[bwt_pos(orig, j)] == before_write[bwt_pos(orig, j)]);
                } else {
                    assert(bwt_pos(orig, j) == idx as int);
                    assert(tt@[idx as int] == link);
                }
            }
            assert forall|p: int|
                0 <= p < n && tt@[p] != orig[p] implies exists|j: int|
                0 <= j < i0 + 1 && bwt_pos(orig, j) == p by {
                if p != idx as int {
                    assert(tt@[p] == before_write[p]);
                    let j = choose|j: int| 0 <= j < i0 && bwt_pos(orig, j) == p;
                    assert(0 <= j < i0 + 1 && bwt_pos(orig, j) == p);
                } else {
                    assert(bwt_pos(orig, i0) == p);
                }
            }
        }
    }

    let out = tt[orig_ptr];
    let r = out >> 8;
    proof {
        assert(r == tt@[orig_ptr as int] >> 8);
    }
    r
}

} // verus!
