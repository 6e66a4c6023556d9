//! Bit-level view of a byte buffer: bzip2 streams are MSB-first, so bit
//! `i` of a buffer is bit `7 - (i % 8)` of byte `i / 8`, and an `n`-bit
//! field is read big-endian.

use vstd::arithmetic::power2::{lemma2_to64, lemma2_to64_rest, lemma_pow2_strictly_increases, pow2};
use vstd::prelude::*;

verus! {

/// Bit `i` of the buffer, MSB of each byte first.
pub open spec fn bit_at(s: Seq<u8>, i: int) -> bool
    recommends
        0 <= i < 8 * s.len(),
{
    (s[i / 8] >> ((7 - (i % 8)) as u8)) & 1 == 1
}

/// The value of the `n` bits starting at bit `pos`, big-endian: the bit
/// at `pos` is the most significant.
pub open spec fn bits_val(s: Seq<u8>, pos: int, n: nat) -> nat
    decreases n,
{
    if n == 0 {
        0
    } else {
        bits_val(s, pos, (n - 1) as nat) * 2 + if bit_at(s, pos + n - 1) {
            1nat
        } else {
            0nat
        }
    }
}

/// An `n`-bit value is below `2^n`.
pub proof fn lemma_bits_val_bound(s: Seq<u8>, pos: int, n: nat)
    ensures
        bits_val(s, pos, n) < pow2(n),
    decreases n,
{
    if n == 0 {
        lemma2_to64();
    } else {
        lemma_bits_val_bound(s, pos, (n - 1) as nat);
        assert(pow2(n) == 2 * pow2((n - 1) as nat)) by {
            vstd::arithmetic::power2::lemma_pow2_unfold(n);
        }
    }
}

/// A value of at most 64 bits fits in a `u64`.
pub proof fn lemma_bits_val_fits_u64(s: Seq<u8>, pos: int, n: nat)
    requires
        n <= 64,
    ensures
        bits_val(s, pos, n) < 0x1_0000_0000_0000_0000,
{
    lemma_bits_val_bound(s, pos, n);
    lemma2_to64();
    lemma2_to64_rest();
    if n < 64 {
        lemma_pow2_strictly_increases(n, 64);
    }
}

/// A bit field splits at any point: the high part carries `pow2` weight.
pub proof fn lemma_bits_val_split(s: Seq<u8>, pos: int, a: nat, m: nat)
    requires
        a <= m,
    ensures
        bits_val(s, pos, m) == bits_val(s, pos, a) * pow2((m - a) as nat) + bits_val(
            s,
            pos + a,
            (m - a) as nat,
        ),
    decreases m - a,
{
    if m == a {
        lemma2_to64();
        assert(bits_val(s, pos + a, 0) == 0);
    } else {
        lemma_bits_val_split(s, pos, a, (m - 1) as nat);
        let hi = bits_val(s, pos, a);
        let w1 = pow2((m - 1 - a) as nat);
        assert(pow2((m - a) as nat) == 2 * w1) by {
            vstd::arithmetic::power2::lemma_pow2_unfold((m - a) as nat);
        }
        assert(hi * (2 * w1) == (hi * w1) * 2) by (nonlinear_arith);
    }
}

/// Any inner field of a wider read is a shift (division) and mask (mod).
pub proof fn lemma_bits_val_extract(s: Seq<u8>, pos: int, k: nat, n: nat, m: nat)
    requires
        k + n <= m,
    ensures
        bits_val(s, pos + k, n) == (bits_val(s, pos, m) / pow2((m - k - n) as nat)) % pow2(n),
{
    let w = bits_val(s, pos, m);
    let hi = bits_val(s, pos, k);
    let rest = bits_val(s, pos + k, (m - k) as nat);
    let target = bits_val(s, pos + k, n);
    let low = bits_val(s, pos + k + n, (m - k - n) as nat);
    lemma_bits_val_split(s, pos, k, m);
    lemma_bits_val_split(s, pos + k, n, (m - k) as nat);
    lemma_bits_val_bound(s, pos + k + n, (m - k - n) as nat);
    lemma_bits_val_bound(s, pos + k, n);
    let dn = pow2(n);
    let dl = pow2((m - k - n) as nat);
    vstd::arithmetic::power2::lemma_pow2_pos((m - k - n) as nat);
    vstd::arithmetic::power2::lemma_pow2_pos(n);
    assert(pow2((m - k) as nat) == dn * dl) by {
        vstd::arithmetic::power2::lemma_pow2_adds(n, (m - k - n) as nat);
    }
    // w == ((hi * dn + target) * dl) + low
    assert(w == hi * (dn * dl) + (target * dl + low));
    assert(hi * (dn * dl) == (hi * dn) * dl) by {
        vstd::arithmetic::mul::lemma_mul_is_associative(hi as int, dn as int, dl as int);
    }
    assert((hi * dn) * dl + target * dl == (hi * dn + target) * dl) by {
        vstd::arithmetic::mul::lemma_mul_is_distributive_add_other_way(
            dl as int,
            (hi * dn) as int,
            target as int,
        );
    }
    assert(w == (hi * dn + target) * dl + low);
    vstd::arithmetic::div_mod::lemma_fundamental_div_mod_converse(
        w as int,
        dl as int,
        (hi * dn + target) as int,
        low as int,
    );
    assert(w as int / dl as int == hi * dn + target);
    assert((hi * dn + target) as int % dn as int == target) by {
        vstd::arithmetic::div_mod::lemma_mod_multiples_vanish(hi as int, target as int, dn as int);
        vstd::arithmetic::div_mod::lemma_small_mod(target, dn);
    }
}

} // verus!
