//! Bit-level primitives: single bits, ranks, population counts.
use vstd::prelude::*;

verus! {

/// Bit `k` of `x` (for `k < 64`).
pub open spec fn bit(x: u64, k: u64) -> bool {
    (x >> k) & 1u64 == 1u64
}

/// Number of set bits of `x` among positions `0..j`.
pub open spec fn rank(x: u64, j: nat) -> nat
    decreases j,
{
    if j == 0 {
        0
    } else {
        rank(x, (j - 1) as nat) + if bit(x, (j - 1) as u64) {
            1nat
        } else {
            0nat
        }
    }
}

/// Number of set bits of `x`.
pub open spec fn popcount(x: u64) -> nat {
    rank(x, 64)
}

/// `x` is a value of `width` bits: no bit at or above `width` is set.
pub open spec fn fits(x: u64, width: nat) -> bool {
    width >= 64 || (x >> (width as u64)) == 0
}

/// The low `j` bits set.
pub open spec fn low_mask(j: u64) -> u64 {
    if j >= 64 {
        u64::MAX
    } else {
        ((1u64 << j) - 1) as u64
    }
}

/// Sum of the 64 bits of `x`, spelled out for the bit-vector solver.
spec fn bit_sum(x: u64) -> int {
    ((x >> 0u64) & 1u64) +
        ((x >> 1u64) & 1u64) +
        ((x >> 2u64) & 1u64) +
        ((x >> 3u64) & 1u64) +
        ((x >> 4u64) & 1u64) +
        ((x >> 5u64) & 1u64) +
        ((x >> 6u64) & 1u64) +
        ((x >> 7u64) & 1u64) +
        ((x >> 8u64) & 1u64) +
        ((x >> 9u64) & 1u64) +
        ((x >> 10u64) & 1u64) +
        ((x >> 11u64) & 1u64) +
        ((x >> 12u64) & 1u64) +
        ((x >> 13u64) & 1u64) +
        ((x >> 14u64) & 1u64) +
        ((x >> 15u64) & 1u64) +
        ((x >> 16u64) & 1u64) +
        ((x >> 17u64) & 1u64) +
        ((x >> 18u64) & 1u64) +
        ((x >> 19u64) & 1u64) +
        ((x >> 20u64) & 1u64) +
        ((x >> 21u64) & 1u64) +
        ((x >> 22u64) & 1u64) +
        ((x >> 23u64) & 1u64) +
        ((x >> 24u64) & 1u64) +
        ((x >> 25u64) & 1u64) +
        ((x >> 26u64) & 1u64) +
        ((x >> 27u64) & 1u64) +
        ((x >> 28u64) & 1u64) +
        ((x >> 29u64) & 1u64) +
        ((x >> 30u64) & 1u64) +
        ((x >> 31u64) & 1u64) +
        ((x >> 32u64) & 1u64) +
        ((x >> 33u64) & 1u64) +
        ((x >> 34u64) & 1u64) +
        ((x >> 35u64) & 1u64) +
        ((x >> 36u64) & 1u64) +
        ((x >> 37u64) & 1u64) +
        ((x >> 38u64) & 1u64) +
        ((x >> 39u64) & 1u64) +
        ((x >> 40u64) & 1u64) +
        ((x >> 41u64) & 1u64) +
        ((x >> 42u64) & 1u64) +
        ((x >> 43u64) & 1u64) +
        ((x >> 44u64) & 1u64) +
        ((x >> 45u64) & 1u64) +
        ((x >> 46u64) & 1u64) +
        ((x >> 47u64) & 1u64) +
        ((x >> 48u64) & 1u64) +
        ((x >> 49u64) & 1u64) +
        ((x >> 50u64) & 1u64) +
        ((x >> 51u64) & 1u64) +
        ((x >> 52u64) & 1u64) +
        ((x >> 53u64) & 1u64) +
        ((x >> 54u64) & 1u64) +
        ((x >> 55u64) & 1u64) +
        ((x >> 56u64) & 1u64) +
        ((x >> 57u64) & 1u64) +
        ((x >> 58u64) & 1u64) +
        ((x >> 59u64) & 1u64) +
        ((x >> 60u64) & 1u64) +
        ((x >> 61u64) & 1u64) +
        ((x >> 62u64) & 1u64) +
        ((x >> 63u64) & 1u64)
}

proof fn lemma_bit_is_low(x: u64, k: u64)
    requires
        k < 64,
    ensures
        (x >> k) & 1u64 == (if bit(x, k) { 1u64 } else { 0u64 }),
{
    assert((x >> k) & 1u64 == 1u64 || (x >> k) & 1u64 == 0u64) by (bit_vector);
}

/// Sum of the bits of `x` below `j`, as integers.
spec fn bit_psum(x: u64, j: nat) -> int
    decreases j,
{
    if j == 0 {
        0
    } else {
        bit_psum(x, (j - 1) as nat) + ((x >> ((j - 1) as u64)) & 1u64)
    }
}

proof fn lemma_rank_is_psum(x: u64, j: nat)
    requires
        j <= 64,
    ensures
        rank(x, j) == bit_psum(x, j),
    decreases j,
{
    if j > 0 {
        lemma_rank_is_psum(x, (j - 1) as nat);
        lemma_bit_is_low(x, (j - 1) as u64);
    }
}

proof fn lemma_rank_is_bit_sum(x: u64)
    ensures
        popcount(x) == bit_sum(x),
{
    lemma_rank_is_psum(x, 64);
    reveal_with_fuel(bit_psum, 65);
}

/// A rank never exceeds the number of positions counted.
pub proof fn lemma_rank_le(x: u64, j: nat)
    ensures
        rank(x, j) <= j,
    decreases j,
{
    if j > 0 {
        lemma_rank_le(x, (j - 1) as nat);
    }
}

/// Ranks grow with the number of positions counted.
pub proof fn lemma_rank_mono(x: u64, i: nat, j: nat)
    requires
        i <= j,
    ensures
        rank(x, i) <= rank(x, j),
        rank(x, j) <= rank(x, i) + (j - i),
    decreases j - i,
{
    if i < j {
        lemma_rank_mono(x, i, (j - 1) as nat);
    }
}

/// Two values that agree on the bits below `j` have the same rank at `j`.
pub proof fn lemma_rank_agree(x: u64, y: u64, j: nat)
    requires
        forall|k: u64| k < j ==> bit(x, k) == bit(y, k),
    ensures
        rank(x, j) == rank(y, j),
    decreases j,
{
    if j > 0 {
        lemma_rank_agree(x, y, (j - 1) as nat);
    }
}

/// Past the last set bit the rank stays put.
pub proof fn lemma_rank_flat(x: u64, i: nat, j: nat)
    requires
        i <= j <= 64,
        forall|k: u64| i <= k < j ==> !bit(x, k),
    ensures
        rank(x, j) == rank(x, i),
    decreases j - i,
{
    if i < j {
        assert(!bit(x, (j - 1) as u64));
        lemma_rank_flat(x, i, (j - 1) as nat);
    }
}

/// A value of `w` bits has no bit set at or above `w`.
pub proof fn lemma_fits_bit(x: u64, w: u64, k: u64)
    by (bit_vector)
    requires
        (x >> w) == 0,
        w <= k,
        k < 64,
    ensures
        !bit(x, k),
{
}

/// A value of `width` bits has at most `width` set bits.
pub proof fn lemma_popcount_fits(x: u64, width: nat)
    requires
        fits(x, width),
    ensures
        popcount(x) <= width,
        popcount(x) == rank(x, if width < 64 { width } else { 64 }),
{
    if width < 64 {
        let w = width as u64;
        assert forall|k: u64| w <= k < 64 implies !bit(x, k) by {
            lemma_fits_bit(x, w, k);
        }
        lemma_rank_flat(x, width, 64);
        lemma_rank_le(x, width);
    } else {
        lemma_rank_le(x, 64);
    }
}

/// Counts the set bits of a 64-bit word.
#[verifier::rlimit(100)]
#[verifier::spinoff_prover]
pub fn popcnt_64(x: u64) -> (r: u32)
    ensures
        r == popcount(x),
{
    assert((x & 0x5555555555555555) + ((x >> 1) & 0x5555555555555555) <= u64::MAX) by (bit_vector);
    let y1: u64 = (x & 0x5555555555555555) + ((x >> 1) & 0x5555555555555555);
    assert((y1 & 0x3333333333333333) + ((y1 >> 2) & 0x3333333333333333) <= u64::MAX) by (bit_vector);
    let y2: u64 = (y1 & 0x3333333333333333) + ((y1 >> 2) & 0x3333333333333333);
    assert((y2 & 0x0f0f0f0f0f0f0f0f) + ((y2 >> 4) & 0x0f0f0f0f0f0f0f0f) <= u64::MAX) by (bit_vector);
    let y3: u64 = (y2 & 0x0f0f0f0f0f0f0f0f) + ((y2 >> 4) & 0x0f0f0f0f0f0f0f0f);
    assert((y3 & 0x00ff00ff00ff00ff) + ((y3 >> 8) & 0x00ff00ff00ff00ff) <= u64::MAX) by (bit_vector);
    let y4: u64 = (y3 & 0x00ff00ff00ff00ff) + ((y3 >> 8) & 0x00ff00ff00ff00ff);
    assert((y4 & 0x0000ffff0000ffff) + ((y4 >> 16) & 0x0000ffff0000ffff) <= u64::MAX) by (bit_vector);
    let y5: u64 = (y4 & 0x0000ffff0000ffff) + ((y4 >> 16) & 0x0000ffff0000ffff);
    assert((y5 & 0x00000000ffffffff) + ((y5 >> 32) & 0x00000000ffffffff) <= u64::MAX) by (bit_vector);
    let y6: u64 = (y5 & 0x00000000ffffffff) + ((y5 >> 32) & 0x00000000ffffffff);
    proof {
        assert(y6 == bit_sum(x) && y6 <= 64) by (bit_vector)
            requires
                y1 == ((x & 0x5555555555555555) + ((x >> 1) & 0x5555555555555555)) as u64,
                y2 == ((y1 & 0x3333333333333333) + ((y1 >> 2) & 0x3333333333333333)) as u64,
                y3 == ((y2 & 0x0f0f0f0f0f0f0f0f) + ((y2 >> 4) & 0x0f0f0f0f0f0f0f0f)) as u64,
                y4 == ((y3 & 0x00ff00ff00ff00ff) + ((y3 >> 8) & 0x00ff00ff00ff00ff)) as u64,
                y5 == ((y4 & 0x0000ffff0000ffff) + ((y4 >> 16) & 0x0000ffff0000ffff)) as u64,
                y6 == ((y5 & 0x00000000ffffffff) + ((y5 >> 32) & 0x00000000ffffffff)) as u64,
        ;
        lemma_rank_is_bit_sum(x);
    }
    y6 as u32
}

} // verus!

verus! {

/// Setting bit `p` changes bit `k` exactly when `k == p`.
pub proof fn lemma_bit_or(x: u64, p: u64, k: u64)
    requires
        p < 64,
        k < 64,
    ensures
        bit(x | (1u64 << p), k) == (bit(x, k) || k == p),
{
    assert(bit(x | (1u64 << p), k) == (bit(x, k) || k == p)) by (bit_vector)
        requires
            p < 64,
            k < 64,
    ;
}

/// Flipping bit `p` changes bit `k` exactly when `k == p`.
pub proof fn lemma_bit_xor1(x: u64, p: u64, k: u64)
    requires
        p < 64,
        k < 64,
    ensures
        bit(x ^ (1u64 << p), k) == (bit(x, k) != (k == p)),
{
    assert(bit(x ^ (1u64 << p), k) == (bit(x, k) != (k == p))) by (bit_vector)
        requires
            p < 64,
            k < 64,
    ;
}

/// Flipping bits `p` and `p + 1` together.
pub proof fn lemma_bit_xor3(x: u64, p: u64, k: u64)
    requires
        p < 63,
        k < 64,
    ensures
        bit(x ^ (3u64 << p), k) == (bit(x, k) != (k == p || k == p + 1)),
{
    assert(bit(x ^ (3u64 << p), k) == (bit(x, k) != (k == p || k == p + 1))) by (bit_vector)
        requires
            p < 63,
            k < 64,
    ;
}

/// Bits of an exclusive or.
pub proof fn lemma_bit_xor(x: u64, y: u64, k: u64)
    requires
        k < 64,
    ensures
        bit(x ^ y, k) == (bit(x, k) != bit(y, k)),
{
    assert(bit(x ^ y, k) == (bit(x, k) != bit(y, k))) by (bit_vector)
        requires
            k < 64,
    ;
}

/// Values agreeing on every bit from `k` up agree when shifted right by `k`.
pub proof fn lemma_shift_ext(x: u64, y: u64, k: u64)
    requires
        k < 64,
        forall|i: u64| k <= i < 64 ==> bit(x, i) == bit(y, i),
    ensures
        x >> k == y >> k,
    decreases 64 - k,
{
    if k == 63 {
        assert(bit(x, 63) == bit(y, 63));
        assert(bit(x, 63) == bit(y, 63) ==> x >> 63u64 == y >> 63u64) by (bit_vector);
    } else {
        lemma_shift_ext(x, y, (k + 1) as u64);
        assert(bit(x, k) == bit(y, k));
        assert(k < 63 && x >> ((k + 1) as u64) == y >> ((k + 1) as u64) && bit(x, k) == bit(y, k)
            ==> x >> k == y >> k) by (bit_vector);
    }
}

/// Values with the same bits are equal.
pub proof fn lemma_bit_ext(x: u64, y: u64)
    requires
        forall|i: u64| i < 64 ==> bit(x, i) == bit(y, i),
    ensures
        x == y,
{
    lemma_shift_ext(x, y, 0);
    assert(x >> 0u64 == y >> 0u64 ==> x == y) by (bit_vector);
}

/// Of two values equal above bit `p`, the one with bit `p` set is larger.
pub proof fn lemma_bit_order(x: u64, y: u64, p: u64)
    requires
        p < 64,
        forall|i: u64| p < i < 64 ==> bit(x, i) == bit(y, i),
        !bit(x, p),
        bit(y, p),
    ensures
        x < y,
{
    if p < 63 {
        lemma_shift_ext(x, y, (p + 1) as u64);
        assert(p < 63 && x >> ((p + 1) as u64) == y >> ((p + 1) as u64) && !bit(x, p) && bit(y, p)
            ==> x < y) by (bit_vector);
    } else {
        assert(!bit(x, 63) && bit(y, 63) ==> x < y) by (bit_vector);
    }
}

/// The rank after setting a clear bit `p`.
pub proof fn lemma_rank_set(x: u64, p: u64, j: nat)
    requires
        p < 64,
        j <= 64,
        !bit(x, p),
    ensures
        rank(x | (1u64 << p), j) == rank(x, j) + if j > p { 1nat } else { 0nat },
    decreases j,
{
    if j > 0 {
        lemma_rank_set(x, p, (j - 1) as nat);
        lemma_bit_or(x, p, (j - 1) as u64);
    }
}

} // verus!

verus! {

/// Masking with the low `i` bits keeps the rank below `i` and clears the rest.
pub proof fn lemma_rank_low_mask(x: u64, i: u64)
    requires
        i < 64,
    ensures
        popcount(x & low_mask(i)) == rank(x, i as nat),
{
    let m = low_mask(i);
    assert(m == ((1u64 << i) - 1) as u64);
    assert forall|k: u64| k < i implies bit(x & m, k) == bit(x, k) by {
        assert(k < i && i < 64 ==> bit(x & (((1u64 << i) - 1) as u64), k) == bit(x, k)) by (bit_vector);
    }
    assert forall|k: u64| i <= k < 64 implies !bit(x & m, k) by {
        assert(i <= k && k < 64 ==> !bit(x & (((1u64 << i) - 1) as u64), k)) by (bit_vector);
    }
    lemma_rank_flat(x & m, i as nat, 64);
    lemma_rank_agree(x & m, x, i as nat);
}

/// The number of set bits of `x` below position `i`.
pub fn popcnt_mask(x: u64, i: usize) -> (r: usize)
    requires
        i < 64,
    ensures
        r == rank(x, i as nat),
{
    proof {
        lemma_rank_low_mask(x, i as u64);
    }
    let k = i as u64;
    assert(1u64 << k >= 1) by (bit_vector)
        requires
            k < 64,
    ;
    popcnt_64(x & ((1u64 << k) - 1)) as usize
}

/// Whether bit `i` of `x` is set.
pub fn get(x: u64, i: usize) -> (r: bool)
    requires
        i < 64,
    ensures
        r == bit(x, i as u64),
{
    let k = i as u64;
    assert((x & (1u64 << k)) != 0 <==> bit(x, k)) by (bit_vector)
        requires
            k < 64,
    ;
    (x & (1u64 << k)) != 0
}

/// `x` with bit `i` set.
pub fn set(x: u64, i: usize) -> (r: u64)
    requires
        i < 64,
    ensures
        r == x | (1u64 << i as u64),
{
    x | (1u64 << i as u64)
}

/// The number of set bits of `x`.
pub fn popcnt(x: u64) -> (r: usize)
    ensures
        r == popcount(x),
        r <= 64,
{
    proof {
        lemma_rank_le(x, 64);
    }
    popcnt_64(x) as usize
}

} // verus!

verus! {

/// A non-zero word has a set bit.
pub proof fn lemma_nonzero_bit(x: u64) -> (k: u64)
    requires
        x != 0,
    ensures
        k < 64,
        bit(x, k),
{
    if forall|i: u64| i < 64 ==> !bit(x, i) {
        assert forall|i: u64| i < 64 implies bit(x, i) == bit(0u64, i) by {
            assert(!bit(0u64, i)) by (bit_vector);
        }
        lemma_bit_ext(x, 0u64);
    }
    choose|i: u64| i < 64 && bit(x, i)
}

} // verus!

verus! {

/// Zero has no set bits.
pub proof fn lemma_rank_zero(j: nat)
    requires
        j <= 64,
    ensures
        rank(0u64, j) == 0,
{
    assert forall|k: u64| 0 <= k < j implies !bit(0u64, k) by {
        assert(!bit(0u64, k)) by (bit_vector);
    }
    lemma_rank_flat(0u64, 0, j);
}

} // verus!

verus! {

/// A value of `w < 64` bits is below `2^w`.
pub proof fn lemma_fits_lt(x: u64, w: nat)
    requires
        fits(x, w),
        w < 64,
    ensures
        (x as nat) < vstd::arithmetic::power2::pow2(w),
{
    let k = w as u64;
    assert((x >> k) == 0 ==> x < (1u64 << k)) by (bit_vector)
        requires
            k < 64,
    ;
    vstd::bits::lemma_u64_pow2_no_overflow(w);
    vstd::bits::lemma_u64_shl_is_mul(1, k);
}

/// The exclusive or of two `w`-bit values is a `w`-bit value.
pub proof fn lemma_fits_xor(x: u64, y: u64, w: nat)
    requires
        fits(x, w),
        fits(y, w),
    ensures
        fits(x ^ y, w),
{
    if w < 64 {
        let k = w as u64;
        assert((x >> k) == 0 && (y >> k) == 0 ==> ((x ^ y) >> k) == 0) by (bit_vector);
    }
}

/// A value below `2^w` is a `w`-bit value.
pub proof fn lemma_lt_fits(x: u64, w: nat)
    requires
        w < 64,
        (x as nat) < vstd::arithmetic::power2::pow2(w),
    ensures
        fits(x, w),
{
    let k = w as u64;
    vstd::bits::lemma_u64_pow2_no_overflow(w);
    vstd::bits::lemma_u64_shl_is_mul(1, k);
    assert(x < (1u64 << k) ==> (x >> k) == 0) by (bit_vector)
        requires
            k < 64,
    ;
}

} // verus!

verus! {

/// Zero has no set bit, and stays zero when shifted.
pub proof fn lemma_zero_bits()
    by (bit_vector)
    ensures
        forall|k: u64| #![auto] k < 64 ==> !bit(0u64, k),
        forall|k: u64| #![auto] 0u64 >> k == 0,
{
}

/// A word with a set bit is not zero.
pub proof fn lemma_bit_nonzero()
    by (bit_vector)
    ensures
        forall|x: u64, k: u64| #![auto] bit(x, k) ==> x != 0,
{
}

} // verus!
