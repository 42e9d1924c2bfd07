//! How a code is cut into blocks, and the Hamming-distance facts that multi-index
//! hashing rests on.
use crate::bits::{bit, fits, low_mask, popcount, rank};
use vstd::arithmetic::div_mod::{lemma_div_is_ordered, lemma_div_plus_one};
use vstd::arithmetic::power2::pow2;
use vstd::prelude::*;

verus! {

/// Width of block `i` when `b` bits are cut into `m` blocks.
pub open spec fn width(i: int, b: nat, m: nat) -> nat {
    ((i + b) / (m as int)) as nat
}

/// Where block `i` starts: the widths of the blocks before it, summed.
pub open spec fn beg(i: int, b: nat, m: nat) -> nat
    decreases i,
{
    if i <= 0 {
        0
    } else {
        beg(i - 1, b, m) + width(i - 1, b, m)
    }
}

/// The value of block `i` of the word `c`: its bits `beg..beg + width`.
pub open spec fn chunk(c: u64, start: nat, w: nat) -> u64 {
    (c >> (start as u64)) & low_mask(w as u64)
}

/// Sum of `(x + i) / m` for `i < j`.
spec fn floor_sum(x: int, j: int, m: int) -> int
    decreases j,
{
    if j <= 0 {
        0
    } else {
        floor_sum(x, j - 1, m) + (x + j - 1) / m
    }
}

proof fn lemma_floor_sum_shift(x: int, j: int, m: int)
    requires
        0 <= j,
        0 < m,
    ensures
        floor_sum(x + 1, j, m) == floor_sum(x, j + 1, m) - x / m,
    decreases j,
{
    if j > 0 {
        lemma_floor_sum_shift(x, j - 1, m);
        assert(floor_sum(x + 1, j, m) == floor_sum(x + 1, j - 1, m) + (x + j) / m);
        assert(floor_sum(x, j + 1, m) == floor_sum(x, j, m) + (x + j) / m);
    } else {
        assert(floor_sum(x, 1, m) == floor_sum(x, 0, m) + x / m);
    }
}

proof fn lemma_floor_sum_zero(j: int, m: int)
    requires
        0 <= j <= m,
        0 < m,
    ensures
        floor_sum(0, j, m) == 0,
    decreases j,
{
    if j > 0 {
        lemma_floor_sum_zero(j - 1, m);
        assert((j - 1) / m == 0) by (nonlinear_arith)
            requires
                0 <= j - 1 < m,
        ;
    }
}

/// Hermite's identity: the `m` floors `(x + i) / m` sum to `x`.
proof fn lemma_hermite(x: int, m: int)
    requires
        0 <= x,
        0 < m,
    ensures
        floor_sum(x, m, m) == x,
    decreases x,
{
    if x == 0 {
        lemma_floor_sum_zero(m, m);
    } else {
        lemma_hermite(x - 1, m);
        lemma_floor_sum_shift(x - 1, m, m);
        lemma_div_plus_one(x - 1, m);
    }
}

proof fn lemma_beg_is_floor_sum(i: int, b: nat, m: nat)
    requires
        0 <= i,
        m > 0,
    ensures
        beg(i, b, m) == floor_sum(b as int, i, m as int),
    decreases i,
{
    if i > 0 {
        lemma_beg_is_floor_sum(i - 1, b, m);
    }
}

/// The blocks of a valid partition: each is 1 to 32 bits wide, and together they
/// cover the code exactly.
pub proof fn lemma_blocks(b: nat, m: nat)
    requires
        2 <= m <= b <= 64,
    ensures
        beg(m as int, b, m) == b,
        forall|i: int| 0 <= i < m ==> 1 <= #[trigger] width(i, b, m) <= 32,
        forall|i: int| 0 <= i <= m ==> #[trigger] beg(i, b, m) <= b,
        forall|i: int| 0 <= i < m ==> #[trigger] beg(i, b, m) + width(i, b, m) <= b,
        forall|i: int| 0 <= i < m ==> #[trigger] width(i, b, m) <= width(m - 1, b, m),
{
    lemma_beg_is_floor_sum(m as int, b, m);
    lemma_hermite(b as int, m as int);
    assert forall|i: int| 0 <= i < m implies 1 <= #[trigger] width(i, b, m) <= 32 by {
        lemma_div_is_ordered(m as int, i + b, m as int);
        lemma_div_is_ordered(i + b, 32 * m + m - 1, m as int);
        assert((32 * m + m - 1) / (m as int) == 32) by (nonlinear_arith)
            requires
                m >= 2,
        ;
        assert((m as int) / (m as int) == 1) by (nonlinear_arith)
            requires
                m >= 2,
        ;
    }
    assert forall|i: int| 0 <= i < m implies #[trigger] width(i, b, m) <= width(m - 1, b, m) by {
        lemma_div_is_ordered(i + b, m - 1 + b, m as int);
    }
    assert forall|i: int| 0 <= i <= m implies #[trigger] beg(i, b, m) + (beg(m as int, b, m) - beg(i, b, m)) == b
        && beg(i, b, m) <= beg(m as int, b, m) by {
        lemma_beg_mono(i, m as int, b, m);
    }
    assert forall|i: int| 0 <= i < m implies #[trigger] beg(i, b, m) + width(i, b, m) <= b by {
        lemma_beg_mono(i + 1, m as int, b, m);
    }
}

proof fn lemma_beg_mono(i: int, j: int, b: nat, m: nat)
    requires
        0 <= i <= j,
    ensures
        beg(i, b, m) <= beg(j, b, m),
    decreases j - i,
{
    if i < j {
        lemma_beg_mono(i, j - 1, b, m);
    }
}

/// A block value is below `2^w`.
pub proof fn lemma_chunk_bound(c: u64, start: nat, w: nat)
    requires
        1 <= w < 64,
    ensures
        chunk(c, start, w) < pow2(w),
{
    let x = c >> (start as u64);
    let k = w as u64;
    assert(x & (((1u64 << k) - 1) as u64) < (1u64 << k)) by (bit_vector)
        requires
            1 <= k < 64,
    ;
    vstd::bits::lemma_u64_pow2_no_overflow(w);
    vstd::bits::lemma_u64_shl_is_mul(1, k);
}

/// A mask of `w` low bits fits in `b` bits when `w <= b`.
pub proof fn lemma_mask_fits(w: nat, b: nat)
    requires
        1 <= w <= b,
        w < 64,
    ensures
        fits(low_mask(w as u64), b),
{
    if b < 64 {
        let k = w as u64;
        let bb = b as u64;
        assert((((1u64 << k) - 1) as u64) >> bb == 0) by (bit_vector)
            requires
                1 <= k <= bb,
                bb < 64,
        ;
    }
}

} // verus!

verus! {

/// Bits of a block value are the code's bits at the block's positions.
proof fn lemma_chunk_bit(x: u64, s: u64, w: u64, k: u64)
    by (bit_vector)
    requires
        s + w <= 64,
        1 <= w < 64,
        k < 64,
    ensures
        k < w ==> bit((x >> s) & (((1u64 << w) - 1) as u64), k) == bit(x, (s + k) as u64),
        k >= w ==> !bit((x >> s) & (((1u64 << w) - 1) as u64), k),
{
}

proof fn lemma_masked_xor(x: u64, y: u64, s: u64, m: u64)
    by (bit_vector)
    ensures
        ((x >> s) & m) ^ ((y >> s) & m) == ((x ^ y) >> s) & m,
{
}

/// The set bits of a block value are the code's set bits inside the block.
pub proof fn lemma_chunk_popcount(x: u64, s: nat, w: nat)
    requires
        1 <= w < 64,
        s + w <= 64,
    ensures
        popcount(chunk(x, s, w)) == rank(x, s + w) - rank(x, s),
{
    let y = chunk(x, s, w);
    assert(low_mask(w as u64) == ((1u64 << (w as u64)) - 1) as u64);
    assert forall|k: u64| w <= k < 64 implies !bit(y, k) by {
        lemma_chunk_bit(x, s as u64, w as u64, k);
    }
    crate::bits::lemma_rank_flat(y, w, 64);
    lemma_chunk_rank(x, s, w, w);
}

proof fn lemma_chunk_rank(x: u64, s: nat, w: nat, j: nat)
    requires
        1 <= w < 64,
        s + w <= 64,
        j <= w,
    ensures
        rank(chunk(x, s, w), j) + rank(x, s) == rank(x, s + j),
    decreases j,
{
    if j > 0 {
        lemma_chunk_rank(x, s, w, (j - 1) as nat);
        lemma_chunk_bit(x, s as u64, w as u64, (j - 1) as u64);
        assert(low_mask(w as u64) == ((1u64 << (w as u64)) - 1) as u64);
        assert(bit(chunk(x, s, w), (j - 1) as u64) == bit(x, (s + j - 1) as u64));
    }
}

/// Block values of an exclusive or are the exclusive or of block values.
pub proof fn lemma_chunk_xor(x: u64, y: u64, s: nat, w: nat)
    ensures
        chunk(x, s, w) ^ chunk(y, s, w) == chunk(x ^ y, s, w),
{
    lemma_masked_xor(x, y, s as u64, low_mask(w as u64));
}

/// Set bits of the first `j` blocks of `x`, block by block.
pub open spec fn block_sum(x: u64, b: nat, m: nat, j: int) -> nat
    decreases j,
{
    if j <= 0 {
        0
    } else {
        block_sum(x, b, m, j - 1) + popcount(chunk(x, beg(j - 1, b, m), width(j - 1, b, m)))
    }
}

proof fn lemma_block_sum(x: u64, b: nat, m: nat, j: int)
    requires
        2 <= m <= b <= 64,
        0 <= j <= m,
    ensures
        block_sum(x, b, m, j) == rank(x, beg(j, b, m)),
    decreases j,
{
    lemma_blocks(b, m);
    if j > 0 {
        lemma_block_sum(x, b, m, j - 1);
        lemma_chunk_popcount(x, beg(j - 1, b, m), width(j - 1, b, m));
    }
}

/// The Hamming distance of two codes is the sum, over the blocks, of the distances of
/// their block values.
pub proof fn lemma_distance_by_blocks(q: u64, c: u64, b: nat, m: nat)
    requires
        2 <= m <= b <= 64,
        fits(q, b),
        fits(c, b),
    ensures
        block_sum(q ^ c, b, m, m as int) == popcount(q ^ c),
{
    lemma_blocks(b, m);
    lemma_block_sum(q ^ c, b, m, m as int);
    crate::bits::lemma_fits_xor(q, c, b);
    crate::bits::lemma_popcount_fits(q ^ c, b);
}

proof fn lemma_block_sum_lower(x: u64, b: nat, m: nat, r: nat, j: int)
    requires
        2 <= m <= b <= 64,
        0 <= j <= m,
        forall|i: int| 0 <= i < m ==> (i + r + 1) / (m as int) <= #[trigger] popcount(chunk(x, beg(i, b, m), width(i, b, m))),
    ensures
        floor_sum((r + 1) as int, j, m as int) <= block_sum(x, b, m, j),
    decreases j,
{
    if j > 0 {
        lemma_block_sum_lower(x, b, m, r, j - 1);
        assert((r + 1 + j - 1) / (m as int) <= popcount(chunk(x, beg(j - 1, b, m), width(j - 1, b, m))));
    }
}

/// Pigeonhole principle of multi-index hashing: if two codes differ in at most `r` bits,
/// some block `i` with `i + r + 1 >= m` differs in at most `(i + r + 1 - m) / m` bits.
pub proof fn lemma_pigeonhole(q: u64, c: u64, b: nat, m: nat, r: nat)
    requires
        2 <= m <= b <= 64,
        fits(q, b),
        fits(c, b),
        popcount(q ^ c) <= r,
    ensures
        exists|i: int|
            0 <= i < m && i + r + 1 >= m && #[trigger] popcount(
                chunk(q, beg(i, b, m), width(i, b, m)) ^ chunk(c, beg(i, b, m), width(i, b, m)),
            ) <= (i + r + 1 - m) / (m as int),
{
    let x = q ^ c;
    assert forall|i: int| 0 <= i < m implies #[trigger] chunk(q, beg(i, b, m), width(i, b, m)) ^ chunk(
        c,
        beg(i, b, m),
        width(i, b, m),
    ) == chunk(x, beg(i, b, m), width(i, b, m)) by {
        lemma_chunk_xor(q, c, beg(i, b, m), width(i, b, m));
    }
    if !exists|i: int|
        0 <= i < m && i + r + 1 >= m && #[trigger] popcount(
            chunk(q, beg(i, b, m), width(i, b, m)) ^ chunk(c, beg(i, b, m), width(i, b, m)),
        ) <= (i + r + 1 - m) / (m as int) {
        assert forall|i: int| 0 <= i < m implies (i + r + 1) / (m as int) <= #[trigger] popcount(
            chunk(x, beg(i, b, m), width(i, b, m)),
        ) by {
            assert(chunk(q, beg(i, b, m), width(i, b, m)) ^ chunk(c, beg(i, b, m), width(i, b, m)) == chunk(
                x,
                beg(i, b, m),
                width(i, b, m),
            ));
            if i + r + 1 >= m {
                lemma_div_plus_one(i + r + 1 - m, m as int);
            } else {
                assert((i + r + 1) / (m as int) == 0) by (nonlinear_arith)
                    requires
                        0 <= i + r + 1 < m,
                ;
            }
        }
        lemma_block_sum_lower(x, b, m, r, m as int);
        lemma_hermite((r + 1) as int, m as int);
        lemma_distance_by_blocks(q, c, b, m);
    }
}

} // verus!

verus! {

proof fn lemma_sweep_sum(x: u64, b: nat, m: nat, r: nat, j: nat, t: int)
    requires
        2 <= m <= b <= 64,
        j <= m,
        0 <= t <= m,
        forall|i: int| 0 <= i < j ==> #[trigger] popcount(chunk(x, beg(i, b, m), width(i, b, m))) >= r + 1,
        forall|i: int| j <= i < m ==> #[trigger] popcount(chunk(x, beg(i, b, m), width(i, b, m))) >= r,
    ensures
        block_sum(x, b, m, t) >= t * r + if t < j { t } else { j as int },
    decreases t,
{
    if t > 0 {
        lemma_sweep_sum(x, b, m, r, j, t - 1);
        assert(t * r == (t - 1) * r + r) by (nonlinear_arith);
        if t - 1 < j {
            assert(popcount(chunk(x, beg(t - 1, b, m), width(t - 1, b, m))) >= r + 1);
        } else {
            assert(popcount(chunk(x, beg(t - 1, b, m), width(t - 1, b, m))) >= r);
        }
        assert(block_sum(x, b, m, t) == block_sum(x, b, m, t - 1) + popcount(chunk(x, beg(t - 1, b, m), width(t - 1, b, m))));
        assert(block_sum(x, b, m, t - 1) >= (t - 1) * r + if t - 1 < j { t - 1 } else { j as int });
    } else {
        assert(t * r == 0) by (nonlinear_arith)
            requires
                t == 0,
        ;
    }
}

/// After every block `i < j` was searched up to `r` bits and every other block up to
/// `r - 1` bits, a code not yet met differs from the query in at least `r * m + j` bits.
pub proof fn lemma_pigeonhole_sweep(q: u64, c: u64, b: nat, m: nat, r: nat, j: nat)
    requires
        2 <= m <= b <= 64,
        fits(q, b),
        fits(c, b),
        j <= m,
        forall|i: int|
            0 <= i < j ==> #[trigger] popcount(
                chunk(q, beg(i, b, m), width(i, b, m)) ^ chunk(c, beg(i, b, m), width(i, b, m)),
            ) >= r + 1,
        forall|i: int|
            j <= i < m ==> #[trigger] popcount(
                chunk(q, beg(i, b, m), width(i, b, m)) ^ chunk(c, beg(i, b, m), width(i, b, m)),
            ) >= r,
    ensures
        popcount(q ^ c) >= r * m + j,
{
    let x = q ^ c;
    assert forall|i: int| 0 <= i < m implies #[trigger] chunk(q, beg(i, b, m), width(i, b, m)) ^ chunk(
        c,
        beg(i, b, m),
        width(i, b, m),
    ) == chunk(x, beg(i, b, m), width(i, b, m)) by {
        lemma_chunk_xor(q, c, beg(i, b, m), width(i, b, m));
    }
    assert forall|i: int| 0 <= i < j implies #[trigger] popcount(chunk(x, beg(i, b, m), width(i, b, m))) >= r + 1 by {
        assert(popcount(chunk(q, beg(i, b, m), width(i, b, m)) ^ chunk(c, beg(i, b, m), width(i, b, m))) >= r + 1);
    }
    assert forall|i: int| j <= i < m implies #[trigger] popcount(chunk(x, beg(i, b, m), width(i, b, m))) >= r by {
        assert(popcount(chunk(q, beg(i, b, m), width(i, b, m)) ^ chunk(c, beg(i, b, m), width(i, b, m))) >= r);
    }
    lemma_sweep_sum(x, b, m, r, j, m as int);
    lemma_distance_by_blocks(q, c, b, m);
    assert(m * r == r * m) by (nonlinear_arith);
}

} // verus!
