//! The multi-index: one sparse table per block of the codes.
use crate::bits::{fits, low_mask, popcount};
use crate::blocks::{beg, chunk, lemma_blocks, lemma_chunk_bound, lemma_mask_fits, width};
use crate::codeint::{hamdist, spec_hamdist, CodeInt};
use crate::ls::{ids_within, spec_range_search};
use crate::siggen::{colex_lt, is_comb, lemma_colex_asym, lemma_colex_total, lemma_comb_of, lemma_pattern_words, lemma_word_fits, positions, word_of, SigGenerator64};
use crate::codec::{get_le, le_bytes, put_le};
use crate::error::Error;
use crate::sparsehash::{empty_lists, lemma_prefix_update, lemma_prefix_zero, prefix, Table};
use vstd::arithmetic::power::pow;
use vstd::arithmetic::power2::pow2;
use vstd::prelude::*;

verus! {

/// Ids among the first `n` codes whose block (starting at `start`, `w` bits wide) has
/// the value `v`, in ascending order.
pub open spec fn ids_with<T: CodeInt>(codes: Seq<T>, start: nat, w: nat, v: int, n: nat) -> Seq<u32>
    decreases n,
{
    if n == 0 {
        Seq::empty()
    } else {
        let rest = ids_with(codes, start, w, v, (n - 1) as nat);
        if chunk(codes[n - 1].spec_word(), start, w) == v {
            rest.push((n - 1) as u32)
        } else {
            rest
        }
    }
}

proof fn lemma_ids_with_len<T: CodeInt>(codes: Seq<T>, start: nat, w: nat, v: int, k: nat, n: nat)
    requires
        k <= n,
    ensures
        ids_with(codes, start, w, v, k).len() <= ids_with(codes, start, w, v, n).len(),
    decreases n - k,
{
    if k < n {
        lemma_ids_with_len(codes, start, w, v, k, (n - 1) as nat);
    }
}

/// The bits in which block `i` of `c` differs from block `i` of `q`, with `m` blocks.
pub open spec fn block_x<T: CodeInt>(q: T, c: T, i: int, m: nat) -> u64 {
    let b = T::spec_dimensions();
    chunk(q.spec_word(), beg(i, b, m), width(i, b, m)) ^ chunk(c.spec_word(), beg(i, b, m), width(i, b, m))
}

/// In the search of block `i`, id `u` comes before id `v`: its difference pattern is a
/// smaller word, or the same one with a smaller id.
pub open spec fn probe_lt<T: CodeInt>(codes: Seq<T>, q: T, i: int, m: nat, u: u32, v: u32) -> bool {
    let xu = block_x(q, codes[u as int], i, m);
    let xv = block_x(q, codes[v as int], i, m);
    xu < xv || (xu == xv && u < v)
}

proof fn lemma_xor_cancel2(a: u64, b: u64)
    ensures
        a ^ (b ^ a) == b,
{
    assert forall|k: u64| k < 64 implies crate::bits::bit(a ^ (b ^ a), k) == crate::bits::bit(b, k) by {
        crate::bits::lemma_bit_xor(a, b ^ a, k);
        crate::bits::lemma_bit_xor(b, a, k);
    }
    crate::bits::lemma_bit_ext(a ^ (b ^ a), b);
}

/// How many bits block `i` of `c` differs in from block `i` of `q`, with `m` blocks.
pub open spec fn block_dist<T: CodeInt>(q: T, c: T, i: int, m: nat) -> nat {
    let b = T::spec_dimensions();
    popcount(chunk(q.spec_word(), beg(i, b, m), width(i, b, m)) ^ chunk(c.spec_word(), beg(i, b, m), width(i, b, m)))
}

proof fn lemma_xor_cancel(a: u64, b: u64)
    ensures
        (a ^ b) ^ a == b,
{
    assert forall|k: u64| k < 64 implies crate::bits::bit((a ^ b) ^ a, k) == crate::bits::bit(b, k) by {
        crate::bits::lemma_bit_xor(a ^ b, a, k);
        crate::bits::lemma_bit_xor(a, b, k);
    }
    crate::bits::lemma_bit_ext((a ^ b) ^ a, b);
}

proof fn lemma_ids_with_has<T: CodeInt>(codes: Seq<T>, start: nat, w: nat, v: int, n: nat, id: int)
    requires
        0 <= id < n,
        n <= u32::MAX + 1,
        chunk(codes[id].spec_word(), start, w) == v,
    ensures
        ids_with(codes, start, w, v, n).contains(id as u32),
    decreases n,
{
    let all = ids_with(codes, start, w, v, n);
    if id < n - 1 {
        lemma_ids_with_has(codes, start, w, v, (n - 1) as nat, id);
        let rest = ids_with(codes, start, w, v, (n - 1) as nat);
        let j = choose|j: int| 0 <= j < rest.len() && rest[j] == id as u32;
        assert(all[j] == id as u32);
    } else {
        assert(all[all.len() - 1] == id as u32);
    }
}

/// A strictly ascending list of exactly the ids within `radius` is the linear scan's answer.
proof fn lemma_ascending_unique<T: CodeInt>(s: Seq<u32>, codes: Seq<T>, q: T, radius: nat, n: nat)
    requires
        strictly_ascending(s),
        n <= codes.len(),
        n <= u32::MAX + 1,
        forall|j: int| 0 <= j < s.len() ==> #[trigger] s[j] < n && spec_hamdist(codes[s[j] as int], q) <= radius,
        forall|id: int| 0 <= id < n && spec_hamdist(codes[id], q) <= radius ==> s.contains(id as u32),
    ensures
        s == ids_within(codes, q, radius, n),
    decreases n,
{
    if n == 0 {
        if s.len() > 0 {
            assert(s[0] < 0);
        }
        assert(s =~= Seq::<u32>::empty());
    } else {
        let last = (n - 1) as u32;
        crate::codeint::lemma_hamdist_bound(codes[n - 1], q);
        if spec_hamdist(codes[n - 1], q) <= radius {
            assert(s.contains(last));
            let p = choose|p: int| 0 <= p < s.len() && s[p] == last;
            if p < s.len() - 1 {
                assert(s[p] < s[s.len() - 1]);
            }
            let d = s.drop_last();
            assert forall|id: int| 0 <= id < n - 1 && spec_hamdist(codes[id], q) <= radius implies d.contains(id as u32) by {
                let p2 = choose|p2: int| 0 <= p2 < s.len() && s[p2] == id as u32;
                assert(p2 != s.len() - 1);
                assert(d[p2] == id as u32);
            }
            assert forall|j: int| 0 <= j < d.len() implies #[trigger] d[j] < n - 1 && spec_hamdist(codes[d[j] as int], q)
                <= radius by {
                assert(s[j] < s[s.len() - 1]);
                assert(d[j] == s[j]);
            }
            lemma_ascending_unique(d, codes, q, radius, (n - 1) as nat);
            assert(s =~= d.push(last));
        } else {
            assert forall|j: int| 0 <= j < s.len() implies #[trigger] s[j] < n - 1 && spec_hamdist(codes[s[j] as int], q)
                <= radius by {
                if s[j] == last {
                }
            }
            lemma_ascending_unique(s, codes, q, radius, (n - 1) as nat);
        }
    }
}

proof fn lemma_ids_with_ascending<T: CodeInt>(codes: Seq<T>, start: nat, w: nat, v: int, n: nat)
    requires
        n <= u32::MAX + 1,
    ensures
        strictly_ascending(ids_with(codes, start, w, v, n)),
        forall|j: int| 0 <= j < ids_with(codes, start, w, v, n).len() ==> #[trigger] ids_with(codes, start, w, v, n)[j] < n,
    decreases n,
{
    if n > 0 {
        lemma_ids_with_ascending(codes, start, w, v, (n - 1) as nat);
        let all = ids_with(codes, start, w, v, n);
        let rest = ids_with(codes, start, w, v, (n - 1) as nat);
        assert forall|j: int| 0 <= j < all.len() implies #[trigger] all[j] < n by {
            if j < rest.len() {
                assert(all[j] == rest[j]);
            }
        }
        assert forall|a: int, b: int| 0 <= a < b < all.len() implies all[a] < all[b] by {
            if b < rest.len() {
                assert(all[a] == rest[a] && all[b] == rest[b]);
            } else {
                assert(all[a] == rest[a]);
            }
        }
    }
}

proof fn lemma_ids_with_member<T: CodeInt>(codes: Seq<T>, start: nat, w: nat, v: int, n: nat, x: u32)
    requires
        ids_with(codes, start, w, v, n).contains(x),
        n <= u32::MAX + 1,
    ensures
        x < n,
        chunk(codes[x as int].spec_word(), start, w) == v,
    decreases n,
{
    let all = ids_with(codes, start, w, v, n);
    let rest = ids_with(codes, start, w, v, (n - 1) as nat);
    let p = choose|p: int| 0 <= p < all.len() && all[p] == x;
    if p < rest.len() {
        assert(rest[p] == x);
        lemma_ids_with_member(codes, start, w, v, (n - 1) as nat, x);
    }
}

/// The smallest block distance of `c` from `q` over the blocks below `j` (`j >= 1`).
pub open spec fn min_block_dist<T: CodeInt>(q: T, c: T, m: nat, j: int) -> nat
    decreases j,
{
    if j <= 1 {
        block_dist(q, c, 0, m)
    } else {
        let a = min_block_dist(q, c, m, j - 1);
        let d = block_dist(q, c, j - 1, m);
        if d < a {
            d
        } else {
            a
        }
    }
}

/// The first block, from `j` on, where `c` is `r` bits from `q` (`m` if none).
pub open spec fn first_block<T: CodeInt>(q: T, c: T, m: nat, r: nat, j: int) -> int
    decreases m - j,
{
    if j >= m {
        m as int
    } else if block_dist(q, c, j, m) == r {
        j
    } else {
        first_block(q, c, m, r, j + 1)
    }
}

/// The sweep step at which code `c` is first met: the radius `min_block_dist` and the
/// first block searched at that radius that holds it.
pub open spec fn step_r<T: CodeInt>(q: T, c: T, m: nat) -> nat {
    min_block_dist(q, c, m, m as int)
}

pub open spec fn step_b<T: CodeInt>(q: T, c: T, m: nat) -> int {
    first_block(q, c, m, step_r(q, c, m), 0)
}

/// Code `c` is met before the step searching block `b` at radius `r`.
pub open spec fn met_before<T: CodeInt>(q: T, c: T, m: nat, r: int, b: int) -> bool {
    step_r(q, c, m) < r || (step_r(q, c, m) == r && step_b(q, c, m) < b)
}

/// The order in which the sweep first meets ids: by step, then, within the block of that
/// step, by difference pattern and id.
pub open spec fn obs_lt<T: CodeInt>(codes: Seq<T>, q: T, m: nat, u: u32, v: u32) -> bool {
    let ru = step_r(q, codes[u as int], m);
    let rv = step_r(q, codes[v as int], m);
    let bu = step_b(q, codes[u as int], m);
    let bv = step_b(q, codes[v as int], m);
    ru < rv || (ru == rv && bu < bv) || (ru == rv && bu == bv && probe_lt(codes, q, bu, m, u, v))
}

proof fn lemma_min_block_dist<T: CodeInt>(q: T, c: T, m: nat, j: int)
    requires
        1 <= j <= m,
    ensures
        forall|i: int| 0 <= i < j ==> min_block_dist(q, c, m, j) <= #[trigger] block_dist(q, c, i, m),
        exists|i: int| 0 <= i < j && min_block_dist(q, c, m, j) == #[trigger] block_dist(q, c, i, m),
    decreases j,
{
    if j > 1 {
        lemma_min_block_dist(q, c, m, j - 1);
        let a = min_block_dist(q, c, m, j - 1);
        let d = block_dist(q, c, j - 1, m);
        if d < a {
            assert(0 <= j - 1 < j && min_block_dist(q, c, m, j) == block_dist(q, c, j - 1, m));
        } else {
            let i = choose|i: int| 0 <= i < j - 1 && a == #[trigger] block_dist(q, c, i, m);
            assert(0 <= i < j && min_block_dist(q, c, m, j) == block_dist(q, c, i, m));
        }
    } else {
        assert(0 <= 0 < j && min_block_dist(q, c, m, j) == block_dist(q, c, 0, m));
    }
}

proof fn lemma_first_block<T: CodeInt>(q: T, c: T, m: nat, r: nat, j: int, i: int)
    requires
        0 <= j <= i < m,
        block_dist(q, c, i, m) == r,
    ensures
        j <= first_block(q, c, m, r, j) <= i,
        block_dist(q, c, first_block(q, c, m, r, j), m) == r,
        forall|l: int| j <= l < first_block(q, c, m, r, j) ==> #[trigger] block_dist(q, c, l, m) != r,
    decreases m - j,
{
    if block_dist(q, c, j, m) != r {
        lemma_first_block(q, c, m, r, j + 1, i);
    }
}

/// Facts about the step at which a code is met.
proof fn lemma_step<T: CodeInt>(q: T, c: T, m: nat)
    requires
        m >= 1,
    ensures
        0 <= step_b(q, c, m) < m,
        block_dist(q, c, step_b(q, c, m), m) == step_r(q, c, m),
        forall|i: int| 0 <= i < m ==> step_r(q, c, m) <= #[trigger] block_dist(q, c, i, m),
        forall|i: int| 0 <= i < step_b(q, c, m) ==> #[trigger] block_dist(q, c, i, m) != step_r(q, c, m),
{
    lemma_min_block_dist(q, c, m, m as int);
    let i = choose|i: int| 0 <= i < m && step_r(q, c, m) == #[trigger] block_dist(q, c, i, m);
    lemma_first_block(q, c, m, step_r(q, c, m), 0, i);
}

/// A code is met before step `(r, b)` exactly when some block `i` is less than `r` bits
/// away, or exactly `r` bits with `i < b`.
proof fn lemma_met_before<T: CodeInt>(q: T, c: T, m: nat, r: int, b: int)
    requires
        m >= 1,
        0 <= b <= m,
    ensures
        met_before(q, c, m, r, b) <==> exists|i: int|
            0 <= i < m && (#[trigger] block_dist(q, c, i, m) < r || (block_dist(q, c, i, m) == r && i < b)),
{
    lemma_step(q, c, m);
    if met_before(q, c, m, r, b) {
        let i = step_b(q, c, m);
        assert(0 <= i < m && (block_dist(q, c, i, m) < r || (block_dist(q, c, i, m) == r && i < b)));
    }
    if exists|i: int| 0 <= i < m && (#[trigger] block_dist(q, c, i, m) < r || (block_dist(q, c, i, m) == r && i < b)) {
        let i = choose|i: int| 0 <= i < m && (#[trigger] block_dist(q, c, i, m) < r || (block_dist(q, c, i, m) == r && i < b));
        if block_dist(q, c, i, m) == r && step_r(q, c, m) == r {
            if step_b(q, c, m) > i {
                assert(block_dist(q, c, i, m) != step_r(q, c, m));
            }
        }
    }
}

/// Each id is smaller than the next.
pub open spec fn strictly_ascending(s: Seq<u32>) -> bool {
    forall|i: int, j: int| 0 <= i < j < s.len() ==> s[i] < s[j]
}

/// Relies on `slice::sort_unstable`: it sorts the ids in ascending order, keeping each id
/// as many times as it occurs.
#[verifier::external_body]
fn sort_ids(v: &mut Vec<u32>)
    ensures
        final(v)@.to_multiset() == old(v)@.to_multiset(),
        final(v)@.len() == old(v)@.len(),
        forall|i: int, j: int| 0 <= i < j < final(v)@.len() ==> final(v)@[i] <= final(v)@[j],
{
    v.sort_unstable();
}

/// Number of set flags.
pub open spec fn count_true(s: Seq<bool>) -> nat
    decreases s.len(),
{
    if s.len() == 0 {
        0
    } else {
        count_true(s.drop_last()) + if s.last() {
            1nat
        } else {
            0nat
        }
    }
}

proof fn lemma_count_true_set(s: Seq<bool>, i: int)
    requires
        0 <= i < s.len(),
        !s[i],
    ensures
        count_true(s.update(i, true)) == count_true(s) + 1,
    decreases s.len(),
{
    if i < s.len() - 1 {
        lemma_count_true_set(s.drop_last(), i);
        assert(s.update(i, true).drop_last() =~= s.drop_last().update(i, true));
    } else {
        assert(s.update(i, true).drop_last() =~= s.drop_last());
    }
}

proof fn lemma_count_true_zero(s: Seq<bool>)
    requires
        forall|v: int| 0 <= v < s.len() ==> !#[trigger] s[v],
    ensures
        count_true(s) == 0,
    decreases s.len(),
{
    if s.len() > 0 {
        lemma_count_true_zero(s.drop_last());
    }
}

proof fn lemma_count_true_le(s: Seq<bool>)
    ensures
        count_true(s) <= s.len(),
    decreases s.len(),
{
    if s.len() > 0 {
        lemma_count_true_le(s.drop_last());
    }
}

/// The ids are listed by non-decreasing Hamming distance to `q`.
pub open spec fn by_distance<T: CodeInt>(codes: Seq<T>, q: T, s: Seq<u32>) -> bool {
    forall|i: int, j: int|
        0 <= i < j < s.len() ==> spec_hamdist(codes[s[i] as int], q) <= spec_hamdist(codes[s[j] as int], q)
}

/// `c` counts the odd exponents `e` with `n^e < 4^b`, that is `c` is the integer nearest to
/// `b / log2(n)` (for code widths of 8 to 64 bits no exact half arises), capped at `b`.
pub open spec fn nearest_blocks(n: nat, b: nat, c: nat) -> bool {
    &&& c <= b
    &&& c >= 1 ==> pow(n as int, (2 * c - 1) as nat) < pow(4, b)
    &&& c < b ==> pow(n as int, (2 * c + 1) as nat) >= pow(4, b)
}

/// The number of blocks `new` chooses for `n` codes of `b` bits.
pub open spec fn auto_m(n: nat, b: nat) -> nat {
    if n <= 1 {
        b
    } else {
        let c = choose|c: nat| nearest_blocks(n, b, c);
        if c < 2 {
            2
        } else {
            c
        }
    }
}

/// At most one count meets `nearest_blocks`.
proof fn lemma_nearest_unique(n: nat, b: nat, c1: nat, c2: nat)
    requires
        n >= 2,
        nearest_blocks(n, b, c1),
        nearest_blocks(n, b, c2),
    ensures
        c1 == c2,
{
    if c1 < c2 {
        vstd::arithmetic::power::lemma_pow_increases(n, (2 * c1 + 1) as nat, (2 * c2 - 1) as nat);
    } else if c2 < c1 {
        vstd::arithmetic::power::lemma_pow_increases(n, (2 * c2 + 1) as nat, (2 * c1 - 1) as nat);
    }
}

proof fn lemma_pow4_64()
    ensures
        pow(4, 64) == 0x1_0000_0000_0000_0000_0000_0000_0000_0000,
{
    vstd::arithmetic::power::lemma_pow1(4);
    vstd::arithmetic::power::lemma_pow_adds(4, 1, 1);
    vstd::arithmetic::power::lemma_pow_adds(4, 2, 2);
    vstd::arithmetic::power::lemma_pow_adds(4, 4, 4);
    vstd::arithmetic::power::lemma_pow_adds(4, 8, 8);
    vstd::arithmetic::power::lemma_pow_adds(4, 16, 16);
    vstd::arithmetic::power::lemma_pow_adds(4, 32, 32);
    assert(pow(4, 2) == 16);
    assert(pow(4, 4) == pow(4, 2) * pow(4, 2));
    assert(pow(4, 4) == 256) by (nonlinear_arith)
        requires
            pow(4, 2) == 16,
            pow(4, 4) == pow(4, 2) * pow(4, 2),
    ;
    assert(pow(4, 8) == pow(4, 4) * pow(4, 4));
    assert(pow(4, 8) == 65536) by (nonlinear_arith)
        requires
            pow(4, 4) == 256,
            pow(4, 8) == pow(4, 4) * pow(4, 4),
    ;
    assert(pow(4, 16) == pow(4, 8) * pow(4, 8));
    assert(pow(4, 16) == 0x1_0000_0000) by (nonlinear_arith)
        requires
            pow(4, 8) == 65536,
            pow(4, 16) == pow(4, 8) * pow(4, 8),
    ;
    assert(pow(4, 32) == pow(4, 16) * pow(4, 16));
    assert(pow(4, 32) == 0x1_0000_0000_0000_0000) by (nonlinear_arith)
        requires
            pow(4, 16) == 0x1_0000_0000,
            pow(4, 32) == pow(4, 16) * pow(4, 16),
    ;
    assert(pow(4, 64) == pow(4, 32) * pow(4, 32));
}

/// The number of blocks for `n` codes of `dims` bits: the integer nearest to
/// `dims / log2(n)`, kept within `[2, dims]`; `dims` for a single code.
fn auto_blocks(n: usize, dims: usize) -> (m: usize)
    requires
        1 <= n <= u32::MAX,
        2 <= dims <= 64,
    ensures
        2 <= m <= dims,
        n == 1 ==> m == dims,
        n >= 2 ==> exists|c: nat| nearest_blocks(n as nat, dims as nat, c) && m == if c < 2 { 2 } else { c },
        m == auto_m(n as nat, dims as nat),
{
    if n == 1 {
        return dims;
    }
    // limit = 4^dims - 1
    let mut limit: u128 = 0;
    let mut i: usize = 0;
    proof {
        lemma_pow4_64();
        vstd::arithmetic::power::lemma_pow0(4);
    }
    while i < dims
        invariant
            i <= dims <= 64,
            limit as int == pow(4, i as nat) - 1,
            pow(4, 64) == 0x1_0000_0000_0000_0000_0000_0000_0000_0000,
        decreases dims - i,
    {
        proof {
            vstd::arithmetic::power::lemma_pow_increases(4, (i + 1) as nat, 64);
            vstd::arithmetic::power::lemma_pow_adds(4, i as nat, 1);
            vstd::arithmetic::power::lemma_pow1(4);
        }
        limit = 4 * limit + 3;
        i += 1;
    }
    let nn = n as u128;
    assert(nn * nn <= 0xffff_ffff_ffff_ffff_ffff_ffffu128) by (nonlinear_arith)
        requires
            nn <= 0xffff_ffffu128,
    ;
    let sq = nn * nn;
    assert(sq >= 4) by (nonlinear_arith)
        requires
            nn >= 2,
            sq == nn * nn,
    ;
    let ghost ni = n as int;
    proof {
        vstd::arithmetic::power::lemma_pow1(ni);
    }
    let mut v: u128 = nn;
    let mut count: usize = 0;
    proof {
        vstd::arithmetic::power::lemma_pow_adds(ni, 1, 1);
        assert(pow(ni, 2) == ni * ni);
    }
    while v <= limit && count < dims
        invariant_except_break
            v as int == pow(ni, (2 * count + 1) as nat),
        invariant
            count <= dims,
            sq >= 4,
            sq as int == ni * ni,
            pow(ni, 2) == ni * ni,
            ni >= 2,
            ni == n as int,
            limit as int == pow(4, dims as nat) - 1,
            count >= 1 ==> pow(ni, (2 * count - 1) as nat) < pow(4, dims as nat),
        ensures
            nearest_blocks(n as nat, dims as nat, count as nat),
        decreases dims - count,
    {
        let ghost c0 = count as int;
        proof {
            assert(pow(ni, (2 * c0 + 1) as nat) < pow(4, dims as nat));
            vstd::arithmetic::power::lemma_pow_adds(ni, (2 * c0 + 1) as nat, 2);
            assert((2 * c0 + 1) as nat + 2 == (2 * c0 + 3) as nat);
            assert(pow(ni, (2 * c0 + 3) as nat) == v * sq);
        }
        count += 1;
        if v > limit / sq {
            proof {
                assert(v * sq > limit) by (nonlinear_arith)
                    requires
                        v > limit / sq,
                        sq > 0,
                ;
                assert((2 * count + 1) as nat == (2 * c0 + 3) as nat);
                assert((2 * count - 1) as nat == (2 * c0 + 1) as nat);
                assert(pow(ni, (2 * count + 1) as nat) >= pow(4, dims as nat));
            }
            break;
        }
        assert(v * sq <= limit) by (nonlinear_arith)
            requires
                v <= limit / sq,
                sq > 0,
        ;
        v = v * sq;
        proof {
            assert((2 * count + 1) as nat == (2 * c0 + 3) as nat);
            assert((2 * count - 1) as nat == (2 * c0 + 1) as nat);
        }
    }
    proof {
        let c = choose|c: nat| nearest_blocks(n as nat, dims as nat, c);
        lemma_nearest_unique(n as nat, dims as nat, c, count as nat);
    }
    if count < 2 {
        2
    } else {
        count
    }
}

pub open spec fn min_nat(a: nat, b: nat) -> nat {
    if a < b { a } else { b }
}

pub open spec fn min_int(a: int, b: int) -> int {
    if a < b { a } else { b }
}

/// Sum of the first `t` counts.
pub open spec fn csum(c: Seq<usize>, t: int) -> nat
    decreases t,
{
    if t <= 0 {
        0
    } else {
        csum(c, t - 1) + c[t - 1] as nat
    }
}

/// Total length of the first `t` rows.
pub open spec fn rsum(rows: Seq<Vec<u32>>, t: int) -> nat
    decreases t,
{
    if t <= 0 {
        0
    } else {
        rsum(rows, t - 1) + rows[t - 1]@.len()
    }
}

/// The state of a top-`k` sweep: `checked` flags the ids met, listed in `touched`;
/// `counts[t]` is how many met ids lie at distance `t`; `rows[t]` holds the first `k`
/// of them, and all of them while there are at most `k`.
pub open spec fn topk_state<T: CodeInt>(
    codes: Seq<T>,
    q: T,
    k: nat,
    dims: nat,
    checked: Seq<bool>,
    touched: Seq<u32>,
    counts: Seq<usize>,
    rows: Seq<Vec<u32>>,
) -> bool {
    let n = codes.len();
    &&& checked.len() == n
    &&& n <= u32::MAX
    &&& count_true(checked) == touched.len()
    &&& forall|j: int| 0 <= j < touched.len() ==> #[trigger] touched[j] < n
    &&& forall|v: int| 0 <= v < n ==> (#[trigger] checked[v] <==> touched.contains(v as u32))
    &&& counts.len() == dims + 1
    &&& rows.len() == dims + 1
    &&& csum(counts, dims as int + 1) == touched.len()
    &&& forall|x: int| 0 <= x <= dims ==> #[trigger] counts[x] <= touched.len()
    &&& forall|x: int| 0 <= x <= dims ==> #[trigger] rows[x]@.len() == min_nat(counts[x] as nat, k)
    &&& forall|x: int| 0 <= x <= dims ==> (#[trigger] rows[x]@).no_duplicates()
    &&& forall|x: int, j: int|
        0 <= x <= dims && 0 <= j < rows[x]@.len() ==> (#[trigger] rows[x]@[j]) < n && checked[rows[x]@[j] as int]
            && spec_hamdist(codes[rows[x]@[j] as int], q) == x
    &&& forall|u: int|
        0 <= u < n && checked[u] && counts[spec_hamdist(codes[u], q) as int] <= k ==> #[trigger] rows[spec_hamdist(
            codes[u],
            q,
        ) as int]@.contains(u as u32)
}

/// Each row lists its ids in the order they were met, and holds every met id of its
/// distance that was met before one of them.
pub open spec fn rows_ordered<T: CodeInt>(codes: Seq<T>, q: T, m: nat, dims: nat, checked: Seq<bool>, rows: Seq<Vec<u32>>) -> bool {
    &&& forall|x: int, i: int, j: int|
        0 <= x <= dims && 0 <= i < j < rows[x]@.len() ==> obs_lt(codes, q, m, #[trigger] rows[x]@[i], #[trigger] rows[x]@[j])
    &&& forall|x: int, j: int, u: int|
        #![trigger rows[x]@[j], codes[u]]
        0 <= x <= dims && 0 <= j < rows[x]@.len() && 0 <= u < codes.len() && checked[u] && spec_hamdist(codes[u], q) == x
            && obs_lt(codes, q, m, u as u32, rows[x]@[j]) ==> rows[x]@.contains(u as u32)
}

/// Every id whose block `i` is less than `r` bits from the query's block, or exactly `r`
/// bits for `i < b`, has been checked.
pub open spec fn explored<T: CodeInt>(codes: Seq<T>, q: T, m: nat, r: int, b: int, checked: Seq<bool>) -> bool {
    forall|u: int, i: int|
        0 <= u < codes.len() && 0 <= i < m && (#[trigger] block_dist(q, codes[u], i, m) < r || (block_dist(q, codes[u], i, m)
            == r && i < b)) ==> checked[u]
}

/// Every id within `dstar` bits of the query has been checked, and they number at least `k`.
pub open spec fn summary<T: CodeInt>(
    codes: Seq<T>,
    q: T,
    k: nat,
    dstar: int,
    dims: nat,
    checked: Seq<bool>,
    counts: Seq<usize>,
) -> bool {
    &&& -1 <= dstar <= dims
    &&& forall|u: int| 0 <= u < codes.len() && spec_hamdist(codes[u], q) <= dstar ==> #[trigger] checked[u]
    &&& csum(counts, dstar + 1) >= k
}

/// The answer to a top-`topk` query: the `min(topk, N)` ids that come first when ids are
/// ordered by Hamming distance to `q`, and ids at equal distance by the order in which
/// the sweep over `m` blocks meets them; listed in that order.
pub open spec fn topk_result<T: CodeInt>(codes: Seq<T>, q: T, m: nat, topk: nat, s: Seq<u32>) -> bool {
    &&& s.len() == min_nat(topk, codes.len())
    &&& s.no_duplicates()
    &&& forall|j: int| 0 <= j < s.len() ==> #[trigger] s[j] < codes.len()
    &&& by_distance(codes, q, s)
    &&& forall|i: int, j: int|
        0 <= i < j < s.len() && spec_hamdist(codes[s[i] as int], q) == spec_hamdist(codes[s[j] as int], q) ==> obs_lt(
            codes,
            q,
            m,
            #[trigger] s[i],
            #[trigger] s[j],
        )
    &&& forall|j: int, u: int|
        #![trigger s[j], codes[u]]
        0 <= j < s.len() && 0 <= u < codes.len() && spec_hamdist(codes[u], q) < spec_hamdist(codes[s[j] as int], q)
            ==> s.contains(u as u32)
    &&& forall|j: int, u: int|
        #![trigger s[j], codes[u]]
        0 <= j < s.len() && 0 <= u < codes.len() && spec_hamdist(codes[u], q) == spec_hamdist(codes[s[j] as int], q)
            && obs_lt(codes, q, m, u as u32, s[j]) ==> s.contains(u as u32)
}

/// `u` comes before `v` in the answer order: closer to `q`, or as close and met first.
pub open spec fn key_lt<T: CodeInt>(codes: Seq<T>, q: T, m: nat, u: u32, v: u32) -> bool {
    spec_hamdist(codes[u as int], q) < spec_hamdist(codes[v as int], q) || (spec_hamdist(codes[u as int], q)
        == spec_hamdist(codes[v as int], q) && obs_lt(codes, q, m, u, v))
}

proof fn lemma_key_total<T: CodeInt>(codes: Seq<T>, q: T, m: nat, u: u32, v: u32)
    requires
        u != v,
    ensures
        key_lt(codes, q, m, u, v) || key_lt(codes, q, m, v, u),
        !(key_lt(codes, q, m, u, v) && key_lt(codes, q, m, v, u)),
        !key_lt(codes, q, m, u, u),
{
}

proof fn lemma_topk_sorted<T: CodeInt>(codes: Seq<T>, q: T, m: nat, topk: nat, s: Seq<u32>, i: int, j: int)
    requires
        topk_result(codes, q, m, topk, s),
        0 <= i < j < s.len(),
    ensures
        key_lt(codes, q, m, s[i], s[j]),
{
}

proof fn lemma_topk_prefix<T: CodeInt>(codes: Seq<T>, q: T, m: nat, topk: nat, s1: Seq<u32>, s2: Seq<u32>, i: int)
    requires
        topk_result(codes, q, m, topk, s1),
        topk_result(codes, q, m, topk, s2),
        0 <= i <= s1.len(),
    ensures
        forall|p: int| 0 <= p < i ==> s1[p] == s2[p],
    decreases i,
{
    if i > 0 {
        lemma_topk_prefix(codes, q, m, topk, s1, s2, i - 1);
        let x = s1[i - 1];
        let y = s2[i - 1];
        if x != y {
            lemma_key_total(codes, q, m, x, y);
            if key_lt(codes, q, m, x, y) {
                assert(s2.contains(x));
                let p = choose|p: int| 0 <= p < s2.len() && s2[p] == x;
                if p >= i - 1 {
                    if p > i - 1 {
                        lemma_topk_sorted(codes, q, m, topk, s2, i - 1, p);
                    }
                } else {
                    assert(s1[p] == x);
                }
            } else {
                assert(s1.contains(y));
                let p = choose|p: int| 0 <= p < s1.len() && s1[p] == y;
                if p >= i - 1 {
                    if p > i - 1 {
                        lemma_topk_sorted(codes, q, m, topk, s1, i - 1, p);
                    }
                } else {
                    assert(s2[p] == y);
                }
            }
        }
    }
}

/// The top-`k` answer is fully determined by the codes, the number of blocks, the query
/// and `k`: two lists that both meet its description are the same list. So repeated
/// searches, searches through either interface, and searches on an index read back from
/// its serialized form all return the same ids in the same order.
pub proof fn lemma_topk_unique<T: CodeInt>(codes: Seq<T>, q: T, m: nat, topk: nat, s1: Seq<u32>, s2: Seq<u32>)
    requires
        topk_result(codes, q, m, topk, s1),
        topk_result(codes, q, m, topk, s2),
    ensures
        s1 == s2,
{
    lemma_topk_prefix(codes, q, m, topk, s1, s2, s1.len() as int);
    assert(s1 =~= s2);
}

proof fn lemma_csum_update(c: Seq<usize>, i: int, v: usize, t: int)
    requires
        0 <= i < c.len(),
        0 <= t <= c.len(),
    ensures
        csum(c.update(i, v), t) == if t > i { csum(c, t) - c[i] + v } else { csum(c, t) as int },
        t > i ==> csum(c, t) >= c[i],
    decreases t,
{
    if t > 0 {
        lemma_csum_update(c, i, v, t - 1);
    }
}

proof fn lemma_csum_zero(c: Seq<usize>, t: int)
    requires
        0 <= t <= c.len(),
        forall|x: int| 0 <= x < c.len() ==> c[x] == 0,
    ensures
        csum(c, t) == 0,
    decreases t,
{
    if t > 0 {
        lemma_csum_zero(c, t - 1);
    }
}

proof fn lemma_csum_same(a: Seq<usize>, b: Seq<usize>, t: int)
    requires
        forall|x: int| 0 <= x < t ==> #[trigger] a[x] == b[x],
    ensures
        csum(a, t) == csum(b, t),
    decreases t,
{
    if t > 0 {
        lemma_csum_same(a, b, t - 1);
    }
}

proof fn lemma_rsum_lower(rows: Seq<Vec<u32>>, counts: Seq<usize>, k: nat, t: int)
    requires
        0 <= t <= rows.len(),
        rows.len() == counts.len(),
        forall|x: int| 0 <= x < rows.len() ==> #[trigger] rows[x]@.len() == min_nat(counts[x] as nat, k),
    ensures
        rsum(rows, t) >= min_nat(k, csum(counts, t)),
    decreases t,
{
    if t > 0 {
        lemma_rsum_lower(rows, counts, k, t - 1);
        assert(rows[t - 1]@.len() == min_nat(counts[t - 1] as nat, k));
    }
}

proof fn lemma_rsum_mono(rows: Seq<Vec<u32>>, s: int, t: int)
    requires
        0 <= s <= t,
    ensures
        rsum(rows, s) <= rsum(rows, t),
    decreases t - s,
{
    if s < t {
        lemma_rsum_mono(rows, s, t - 1);
    }
}

proof fn lemma_rsum_row(rows: Seq<Vec<u32>>, s: int, t: int)
    requires
        0 <= s < t,
    ensures
        rows[s]@.len() <= rsum(rows, t),
    decreases t - s,
{
    if s < t - 1 {
        lemma_rsum_row(rows, s, t - 1);
    }
}

proof fn lemma_rsum_step(rows: Seq<Vec<u32>>, t: int)
    requires
        0 <= t,
    ensures
        rsum(rows, t + 1) == rsum(rows, t) + rows[t]@.len(),
{
}

proof fn lemma_count_true_all(s: Seq<bool>)
    requires
        forall|v: int| 0 <= v < s.len() ==> #[trigger] s[v],
    ensures
        count_true(s) == s.len(),
    decreases s.len(),
{
    if s.len() > 0 {
        lemma_count_true_all(s.drop_last());
    }
}

/// The serialized form of codes: each in as many bytes as it has, least significant first.
pub open spec fn codes_bytes<T: CodeInt>(s: Seq<T>) -> Seq<u8>
    decreases s.len(),
{
    if s.len() == 0 {
        Seq::empty()
    } else {
        codes_bytes(s.drop_last()) + le_bytes(s.last().spec_word(), T::spec_dimensions() / 8)
    }
}

/// The serialized form of positions: eight bytes each.
pub open spec fn usizes_bytes(s: Seq<usize>) -> Seq<u8>
    decreases s.len(),
{
    if s.len() == 0 {
        Seq::empty()
    } else {
        usizes_bytes(s.drop_last()) + le_bytes(s.last() as u64, 8)
    }
}

/// The serialized form of tables, one after another.
pub open spec fn tables_bytes(s: Seq<Table>) -> Seq<u8>
    decreases s.len(),
{
    if s.len() == 0 {
        Seq::empty()
    } else {
        tables_bytes(s.drop_last()) + s.last().bytes()
    }
}

proof fn lemma_codes_bytes_words<T: CodeInt>(s1: Seq<T>, s2: Seq<T>)
    requires
        s1.len() == s2.len(),
        forall|i: int| 0 <= i < s1.len() ==> #[trigger] s1[i].spec_word() == s2[i].spec_word(),
    ensures
        codes_bytes(s1) == codes_bytes(s2),
    decreases s1.len(),
{
    if s1.len() > 0 {
        let d1 = s1.drop_last();
        let d2 = s2.drop_last();
        assert forall|i: int| 0 <= i < d1.len() implies #[trigger] d1[i].spec_word() == d2[i].spec_word() by {
            assert(d1[i] == s1[i] && d2[i] == s2[i]);
        }
        lemma_codes_bytes_words(d1, d2);
    }
}

proof fn lemma_codes_bytes_at<T: CodeInt>(s: Seq<T>, i: int)
    requires
        0 <= i < s.len(),
        T::spec_dimensions() == 8 || T::spec_dimensions() == 16 || T::spec_dimensions() == 32
            || T::spec_dimensions() == 64,
    ensures
        codes_bytes(s).len() == s.len() * (T::spec_dimensions() / 8),
        codes_bytes(s).subrange(i * (T::spec_dimensions() / 8), i * (T::spec_dimensions() / 8) + T::spec_dimensions() / 8)
            == le_bytes(s[i].spec_word(), T::spec_dimensions() / 8),
    decreases s.len(),
{
    let k = (T::spec_dimensions() / 8) as int;
    let d = s.drop_last();
    assert(codes_bytes(d).len() == d.len() * k) by {
        lemma_codes_bytes_len(d);
    }
    assert(s.len() * k == d.len() * k + k) by (nonlinear_arith)
        requires
            s.len() == d.len() + 1,
    ;
    if i < d.len() {
        lemma_codes_bytes_at(d, i);
        assert(i * k + k <= d.len() * k) by (nonlinear_arith)
            requires
                i < d.len(),
                k >= 1,
        ;
        assert(codes_bytes(s).subrange(i * k, i * k + k) =~= codes_bytes(d).subrange(i * k, i * k + k));
        assert(d[i] == s[i]);
    } else {
        assert(i * k == d.len() * k) by (nonlinear_arith)
            requires
                i == d.len(),
        ;
        assert(codes_bytes(s).subrange(i * k, i * k + k) =~= le_bytes(s[i].spec_word(), k as nat));
    }
}

proof fn lemma_codes_bytes_len<T: CodeInt>(s: Seq<T>)
    ensures
        codes_bytes(s).len() == s.len() * (T::spec_dimensions() / 8),
    decreases s.len(),
{
    if s.len() > 0 {
        lemma_codes_bytes_len(s.drop_last());
        let k = (T::spec_dimensions() / 8) as int;
        assert(s.len() * k == (s.len() - 1) * k + k) by (nonlinear_arith);
    }
}

proof fn lemma_tables_bytes(s1: Seq<Table>, s2: Seq<Table>)
    requires
        s1.len() == s2.len(),
        forall|i: int| 0 <= i < s1.len() ==> #[trigger] s1[i].bytes() == s2[i].bytes(),
    ensures
        tables_bytes(s1) == tables_bytes(s2),
    decreases s1.len(),
{
    if s1.len() > 0 {
        let d1 = s1.drop_last();
        let d2 = s2.drop_last();
        assert forall|i: int| 0 <= i < d1.len() implies #[trigger] d1[i].bytes() == d2[i].bytes() by {
            assert(d1[i] == s1[i] && d2[i] == s2[i]);
        }
        lemma_tables_bytes(d1, d2);
    }
}

fn put_codes<T: CodeInt>(out: &mut Vec<u8>, codes: &Vec<T>)
    ensures
        final(out)@ == old(out)@ + le_bytes(codes@.len() as u64, 8) + codes_bytes(codes@),
{
    let ghost o = out@;
    put_le(out, codes.len() as u64, 8);
    let ghost o2 = out@;
    let k = T::dimensions() / 8;
    let mut i: usize = 0;
    proof {
        assert(codes@.subrange(0, 0) =~= Seq::<T>::empty());
        assert(out@ =~= o2 + codes_bytes(codes@.subrange(0, 0)));
    }
    while i < codes.len()
        invariant
            i <= codes@.len(),
            k == T::spec_dimensions() / 8,
            k <= 8,
            out@ == o2 + codes_bytes(codes@.subrange(0, i as int)),
        decreases codes@.len() - i,
    {
        put_le(out, codes[i].to_word(), k);
        proof {
            assert(codes@.subrange(0, i as int + 1).drop_last() =~= codes@.subrange(0, i as int));
        }
        i += 1;
    }
    proof {
        assert(codes@.subrange(0, codes@.len() as int) =~= codes@);
    }
}

/// Multi-index hashing for neighbor searches on binary codes in the Hamming space.
#[derive(Clone, PartialEq, Eq, Debug)]
pub struct Index<T: CodeInt> {
    num_blocks: usize,
    codes: Vec<T>,
    tables: Vec<Table>,
    masks: Vec<T>,
    begs: Vec<usize>,
}

impl<T: CodeInt> Index<T> {
    pub closed spec fn spec_codes(&self) -> Seq<T> {
        self.codes@
    }

    pub closed spec fn spec_num_blocks(&self) -> nat {
        self.num_blocks as nat
    }

    /// The table of block `i` lists, for each block value, the ids of the codes with it.
    pub closed spec fn table_ok(&self, i: int) -> bool {
        let b = T::spec_dimensions();
        let m = self.num_blocks as nat;
        let w = width(i, b, m);
        &&& self.tables@[i].complete()
        &&& self.tables@[i].spec_num_bits() == w
        &&& self.tables@[i].view() == Seq::new(
            pow2(w),
            |v: int| ids_with(self.codes@, beg(i, b, m), w, v, self.codes@.len()),
        )
    }

    pub closed spec fn wf(&self) -> bool {
        let b = T::spec_dimensions();
        let m = self.num_blocks as nat;
        &&& 2 <= m <= b <= 64
        &&& 1 <= self.codes@.len() <= u32::MAX
        &&& self.codes@.len() + 66 <= usize::MAX
        &&& self.begs@.len() == m + 1
        &&& forall|i: int| 0 <= i <= m ==> #[trigger] self.begs@[i] == beg(i, b, m)
        &&& self.masks@.len() == m
        &&& forall|i: int| 0 <= i < m ==> #[trigger] self.masks@[i].spec_word() == low_mask(width(i, b, m) as u64)
        &&& self.tables@.len() == m
        &&& forall|i: int| 0 <= i < m ==> #[trigger] self.table_ok(i)
    }

    /// Builds an index from binary codes with a manually specified number of blocks.
    /// Fails on no codes, on more codes than 32-bit ids can name (or so many that the
    /// tables' arrays could not be addressed), on a number of blocks outside `[2, b]`, and
    /// on blocks too wide for this machine to hold a table of.
    pub fn with_blocks(codes: Vec<T>, num_blocks: usize) -> (r: Result<Self, Error>)
        ensures
            codes@.len() == 0 ==> r == Err::<Self, Error>(Error::EmptyInput),
            codes@.len() > 0 && (codes@.len() > u32::MAX || codes@.len() + 66 > usize::MAX) ==> r
                == Err::<Self, Error>(Error::TooManyCodes),
            0 < codes@.len() <= u32::MAX && codes@.len() + 66 <= usize::MAX && (num_blocks < 2
                || num_blocks > T::spec_dimensions()) ==> r == Err::<Self, Error>(Error::InvalidBlocks),
            0 < codes@.len() <= u32::MAX && codes@.len() + 66 <= usize::MAX && 2 <= num_blocks
                <= T::spec_dimensions() ==> (r is Ok <==> pow2(
                width(num_blocks - 1, T::spec_dimensions(), num_blocks as nat),
            ) <= usize::MAX),
            0 < codes@.len() <= u32::MAX && codes@.len() + 66 <= usize::MAX && 2 <= num_blocks
                <= T::spec_dimensions() && pow2(
                width(num_blocks - 1, T::spec_dimensions(), num_blocks as nat),
            ) > usize::MAX ==> r == Err::<Self, Error>(Error::InvalidTableWidth),
            r is Err ==> r == Err::<Self, Error>(Error::EmptyInput) || r == Err::<Self, Error>(
                Error::TooManyCodes,
            ) || r == Err::<Self, Error>(Error::InvalidBlocks) || r == Err::<Self, Error>(
                Error::InvalidTableWidth,
            ),
            r matches Ok(ix) ==> {
                &&& ix.wf()
                &&& ix.spec_codes() == codes@
                &&& ix.spec_num_blocks() == num_blocks
            },
    {
        if codes.len() == 0 {
            return Err(Error::EmptyInput);
        }
        if (u32::MAX as usize) < codes.len() || usize::MAX - 66 < codes.len() {
            return Err(Error::TooManyCodes);
        }
        let num_dimensions = T::dimensions();
        if num_blocks < 2 || num_dimensions < num_blocks {
            return Err(Error::InvalidBlocks);
        }
        let ghost b = num_dimensions as nat;
        let ghost m = num_blocks as nat;
        proof {
            lemma_blocks(b, m);
        }
        let mut masks: Vec<T> = Vec::new();
        let mut begs: Vec<usize> = Vec::new();
        begs.push(0);
        let mut blk: usize = 0;
        while blk < num_blocks
            invariant
                2 <= m <= b <= 64,
                num_blocks == m,
                num_dimensions == b,
                b == T::spec_dimensions(),
                blk <= num_blocks,
                beg(m as int, b, m) == b,
                forall|i: int| 0 <= i < m ==> 1 <= #[trigger] width(i, b, m) <= 32,
                forall|i: int| 0 <= i < m ==> #[trigger] beg(i, b, m) + width(i, b, m) <= b,
                begs@.len() == blk + 1,
                forall|i: int| 0 <= i <= blk ==> #[trigger] begs@[i] == beg(i, b, m),
                masks@.len() == blk,
                forall|i: int| 0 <= i < blk ==> #[trigger] masks@[i].spec_word() == low_mask(width(i, b, m) as u64),
            decreases num_blocks - blk,
        {
            let dim = (blk + num_dimensions) / num_blocks;
            assert(dim == width(blk as int, b, m));
            assert(1 <= width(blk as int, b, m) <= 32);
            assert(beg(blk as int, b, m) + width(blk as int, b, m) <= b);
            assert(1u64 << (dim as u64) >= 1) by (bit_vector)
                requires
                    dim < 64,
            ;
            let mask: u64 = if 64 == dim {
                u64::MAX
            } else {
                (1u64 << dim as u64) - 1
            };
            proof {
                lemma_mask_fits(dim as nat, b);
            }
            masks.push(T::from_word(mask));
            let next = begs[blk] + dim;
            begs.push(next);
            blk += 1;
        }
        let mut tables: Vec<Table> = Vec::new();
        let n = codes.len();
        let mut blk: usize = 0;
        while blk < num_blocks
            invariant
                2 <= m <= b <= 64,
                num_blocks == m,
                b == T::spec_dimensions(),
                n == codes@.len(),
                1 <= n <= u32::MAX,
                n + 66 <= usize::MAX,
                blk <= num_blocks,
                beg(m as int, b, m) == b,
                forall|i: int| 0 <= i < m ==> 1 <= #[trigger] width(i, b, m) <= 32,
                forall|i: int| 0 <= i < m ==> #[trigger] beg(i, b, m) + width(i, b, m) <= b,
                forall|i: int| 0 <= i < m ==> #[trigger] width(i, b, m) <= width(m - 1, b, m),
                blk > 0 ==> pow2(width(blk - 1, b, m)) <= usize::MAX,
                begs@.len() == m + 1,
                forall|i: int| 0 <= i <= m ==> #[trigger] begs@[i] == beg(i, b, m),
                masks@.len() == m,
                forall|i: int| 0 <= i < m ==> #[trigger] masks@[i].spec_word() == low_mask(width(i, b, m) as u64),
                tables@.len() == blk,
                forall|i: int| 0 <= i < blk ==> #[trigger] Self::table_built(tables@[i], codes@, i, b, m),
            decreases num_blocks - blk,
        {
            let start = begs[blk];
            let dim = begs[blk + 1] - begs[blk];
            let ghost w = width(blk as int, b, m);
            let ghost st = beg(blk as int, b, m);
            assert(dim == w);
            let mut table = match Table::new(dim) {
                Ok(t) => t,
                Err(e) => {
                    proof {
                        if w < width(m - 1, b, m) {
                            vstd::arithmetic::power2::lemma_pow2_strictly_increases(w, width(m - 1, b, m));
                        }
                    }
                    return Err(e);
                },
            };
            let mask = masks[blk].to_word();
            let ghost len = table.spec_len();
            let mut id: usize = 0;
            proof {
                lemma_prefix_zero(table.counts(), len as int);
                assert(table.counts() =~= Seq::new(len, |v: int| ids_with(codes@, st, w, v, 0).len()));
            }
            while id < n
                invariant
                    n == codes@.len(),
                    n <= u32::MAX,
                    n + 66 <= usize::MAX,
                    id <= n,
                    1 <= w <= 32,
                    st + w <= 64,
                    start == st,
                    mask == low_mask(w as u64),
                    table.counted(),
                    table.spec_num_bits() == w,
                    len == table.spec_len(),
                    len == pow2(w),
                    len <= usize::MAX,
                    table.counts() == Seq::new(len, |v: int| ids_with(codes@, st, w, v, id as nat).len()),
                    prefix(table.counts(), len as int) == id,
                decreases n - id,
            {
                let c = (codes[id].to_word() >> start as u64) & mask;
                assert(c == chunk(codes@[id as int].spec_word(), st, w));
                proof {
                    lemma_chunk_bound(codes@[id as int].spec_word(), st, w);
                    lemma_prefix_update(table.counts(), c as int, table.counts()[c as int] + 1, len as int);
                }
                table.count_insert(c as usize);
                id += 1;
                proof {
                    assert forall|v: int| 0 <= v < len implies #[trigger] table.counts()[v] == ids_with(
                        codes@,
                        st,
                        w,
                        v,
                        id as nat,
                    ).len() by {
                        assert(ids_with(codes@, st, w, v, id as nat) == if v == c {
                            ids_with(codes@, st, w, v, (id - 1) as nat).push((id - 1) as u32)
                        } else {
                            ids_with(codes@, st, w, v, (id - 1) as nat)
                        });
                    }
                    assert(table.counts() =~= Seq::new(len, |v: int| ids_with(codes@, st, w, v, id as nat).len()));
                }
            }
            let ghost caps = Seq::new(len, |v: int| ids_with(codes@, st, w, v, n as nat).len());
            let mut id: usize = 0;
            proof {
                table.lemma_counted();
                assert(table.counts() =~= caps);
                assert(empty_lists(len) =~= Seq::new(len, |v: int| ids_with(codes@, st, w, v, 0)));
            }
            while id < n
                invariant
                    n == codes@.len(),
                    n <= u32::MAX,
                    id <= n,
                    1 <= w <= 32,
                    st + w <= 64,
                    start == st,
                    mask == low_mask(w as u64),
                    table.spec_num_bits() == w,
                    len == table.spec_len(),
                    len == pow2(w),
                    len <= usize::MAX,
                    caps == Seq::new(len, |v: int| ids_with(codes@, st, w, v, n as nat).len()),
                    table.filling(caps, Seq::new(len, |v: int| ids_with(codes@, st, w, v, id as nat))),
                decreases n - id,
            {
                let c = (codes[id].to_word() >> start as u64) & mask;
                assert(c == chunk(codes@[id as int].spec_word(), st, w));
                let ghost lists = Seq::new(len, |v: int| ids_with(codes@, st, w, v, id as nat));
                proof {
                    lemma_chunk_bound(codes@[id as int].spec_word(), st, w);
                    lemma_ids_with_len(codes@, st, w, c as int, (id + 1) as nat, n as nat);
                    assert(ids_with(codes@, st, w, c as int, (id + 1) as nat) == ids_with(codes@, st, w, c as int, id as nat).push(id as u32));
                    let cl = (caps, lists);
                    assert(table.filling(cl.0, cl.1) && cl.1[c as int].len() < cl.0[c as int]);
                }
                table.data_insert(c as usize, id as u32);
                id += 1;
                proof {
                    assert forall|v: int| 0 <= v < len implies #[trigger] ids_with(codes@, st, w, v, id as nat) == if v == c {
                            lists[v].push((id - 1) as u32)
                        } else {
                            lists[v]
                        } by {
                    }
                    assert(lists.update(c as int, lists[c as int].push((id - 1) as u32)) =~= Seq::new(
                        len,
                        |v: int| ids_with(codes@, st, w, v, id as nat),
                    ));
                }
            }
            proof {
                table.lemma_filled(caps, Seq::new(len, |v: int| ids_with(codes@, st, w, v, n as nat)));
            }
            tables.push(table);
            blk += 1;
        }
        let ix = Index { num_blocks, codes, tables, masks, begs };
        proof {
            assert forall|i: int| 0 <= i < m implies #[trigger] ix.table_ok(i) by {
                assert(Self::table_built(ix.tables@[i], ix.codes@, i, b, m));
            }
        }
        Ok(ix)
    }

    spec fn table_built(t: Table, codes: Seq<T>, i: int, b: nat, m: nat) -> bool {
        let w = width(i, b, m);
        &&& t.complete()
        &&& t.spec_num_bits() == w
        &&& t.view() == Seq::new(pow2(w), |v: int| ids_with(codes, beg(i, b, m), w, v, codes.len()))
    }

    proof fn lemma_ids_with_below(codes: Seq<T>, start: nat, w: nat, v: int, n: nat)
        ensures
            forall|j: int| 0 <= j < ids_with(codes, start, w, v, n).len() ==> #[trigger] ids_with(codes, start, w, v, n)[j] < n,
        decreases n,
    {
        if n > 0 {
            Self::lemma_ids_with_below(codes, start, w, v, (n - 1) as nat);
            let all = ids_with(codes, start, w, v, n);
            let rest = ids_with(codes, start, w, v, (n - 1) as nat);
            assert forall|j: int| 0 <= j < all.len() implies #[trigger] all[j] < n by {
                if j < rest.len() {
                    assert(all[j] == rest[j]);
                }
            }
        }
    }

    /// The slot lists of the table of block `i`.
    pub closed spec fn table_view(&self, i: int) -> Seq<Seq<u32>> {
        self.tables@[i].view()
    }

    /// The value of block `i` of `c`.
    pub open spec fn block_of(&self, c: T, i: int) -> u64 {
        chunk(
            c.spec_word(),
            beg(i, T::spec_dimensions(), self.spec_num_blocks()),
            width(i, T::spec_dimensions(), self.spec_num_blocks()),
        )
    }

    /// After the two-phase build, the table of each block has one slot per block value;
    /// each slot lists, in ascending order, exactly the ids of the codes with that block
    /// value. So every id sits in exactly one slot, and the slots together hold each id
    /// once.
    pub proof fn lemma_table_contents(&self, i: int)
        requires
            self.wf(),
            0 <= i < self.spec_num_blocks(),
        ensures
            self.table_view(i).len() == pow2(width(i, T::spec_dimensions(), self.spec_num_blocks())),
            forall|v: int| 0 <= v < self.table_view(i).len() ==> strictly_ascending(#[trigger] self.table_view(i)[v]),
            forall|v: int, x: u32|
                0 <= v < self.table_view(i).len() ==> (#[trigger] self.table_view(i)[v].contains(x) <==> (x
                    < self.spec_codes().len() && self.block_of(self.spec_codes()[x as int], i) == v)),
            forall|id: int|
                0 <= id < self.spec_codes().len() ==> (self.block_of(self.spec_codes()[id], i) as int) < self.table_view(i).len(),
    {
        let b = T::spec_dimensions();
        let m = self.spec_num_blocks();
        let w = width(i, b, m);
        let st = beg(i, b, m);
        let n = self.codes@.len();
        assert(self.table_ok(i));
        lemma_blocks(b, m);
        assert forall|v: int| 0 <= v < self.table_view(i).len() implies strictly_ascending(#[trigger] self.table_view(i)[v]) by {
            lemma_ids_with_ascending(self.codes@, st, w, v, n);
        }
        assert forall|v: int, x: u32|
            0 <= v < self.table_view(i).len() implies (#[trigger] self.table_view(i)[v].contains(x) <==> (x < n
                && self.block_of(self.codes@[x as int], i) == v)) by {
            if self.table_view(i)[v].contains(x) {
                lemma_ids_with_member(self.codes@, st, w, v, n, x);
            }
            if x < n && self.block_of(self.codes@[x as int], i) == v {
                lemma_ids_with_has(self.codes@, st, w, v, n, x as int);
            }
        }
        assert forall|id: int| 0 <= id < n implies (self.block_of(self.codes@[id], i) as int) < self.table_view(i).len() by {
            crate::blocks::lemma_chunk_bound(self.codes@[id].spec_word(), st, w);
        }
    }

    /// Gets the reference of the input database.
    pub fn codes(&self) -> (r: &[T])
        ensures
            r@ == self.spec_codes(),
    {
        self.codes.as_slice()
    }

    /// Gets the number of defined blocks in multi-index.
    pub fn num_blocks(&self) -> (r: usize)
        ensures
            r == self.spec_num_blocks(),
    {
        self.num_blocks
    }

    /// Gets the number of defined blocks in multi-index.
    pub fn get_blocks(&self) -> (r: usize)
        ensures
            r == self.spec_num_blocks(),
    {
        self.num_blocks
    }

    fn get_dim(&self, b: usize) -> (r: usize)
        requires
            self.wf(),
            b < self.spec_num_blocks(),
        ensures
            r == width(b as int, T::spec_dimensions(), self.spec_num_blocks()),
            1 <= r <= 32,
    {
        proof {
            lemma_blocks(T::spec_dimensions(), self.spec_num_blocks());
            assert(self.begs@[b as int + 1] == beg(b as int + 1, T::spec_dimensions(), self.spec_num_blocks()));
        }
        self.begs[b + 1] - self.begs[b]
    }

    fn get_chunk(&self, code: T, b: usize) -> (r: u64)
        requires
            self.wf(),
            b < self.spec_num_blocks(),
        ensures
            r == chunk(
                code.spec_word(),
                beg(b as int, T::spec_dimensions(), self.spec_num_blocks()),
                width(b as int, T::spec_dimensions(), self.spec_num_blocks()),
            ),
            (r as nat) < pow2(width(b as int, T::spec_dimensions(), self.spec_num_blocks())),
    {
        proof {
            let bb = T::spec_dimensions();
            let m = self.spec_num_blocks();
            lemma_blocks(bb, m);
            assert(self.begs@[b as int] == beg(b as int, bb, m));
            assert(self.masks@[b as int].spec_word() == low_mask(width(b as int, bb, m) as u64));
            assert(beg(b as int, bb, m) + width(b as int, bb, m) <= bb);
            assert(1 <= width(b as int, bb, m) <= 32);
            lemma_chunk_bound(code.spec_word(), beg(b as int, bb, m), width(b as int, bb, m));
        }
        (code.to_word() >> self.begs[b] as u64) & self.masks[b].to_word()
    }

    /// Appends the ids of every code whose block `b` differs in exactly `k` bits from the
    /// query's block `b` (and possibly more ids listed in the same slots).
    fn probe(&self, qcode: T, b: usize, k: usize, siggen: &mut SigGenerator64, out: &mut Vec<u32>)
        requires
            self.wf(),
            b < self.spec_num_blocks(),
            k <= width(b as int, T::spec_dimensions(), self.spec_num_blocks()),
        ensures
            final(out)@.len() >= old(out)@.len(),
            final(out)@.subrange(0, old(out)@.len() as int) == old(out)@,
            forall|j: int| old(out)@.len() <= j < final(out)@.len() ==> #[trigger] final(out)@[j] < self.spec_codes().len(),
            forall|id: int|
                0 <= id < self.spec_codes().len() && #[trigger] block_dist(qcode, self.spec_codes()[id], b as int, self.spec_num_blocks())
                    == k ==> final(out)@.contains(id as u32),
            forall|j: int|
                old(out)@.len() <= j < final(out)@.len() ==> block_dist(
                    qcode,
                    self.spec_codes()[#[trigger] final(out)@[j] as int],
                    b as int,
                    self.spec_num_blocks(),
                ) == k,
            forall|i: int, j: int|
                old(out)@.len() <= i < j < final(out)@.len() ==> probe_lt(
                    self.spec_codes(),
                    qcode,
                    b as int,
                    self.spec_num_blocks(),
                    #[trigger] final(out)@[i],
                    #[trigger] final(out)@[j],
                ),
    {
        let dim = self.get_dim(b);
        let qcd = self.get_chunk(qcode, b);
        let table = &self.tables[b];
        let ghost bb = T::spec_dimensions();
        let ghost m = self.spec_num_blocks();
        let ghost w = width(b as int, bb, m);
        let ghost n = self.codes@.len();
        let ghost out0 = out@;
        proof {
            assert(self.table_ok(b as int));
            crate::bits::lemma_lt_fits(qcd, w);
        }
        siggen.init(qcd, dim, k);
        let ghost st = beg(b as int, bb, m);
        proof {
            assert forall|id: int|
                0 <= id < n && #[trigger] block_dist(qcode, self.codes@[id], b as int, m) == k implies !colex_lt(
                positions(qcd ^ chunk(self.codes@[id].spec_word(), st, w), w),
                siggen.comb(),
            ) by {
                let cc = chunk(self.codes@[id].spec_word(), st, w);
                crate::blocks::lemma_chunk_bound(self.codes@[id].spec_word(), st, w);
                crate::bits::lemma_lt_fits(cc, w);
                crate::bits::lemma_fits_xor(qcd, cc, w);
                lemma_comb_of(qcd ^ cc, w);
            }
        }
        while siggen.has_next()
            invariant
                bb == T::spec_dimensions(),
                m == self.spec_num_blocks(),
                w == width(b as int, bb, m),
                siggen.spec_radius() == k,
                k <= w,
                st == beg(b as int, bb, m),
                qcd == chunk(qcode.spec_word(), st, w),
                forall|id: int|
                    0 <= id < n && #[trigger] block_dist(qcode, self.codes@[id], b as int, m) == k && (!siggen.spec_has_next()
                        || colex_lt(positions(qcd ^ chunk(self.codes@[id].spec_word(), st, w), w), siggen.comb()))
                        ==> out@.contains(id as u32),
                self.wf(),
                table == self.tables@[b as int],
                self.table_ok(b as int),
                table.spec_len() == pow2(w),
                table.view() == Seq::new(pow2(w), |v: int| ids_with(self.codes@, beg(b as int, bb, m), w, v, n)),
                1 <= w <= 32,
                n == self.codes@.len(),
                crate::bits::fits(qcd, w),
                siggen.wf(),
                siggen.spec_base() == qcd,
                siggen.spec_dim() == w,
                out@.len() >= out0.len(),
                out@.subrange(0, out0.len() as int) == out0,
                forall|j: int| out0.len() <= j < out@.len() ==> #[trigger] out@[j] < n,
                forall|j: int|
                    out0.len() <= j < out@.len() ==> block_dist(qcode, self.codes@[#[trigger] out@[j] as int], b as int, m) == k
                        && (siggen.spec_has_next() ==> block_x(qcode, self.codes@[out@[j] as int], b as int, m) < word_of(
                        siggen.comb(),
                    )),
                forall|i: int, j: int|
                    out0.len() <= i < j < out@.len() ==> probe_lt(self.codes@, qcode, b as int, m, #[trigger] out@[i], #[trigger] out@[j]),
            decreases siggen.remaining(),
        {
            let ghost c = siggen.comb();
            let ghost out_before = out@;
            proof {
                siggen.lemma_comb();
                lemma_word_fits(c, w);
                table.lemma_len_fits();
                assert(c.len() == k);
            }
            let ghost g0 = *siggen;
            let sig = siggen.next();
            proof {
                crate::bits::lemma_fits_xor(word_of(c), qcd, w);
                crate::bits::lemma_fits_lt(sig, w);
            }
            match table.access(sig as usize) {
                Some(a) => {
                    proof {
                        Self::lemma_ids_with_below(self.codes@, beg(b as int, bb, m), w, sig as int, n);
                    }
                    let mut t: usize = 0;
                    let ghost out1 = out@;
                    while t < a.len()
                        invariant
                            t <= a@.len(),
                            a@ == ids_with(self.codes@, beg(b as int, bb, m), w, sig as int, n),
                            forall|j: int| 0 <= j < a@.len() ==> #[trigger] a@[j] < n,
                            out@.len() == out1.len() + t,
                            out@.subrange(0, out1.len() as int) == out1,
                            forall|j: int| 0 <= j < t ==> #[trigger] out@[out1.len() + j] == a@[j],
                            out1.len() >= out0.len(),
                            out1.subrange(0, out0.len() as int) == out0,
                            forall|j: int| out0.len() <= j < out1.len() ==> #[trigger] out1[j] < n,
                        decreases a@.len() - t,
                    {
                        out.push(a[t]);
                        t += 1;
                        proof {
                            assert(out@.subrange(0, out1.len() as int) =~= out1);
                        }
                    }
                    proof {
                        assert(out@.subrange(0, out0.len() as int) =~= out0);
                        assert forall|j: int| out0.len() <= j < out@.len() implies #[trigger] out@[j] < n by {
                            if j < out1.len() {
                                assert(out@[j] == out1[j]);
                            } else {
                                assert(out@[out1.len() + (j - out1.len())] == a@[j - out1.len()]);
                            }
                        }
                        assert forall|v: u32| table.view()[sig as int].contains(v) implies out@.contains(v) by {
                            let p = choose|p: int| 0 <= p < a@.len() && a@[p] == v;
                            assert(out@[out1.len() + p] == a@[p]);
                        }
                        assert(out1 == out_before);
                        assert(out@.len() == out_before.len() + table.view()[sig as int].len());
                        assert(forall|p: int| 0 <= p < table.view()[sig as int].len() ==> #[trigger] out@[out_before.len() + p] == table.view()[sig as int][p]);
                    }
                },
                None => {
                    proof {
                        assert(out@.len() == out_before.len() + table.view()[sig as int].len());
                        assert forall|v: u32| table.view()[sig as int].contains(v) implies out@.contains(v) by {
                            let p = choose|p: int| 0 <= p < table.view()[sig as int].len() && table.view()[sig as int][p] == v;
                        }
                    }
                },
            }
            proof {
                assert forall|j: int| 0 <= j < out_before.len() implies out@[j] == out_before[j] by {
                    assert(out@.subrange(0, out_before.len() as int)[j] == out_before[j]);
                }
                let wc = word_of(c);
                lemma_pattern_words(c, k as nat, w);
                lemma_xor_cancel2(qcd, wc);
                assert forall|j: int| out_before.len() <= j < out@.len() implies block_x(qcode, self.codes@[#[trigger] out@[j] as int], b as int, m)
                    == wc && block_dist(qcode, self.codes@[out@[j] as int], b as int, m) == k by {
                    let x = out@[j];
                    assert(out@[out_before.len() + (j - out_before.len())] == table.view()[sig as int][j - out_before.len()]);
                    assert(table.view()[sig as int].contains(x));
                    lemma_ids_with_member(self.codes@, st, w, sig as int, n, x);
                }
                assert forall|j: int|
                    out0.len() <= j < out@.len() implies block_dist(qcode, self.codes@[#[trigger] out@[j] as int], b as int, m) == k
                        && (siggen.spec_has_next() ==> block_x(qcode, self.codes@[out@[j] as int], b as int, m) < word_of(
                        siggen.comb(),
                    )) by {
                    if j < out_before.len() {
                        assert(out@[j] == out_before[j]);
                    } else {
                        assert(block_x(qcode, self.codes@[out@[j] as int], b as int, m) == wc);
                    }
                }
                assert forall|i: int, j: int|
                    out0.len() <= i < j < out@.len() implies probe_lt(self.codes@, qcode, b as int, m, #[trigger] out@[i], #[trigger] out@[j]) by {
                    if j < out_before.len() {
                        assert(out@[i] == out_before[i] && out@[j] == out_before[j]);
                    } else if i < out_before.len() {
                        assert(out@[i] == out_before[i]);
                        assert(block_x(qcode, self.codes@[out@[j] as int], b as int, m) == wc);
                    } else {
                        assert(block_x(qcode, self.codes@[out@[j] as int], b as int, m) == wc);
                        assert(block_x(qcode, self.codes@[out@[i] as int], b as int, m) == wc);
                        let a = ids_with(self.codes@, st, w, sig as int, n);
                        lemma_ids_with_ascending(self.codes@, st, w, sig as int, n);
                        assert(out@[out_before.len() + (i - out_before.len())] == a[i - out_before.len()]);
                        assert(out@[out_before.len() + (j - out_before.len())] == a[j - out_before.len()]);
                    }
                }
                assert forall|id: int|
                    0 <= id < n && #[trigger] block_dist(qcode, self.codes@[id], b as int, m) == k && (!siggen.spec_has_next()
                        || colex_lt(positions(qcd ^ chunk(self.codes@[id].spec_word(), st, w), w), siggen.comb()))
                        implies out@.contains(id as u32) by {
                    let cc = chunk(self.codes@[id].spec_word(), st, w);
                    let x = qcd ^ cc;
                    crate::blocks::lemma_chunk_bound(self.codes@[id].spec_word(), st, w);
                    crate::bits::lemma_lt_fits(cc, w);
                    crate::bits::lemma_fits_xor(qcd, cc, w);
                    lemma_comb_of(x, w);
                    let t = positions(x, w);
                    assert(st == beg(b as int, bb, m));
                    assert(w == width(b as int, bb, m));
                    assert(bb == T::spec_dimensions());
                    assert(qcd == chunk(qcode.spec_word(), st, w));
                    assert(popcount(x) == block_dist(qcode, self.codes@[id], b as int, m));
                    assert(t.len() == k);
                    if t == c {
                        lemma_xor_cancel(qcd, cc);
                        assert(sig == cc);
                        lemma_ids_with_has(self.codes@, st, w, sig as int, n, id);
                        assert(table.view()[sig as int].contains(id as u32));
                    } else if colex_lt(t, c) {
                        let p = choose|p: int| 0 <= p < out_before.len() && out_before[p] == id as u32;
                        assert(out@[p] == id as u32);
                    } else {
                        lemma_colex_total(t, c);
                        if siggen.spec_has_next() {
                            lemma_colex_asym(t, siggen.comb());
                        }
                    }
                }
            }
        }
    }

    /// Finds the ids of the codes within `radius` of `qcode`, ascending, into `answers`.
    fn range_core(&self, qcode: T, radius: usize, siggen: &mut SigGenerator64, answers: &mut Vec<u32>)
        requires
            self.wf(),
        ensures
            final(answers)@ == spec_range_search(self.spec_codes(), qcode, radius as nat),
    {
        answers.clear();
        let num_blocks = self.num_blocks;
        let dims = T::dimensions();
        let rad_all = if radius > dims {
            dims
        } else {
            radius
        };
        let ghost n = self.codes@.len();
        let ghost m = self.spec_num_blocks();
        let mut b: usize = 0;
        while b < num_blocks
            invariant
                self.wf(),
                num_blocks == self.spec_num_blocks(),
                m == num_blocks,
                dims == T::spec_dimensions(),
                rad_all <= dims <= 64,
                b <= num_blocks,
                n == self.codes@.len(),
                forall|j: int| 0 <= j < answers@.len() ==> #[trigger] answers@[j] < n,
                forall|id: int, i: int|
                    0 <= id < n && 0 <= i < b && i + rad_all + 1 >= m && #[trigger] block_dist(qcode, self.codes@[id], i, m)
                        <= (i + rad_all + 1 - m) / (m as int) ==> answers@.contains(id as u32),
            decreases num_blocks - b,
        {
            if b + rad_all + 1 >= num_blocks {
                let rad = (b + rad_all + 1 - num_blocks) / num_blocks;
                let dim = self.get_dim(b);
                let top = if rad > dim {
                    dim
                } else {
                    rad
                };
                let mut k: usize = 0;
                while k <= top
                    invariant
                        self.wf(),
                        b < num_blocks == self.spec_num_blocks(),
                        m == num_blocks,
                        top <= dim,
                        dim == width(b as int, T::spec_dimensions(), self.spec_num_blocks()),
                        dim <= 32,
                        n == self.codes@.len(),
                        forall|j: int| 0 <= j < answers@.len() ==> #[trigger] answers@[j] < n,
                        forall|id: int, i: int|
                            0 <= id < n && 0 <= i < b && i + rad_all + 1 >= m && #[trigger] block_dist(qcode, self.codes@[id], i, m)
                                <= (i + rad_all + 1 - m) / (m as int) ==> answers@.contains(id as u32),
                        forall|id: int|
                            0 <= id < n && #[trigger] block_dist(qcode, self.codes@[id], b as int, m) < k ==> answers@.contains(id as u32),
                    decreases top + 1 - k,
                {
                    let ghost a0 = answers@;
                    self.probe(qcode, b, k, siggen, answers);
                    proof {
                        assert forall|j: int| 0 <= j < answers@.len() implies #[trigger] answers@[j] < n by {
                            if j < a0.len() {
                                assert(answers@.subrange(0, a0.len() as int)[j] == a0[j]);
                            }
                        }
                        assert forall|x: u32| a0.contains(x) implies answers@.contains(x) by {
                            let p = choose|p: int| 0 <= p < a0.len() && a0[p] == x;
                            assert(answers@.subrange(0, a0.len() as int)[p] == a0[p]);
                        }
                    }
                    proof {
                        assert forall|id: int|
                            0 <= id < n && #[trigger] block_dist(qcode, self.codes@[id], b as int, m) < k + 1 implies answers@.contains(
                            id as u32,
                        ) by {
                            if block_dist(qcode, self.codes@[id], b as int, m) == k {
                                assert(block_dist(qcode, self.spec_codes()[id], b as int, self.spec_num_blocks()) == k);
                            } else {
                                assert(a0.contains(id as u32));
                            }
                        }
                        assert forall|id: int, i: int|
                            0 <= id < n && 0 <= i < b && i + rad_all + 1 >= m && #[trigger] block_dist(qcode, self.codes@[id], i, m)
                                <= (i + rad_all + 1 - m) / (m as int) implies answers@.contains(id as u32) by {
                            assert(a0.contains(id as u32));
                        }
                    }
                    k += 1;
                }
                proof {
                    assert forall|id: int, i: int|
                        0 <= id < n && 0 <= i < b + 1 && i + rad_all + 1 >= m && #[trigger] block_dist(qcode, self.codes@[id], i, m)
                            <= (i + rad_all + 1 - m) / (m as int) implies answers@.contains(id as u32) by {
                        if i == b {
                            Self::lemma_block_dist_le(qcode, self.codes@[id], i, m);
                        }
                    }
                }
            }
            b += 1;
        }
        proof {
            assert forall|id: int| 0 <= id < n && spec_hamdist(self.codes@[id], qcode) <= radius implies answers@.contains(
                id as u32,
            ) by {
                let q = qcode.spec_word();
                let c = self.codes@[id].spec_word();
                T::lemma_word_fits(qcode);
                T::lemma_word_fits(self.codes@[id]);
                crate::codeint::lemma_hamdist_bound(self.codes@[id], qcode);
                crate::codeint::lemma_hamdist_bound(qcode, self.codes@[id]);
                crate::blocks::lemma_pigeonhole(q, c, dims as nat, m, rad_all as nat);
                let i = choose|i: int|
                    0 <= i < m && i + rad_all + 1 >= m && #[trigger] popcount(
                        chunk(q, beg(i, dims as nat, m), width(i, dims as nat, m)) ^ chunk(c, beg(i, dims as nat, m), width(i, dims as nat, m)),
                    ) <= (i + rad_all + 1 - m) / (m as int);
                assert(block_dist(qcode, self.codes@[id], i, m) <= (i + rad_all + 1 - m) / (m as int));
            }
        }
        let ghost cands = answers@;
        let mut n_out: usize = 0;
        if answers.len() > 0 {
            let ghost pre = answers@;
            sort_ids(answers);
            let ghost sorted = answers@;
            proof {
                sorted.to_multiset_ensures();
                pre.to_multiset_ensures();
                assert forall|j: int| 0 <= j < sorted.len() implies #[trigger] sorted[j] < n by {
                    assert(sorted.contains(sorted[j]));
                    assert(sorted.to_multiset().count(sorted[j]) > 0);
                    assert(pre.to_multiset().count(sorted[j]) > 0);
                    assert(pre.contains(sorted[j]));
                    let l = choose|l: int| 0 <= l < pre.len() && pre[l] == sorted[j];
                }
                assert forall|x: u32| pre.contains(x) implies sorted.contains(x) by {
                    assert(pre.to_multiset().count(x) > 0);
                    assert(sorted.to_multiset().count(x) > 0);
                }
            }
            let len = answers.len();
            let mut i: usize = 0;
            while i < len
                invariant
                    self.wf(),
                    n == self.codes@.len(),
                    len == sorted.len(),
                    answers@.len() == len,
                    n_out <= i <= len,
                    forall|j: int| 0 <= j < sorted.len() ==> #[trigger] sorted[j] < n,
                    forall|j: int, l: int| 0 <= j < l < sorted.len() ==> sorted[j] <= sorted[l],
                    forall|j: int| i <= j < len ==> #[trigger] answers@[j] == sorted[j],
                    i > 0 ==> answers@[i - 1] == sorted[i - 1],
                    strictly_ascending(answers@.subrange(0, n_out as int)),
                    n_out > 0 ==> answers@[n_out - 1] <= sorted[i - 1],
                    forall|j: int|
                        0 <= j < n_out ==> #[trigger] answers@[j] < n && spec_hamdist(
                            self.codes@[answers@[j] as int],
                            qcode,
                        ) <= radius,
                    forall|j: int|
                        0 <= j < i && spec_hamdist(self.codes@[sorted[j] as int], qcode) <= radius
                            ==> #[trigger] answers@.subrange(0, n_out as int).contains(sorted[j]),
                decreases len - i,
            {
                let ghost old_ans = answers@;
                let ghost old_n = n_out;
                if i == 0 || answers[i - 1] != answers[i] {
                    let id = answers[i];
                    let dist = hamdist(qcode, self.codes[id as usize]);
                    proof {
                        crate::codeint::lemma_hamdist_bound(qcode, self.codes@[id as int]);
                    }
                    if dist <= radius {
                        answers.set(n_out, id);
                        n_out += 1;
                        proof {
                            assert forall|x: int, y: int| 0 <= x < y < n_out implies answers@.subrange(0, n_out as int)[x]
                                < answers@.subrange(0, n_out as int)[y] by {
                                assert(answers@[x] == old_ans[x]);
                                if y == n_out - 1 {
                                    assert(i > 0);
                                    assert(sorted[i - 1] <= sorted[i as int]);
                                    assert(old_ans[i - 1] != old_ans[i as int]);
                                    if x < old_n - 1 {
                                        assert(old_ans.subrange(0, old_n as int)[x] < old_ans.subrange(0, old_n as int)[old_n - 1]);
                                    }
                                } else {
                                    assert(answers@[y] == old_ans[y]);
                                    assert(old_ans.subrange(0, old_n as int)[x] < old_ans.subrange(0, old_n as int)[y]);
                                }
                            }
                        }
                    }
                }
                proof {
                    assert forall|j: int|
                        0 <= j < i + 1 && spec_hamdist(self.codes@[sorted[j] as int], qcode) <= radius
                            implies #[trigger] answers@.subrange(0, n_out as int).contains(sorted[j]) by {
                        if j < i {
                            assert(old_ans.subrange(0, old_n as int).contains(sorted[j]));
                            let p = choose|p: int| 0 <= p < old_n && old_ans.subrange(0, old_n as int)[p] == sorted[j];
                            assert(answers@.subrange(0, n_out as int)[p] == sorted[j]);
                        } else if i > 0 && sorted[i - 1] == sorted[i as int] {
                            assert(old_ans.subrange(0, old_n as int).contains(sorted[i - 1]));
                            let p = choose|p: int| 0 <= p < old_n && old_ans.subrange(0, old_n as int)[p] == sorted[i - 1];
                            assert(answers@.subrange(0, n_out as int)[p] == sorted[j]);
                        } else {
                            crate::codeint::lemma_hamdist_bound(qcode, self.codes@[sorted[j] as int]);
                            assert(answers@.subrange(0, n_out as int)[n_out - 1] == sorted[j]);
                        }
                    }
                }
                i += 1;
            }
            proof {
                assert forall|id: int| 0 <= id < n && spec_hamdist(self.codes@[id], qcode) <= radius implies answers@.subrange(
                    0,
                    n_out as int,
                ).contains(id as u32) by {
                    assert(pre.contains(id as u32));
                    assert(sorted.contains(id as u32));
                    let j = choose|j: int| 0 <= j < sorted.len() && sorted[j] == id as u32;
                    assert(answers@.subrange(0, n_out as int).contains(sorted[j]));
                }
            }
        }
        answers.truncate(n_out);
        proof {
            if cands.len() == 0 {
                assert forall|id: int| 0 <= id < n implies !(spec_hamdist(self.codes@[id], qcode) <= radius) by {
                    if spec_hamdist(self.codes@[id], qcode) <= radius {
                        assert(cands.contains(id as u32));
                    }
                }
            }
            assert(answers@ =~= answers@.subrange(0, n_out as int));
            lemma_ascending_unique(answers@, self.codes@, qcode, radius as nat, n);
        }
    }

    proof fn lemma_block_dist_le(q: T, c: T, i: int, m: nat)
        requires
            2 <= m <= T::spec_dimensions() <= 64,
            0 <= i < m,
        ensures
            block_dist(q, c, i, m) <= width(i, T::spec_dimensions(), m),
    {
        let b = T::spec_dimensions();
        lemma_blocks(b, m);
        let x = chunk(q.spec_word(), beg(i, b, m), width(i, b, m)) ^ chunk(c.spec_word(), beg(i, b, m), width(i, b, m));
        crate::blocks::lemma_chunk_bound(q.spec_word(), beg(i, b, m), width(i, b, m));
        crate::blocks::lemma_chunk_bound(c.spec_word(), beg(i, b, m), width(i, b, m));
        crate::bits::lemma_lt_fits(chunk(q.spec_word(), beg(i, b, m), width(i, b, m)), width(i, b, m));
        crate::bits::lemma_lt_fits(chunk(c.spec_word(), beg(i, b, m), width(i, b, m)), width(i, b, m));
        crate::bits::lemma_fits_xor(
            chunk(q.spec_word(), beg(i, b, m), width(i, b, m)),
            chunk(c.spec_word(), beg(i, b, m), width(i, b, m)),
            width(i, b, m),
        );
        crate::bits::lemma_popcount_fits(x, width(i, b, m));
    }

    /// Checks every id whose block `b` is exactly `r` bits from the query's block: each
    /// one not yet checked is flagged, counted at its distance, and kept in that
    /// distance's row while the row has room.
    fn visit(
        &self,
        qcode: T,
        b: usize,
        r: usize,
        k: usize,
        siggen: &mut SigGenerator64,
        checked: &mut Vec<bool>,
        touched: &mut Vec<u32>,
        counts: &mut Vec<usize>,
        rows: &mut Vec<Vec<u32>>,
    )
        requires
            self.wf(),
            b < self.spec_num_blocks(),
            k <= self.spec_codes().len(),
            topk_state(self.spec_codes(), qcode, k as nat, T::spec_dimensions(), old(checked)@, old(touched)@, old(counts)@, old(rows)@),
            rows_ordered(self.spec_codes(), qcode, self.spec_num_blocks(), T::spec_dimensions(), old(checked)@, old(rows)@),
            forall|u: int|
                0 <= u < self.spec_codes().len() ==> (#[trigger] old(checked)@[u] <==> met_before(
                    qcode,
                    self.spec_codes()[u],
                    self.spec_num_blocks(),
                    r as int,
                    b as int,
                )),
        ensures
            topk_state(self.spec_codes(), qcode, k as nat, T::spec_dimensions(), final(checked)@, final(touched)@, final(counts)@, final(rows)@),
            rows_ordered(self.spec_codes(), qcode, self.spec_num_blocks(), T::spec_dimensions(), final(checked)@, final(rows)@),
            forall|u: int|
                0 <= u < self.spec_codes().len() ==> (#[trigger] final(checked)@[u] <==> met_before(
                    qcode,
                    self.spec_codes()[u],
                    self.spec_num_blocks(),
                    r as int,
                    b as int + 1,
                )),
            forall|u: int| 0 <= u < self.spec_codes().len() && old(checked)@[u] ==> #[trigger] final(checked)@[u],
            forall|u: int|
                0 <= u < self.spec_codes().len() && #[trigger] block_dist(qcode, self.spec_codes()[u], b as int, self.spec_num_blocks())
                    == r ==> final(checked)@[u],
            forall|t: int|
                0 <= t <= T::spec_dimensions() && (forall|u: int|
                    0 <= u < self.spec_codes().len() && spec_hamdist(self.spec_codes()[u], qcode) == t ==> old(checked)@[u])
                    ==> #[trigger] final(counts)@[t] == old(counts)@[t],
    {
        let ghost codes = self.codes@;
        let ghost ncodes = codes.len();
        let ghost dims = T::spec_dimensions();
        let ghost ch_start = checked@;
        let ghost counts_start = counts@;
        let dim = self.get_dim(b);
        let ghost m = self.spec_num_blocks();
        if r > dim {
            proof {
                assert forall|u: int| 0 <= u < ncodes && #[trigger] block_dist(qcode, codes[u], b as int, self.spec_num_blocks()) == r
                    implies checked@[u] by {
                    Self::lemma_block_dist_le(qcode, codes[u], b as int, self.spec_num_blocks());
                }
                assert forall|u: int| 0 <= u < ncodes implies (#[trigger] checked@[u] <==> met_before(
                    qcode,
                    codes[u],
                    m,
                    r as int,
                    b as int + 1,
                )) by {
                    lemma_step(qcode, codes[u], m);
                    if step_r(qcode, codes[u], m) == r && step_b(qcode, codes[u], m) == b {
                        Self::lemma_block_dist_le(qcode, codes[u], b as int, m);
                    }
                }
            }
            return;
        }
        let mut cands: Vec<u32> = Vec::new();
        self.probe(qcode, b, r, siggen, &mut cands);
        let mut t: usize = 0;
        while t < cands.len()
            invariant
                self.wf(),
                codes == self.codes@,
                ncodes == codes.len(),
                dims == T::spec_dimensions(),
                k <= ncodes,
                t <= cands@.len(),
                forall|j: int| 0 <= j < cands@.len() ==> #[trigger] cands@[j] < ncodes,
                forall|u: int|
                    0 <= u < ncodes && #[trigger] block_dist(qcode, codes[u], b as int, self.spec_num_blocks()) == r
                        ==> cands@.contains(u as u32),
                topk_state(codes, qcode, k as nat, dims, checked@, touched@, counts@, rows@),
                forall|u: int| 0 <= u < ncodes && ch_start[u] ==> #[trigger] checked@[u],
                forall|j: int| 0 <= j < t ==> #[trigger] checked@[cands@[j] as int],
                m == self.spec_num_blocks(),
                b < m,
                rows_ordered(codes, qcode, m, dims, checked@, rows@),
                forall|u: int| 0 <= u < ncodes ==> (#[trigger] ch_start[u] <==> met_before(qcode, codes[u], m, r as int, b as int)),
                forall|u: int| 0 <= u < ncodes && #[trigger] checked@[u] && !ch_start[u] ==> exists|i: int| 0 <= i < t && cands@[i] == u as u32,
                forall|j: int| 0 <= j < cands@.len() ==> block_dist(qcode, codes[#[trigger] cands@[j] as int], b as int, m) == r,
                forall|i: int, j: int| 0 <= i < j < cands@.len() ==> probe_lt(codes, qcode, b as int, m, #[trigger] cands@[i], #[trigger] cands@[j]),
                forall|x: int|
                    0 <= x <= dims && (forall|u: int| 0 <= u < ncodes && spec_hamdist(codes[u], qcode) == x ==> ch_start[u])
                        ==> #[trigger] counts@[x] == counts_start[x],
            decreases cands@.len() - t,
        {
            let id = cands[t];
            if !checked[id as usize] {
                let ghost ch0 = checked@;
                let ghost rows0 = rows@;
                let ghost touched0 = touched@;
                let ghost counts0 = counts@;
                proof {
                    Self::lemma_new_step(qcode, codes[id as int], m, r as int, b as int);
                    assert forall|w: int| 0 <= w < ncodes && #[trigger] ch0[w] implies obs_lt(codes, qcode, m, w as u32, id) by {
                        lemma_step(qcode, codes[w], m);
                        if !ch_start[w] {
                            let i = choose|i: int| 0 <= i < t && cands@[i] == w as u32;
                            Self::lemma_new_step(qcode, codes[w], m, r as int, b as int);
                            assert(probe_lt(codes, qcode, b as int, m, cands@[i], cands@[t as int]));
                        }
                    }
                }
                checked.set(id as usize, true);
                touched.push(id);
                proof {
                    lemma_count_true_set(ch0, id as int);
                    lemma_count_true_le(checked@);
                }
                let dist = hamdist(qcode, self.codes[id as usize]);
                proof {
                    crate::codeint::lemma_hamdist_bound(qcode, self.codes@[id as int]);
                    crate::codeint::lemma_hamdist_bound(self.codes@[id as int], qcode);
                }
                if counts[dist] < k {
                    proof {
                        let row = rows@[dist as int]@;
                        assert(!row.contains(id)) by {
                            if row.contains(id) {
                                let j = choose|j: int| 0 <= j < row.len() && row[j] == id;
                                assert(rows0[dist as int]@[j] == id);
                            }
                        }
                    }
                    rows[dist].push(id);
                }
                counts.set(dist, counts[dist] + 1);
                proof {
                    lemma_csum_update(counts0, dist as int, (counts0[dist as int] + 1) as usize, dims as int + 1);
                    assert forall|v: int| 0 <= v < ncodes implies (#[trigger] checked@[v] <==> touched@.contains(v as u32)) by {
                        if v == id as int {
                            assert(touched@[touched@.len() - 1] == id);
                        } else {
                            if touched@.contains(v as u32) {
                                let j = choose|j: int| 0 <= j < touched@.len() && touched@[j] == v as u32;
                                assert(touched0[j] == v as u32);
                            }
                            if touched0.contains(v as u32) {
                                let j = choose|j: int| 0 <= j < touched0.len() && touched0[j] == v as u32;
                                assert(touched@[j] == v as u32);
                            }
                        }
                    }
                    assert forall|x: int, j: int| 0 <= x <= dims && 0 <= j < rows@[x]@.len() implies (#[trigger] rows@[x]@[j]) < ncodes
                        && checked@[rows@[x]@[j] as int] && spec_hamdist(codes[rows@[x]@[j] as int], qcode) == x by {
                        if x != dist || j < rows0[x]@.len() {
                            assert(rows@[x]@[j] == rows0[x]@[j]);
                        }
                    }
                    assert forall|x: int| 0 <= x <= dims implies (#[trigger] rows@[x]@).no_duplicates() by {
                        if x != dist {
                            assert(rows@[x] == rows0[x]);
                        }
                    }
                    assert forall|x: int| 0 <= x <= dims implies #[trigger] rows@[x]@.len() == min_nat(counts@[x] as nat, k as nat) by {
                        if x != dist {
                            assert(rows@[x] == rows0[x]);
                        }
                    }
                    assert forall|u: int|
                        0 <= u < ncodes && checked@[u] && counts@[spec_hamdist(codes[u], qcode) as int] <= k implies #[trigger] rows@[spec_hamdist(
                        codes[u],
                        qcode,
                    ) as int]@.contains(u as u32) by {
                        let du = spec_hamdist(codes[u], qcode) as int;
                        crate::codeint::lemma_hamdist_bound(codes[u], qcode);
                        if u == id as int {
                            assert(rows@[du]@[rows@[du]@.len() - 1] == id);
                        } else {
                            assert(ch0[u]);
                            assert(rows0[du]@.contains(u as u32));
                            let j = choose|j: int| 0 <= j < rows0[du]@.len() && rows0[du]@[j] == u as u32;
                            assert(rows@[du]@[j] == u as u32);
                        }
                    }
                    assert forall|x: int|
                        0 <= x <= dims && (forall|u: int| 0 <= u < ncodes && spec_hamdist(codes[u], qcode) == x ==> ch_start[u])
                            implies #[trigger] counts@[x] == counts_start[x] by {
                        if x == dist {
                            assert(spec_hamdist(codes[id as int], qcode) == x);
                            assert(ch_start[id as int]);
                        }
                    }
                    assert forall|x: int| 0 <= x <= dims implies #[trigger] counts@[x] <= touched@.len() by {}
                    assert forall|x: int, i: int, j: int|
                        0 <= x <= dims && 0 <= i < j < rows@[x]@.len() implies obs_lt(codes, qcode, m, #[trigger] rows@[x]@[i], #[trigger] rows@[x]@[j]) by {
                        if x != dist || j < rows0[x]@.len() {
                            assert(rows@[x]@[i] == rows0[x]@[i] && rows@[x]@[j] == rows0[x]@[j]);
                        } else {
                            assert(rows@[x]@[i] == rows0[x]@[i]);
                            assert(ch0[rows0[x]@[i] as int]);
                        }
                    }
                    assert forall|x: int, j: int, u: int|
                        #![trigger rows@[x]@[j], codes[u]]
                        0 <= x <= dims && 0 <= j < rows@[x]@.len() && 0 <= u < codes.len() && checked@[u] && spec_hamdist(codes[u], qcode) == x
                            && obs_lt(codes, qcode, m, u as u32, rows@[x]@[j]) implies rows@[x]@.contains(u as u32) by {
                        crate::codeint::lemma_hamdist_bound(codes[u], qcode);
                        if x != dist || j < rows0[x]@.len() {
                            assert(rows@[x]@[j] == rows0[x]@[j]);
                            let v = rows0[x]@[j];
                            assert(ch0[v as int]);
                            if u == id as int {
                                assert(obs_lt(codes, qcode, m, v, id));
                            } else {
                                assert(ch0[u]);
                                assert(rows0[x]@.contains(u as u32));
                                let p = choose|p: int| 0 <= p < rows0[x]@.len() && rows0[x]@[p] == u as u32;
                                assert(rows@[x]@[p] == u as u32);
                            }
                        } else {
                            if u == id as int {
                                assert(rows@[x]@[j] == id);
                            } else {
                                assert(ch0[u]);
                                assert(counts0[x] < k);
                                assert(rows0[x]@.contains(u as u32));
                                let p = choose|p: int| 0 <= p < rows0[x]@.len() && rows0[x]@[p] == u as u32;
                                assert(rows@[x]@[p] == u as u32);
                            }
                        }
                    }
                    assert forall|u: int| 0 <= u < ncodes && #[trigger] checked@[u] && !ch_start[u] implies exists|i: int|
                        0 <= i < t + 1 && cands@[i] == u as u32 by {
                        if u != id as int {
                            assert(ch0[u]);
                            let i = choose|i: int| 0 <= i < t && cands@[i] == u as u32;
                        } else {
                            assert(cands@[t as int] == u as u32);
                        }
                    }
                }
            }
            t += 1;
        }
        proof {
            assert forall|u: int| 0 <= u < ncodes implies (#[trigger] checked@[u] <==> met_before(
                qcode,
                codes[u],
                m,
                r as int,
                b as int + 1,
            )) by {
                lemma_step(qcode, codes[u], m);
                if checked@[u] && !ch_start[u] {
                    let i = choose|i: int| 0 <= i < t && cands@[i] == u as u32;
                    assert(block_dist(qcode, codes[u], b as int, m) == r);
                    lemma_first_block(qcode, codes[u], m, step_r(qcode, codes[u], m), 0, b as int);
                }
                if met_before(qcode, codes[u], m, r as int, b as int + 1) && !ch_start[u] {
                    assert(step_b(qcode, codes[u], m) == b);
                    assert(block_dist(qcode, codes[u], b as int, m) == r);
                    assert(cands@.contains(u as u32));
                    let j = choose|j: int| 0 <= j < cands@.len() && cands@[j] == u as u32;
                    assert(checked@[cands@[j] as int]);
                }
            }
        }
        proof {
            assert forall|u: int| 0 <= u < ncodes && #[trigger] block_dist(qcode, codes[u], b as int, self.spec_num_blocks()) == r
                implies checked@[u] by {
                let j = choose|j: int| 0 <= j < cands@.len() && cands@[j] == u as u32;
            }
        }
    }

    /// A code `r` bits away in block `b` and not met before step `(r, b)` is met at it.
    proof fn lemma_new_step(q: T, c: T, m: nat, r: int, b: int)
        requires
            1 <= m,
            0 <= b < m,
            block_dist(q, c, b, m) == r,
            !met_before(q, c, m, r, b),
        ensures
            step_r(q, c, m) == r,
            step_b(q, c, m) == b,
    {
        lemma_step(q, c, m);
        lemma_first_block(q, c, m, r as nat, 0, b);
    }

    /// Finds the `topk` ids closest to `qcode` (all of them when there are fewer), by
    /// non-decreasing distance, into `answers`. `checked` flags the ids already seen; it
    /// starts and ends all clear.
    fn topk_core(
        &self,
        qcode: T,
        topk: usize,
        siggen: &mut SigGenerator64,
        checked: &mut Vec<bool>,
        answers: &mut Vec<u32>,
    )
        requires
            self.wf(),
            old(checked)@.len() == self.spec_codes().len(),
            forall|v: int| 0 <= v < old(checked)@.len() ==> !#[trigger] old(checked)@[v],
        ensures
            final(checked)@.len() == self.spec_codes().len(),
            forall|v: int| 0 <= v < final(checked)@.len() ==> !#[trigger] final(checked)@[v],
            topk_result(self.spec_codes(), qcode, self.spec_num_blocks(), topk as nat, final(answers)@),
    {
        let ncodes = self.codes.len();
        let k = if topk < ncodes {
            topk
        } else {
            ncodes
        };
        let num_blocks = self.num_blocks;
        let dims = T::dimensions();
        let ghost codes = self.codes@;
        let ghost m = self.spec_num_blocks();
        let mut counts: Vec<usize> = Vec::new();
        let mut rows: Vec<Vec<u32>> = Vec::new();
        let mut d: usize = 0;
        while d <= dims
            invariant
                d <= dims + 1,
                dims <= 64,
                counts@.len() == d,
                rows@.len() == d,
                forall|x: int| 0 <= x < d ==> #[trigger] counts@[x] == 0,
                forall|x: int| 0 <= x < d ==> #[trigger] rows@[x]@.len() == 0,
            decreases dims + 1 - d,
        {
            counts.push(0);
            rows.push(Vec::new());
            d += 1;
        }
        let mut touched: Vec<u32> = Vec::new();
        let mut n: usize = 0;
        let mut r: usize = 0;
        let ghost mut dstar: int = -1;
        proof {
            lemma_count_true_zero(checked@);
            lemma_csum_zero(counts@, dims as int + 1);
            assert forall|x: int| 0 <= x <= dims implies (#[trigger] rows@[x]@).no_duplicates() by {}
            assert forall|x: int| 0 <= x <= dims implies #[trigger] rows@[x]@.len() == min_nat(counts@[x] as nat, k as nat) by {}
            assert(topk_state(codes, qcode, k as nat, dims as nat, checked@, touched@, counts@, rows@));
            assert forall|u: int| 0 <= u < ncodes implies (#[trigger] checked@[u] <==> met_before(qcode, codes[u], m, 0, 0)) by {
                lemma_step(qcode, codes[u], m);
            }
        }
        while n < k && r <= dims
            invariant
                self.wf(),
                codes == self.codes@,
                ncodes == codes.len(),
                m == num_blocks,
                num_blocks == self.spec_num_blocks(),
                dims == T::spec_dimensions(),
                dims <= 64,
                k == if topk < ncodes { topk } else { ncodes },
                n <= k,
                r <= dims + 1,
                topk_state(codes, qcode, k as nat, dims as nat, checked@, touched@, counts@, rows@),
                n < k ==> explored(codes, qcode, m, r as int, 0, checked@),
                n < k ==> n == min_nat(k as nat, csum(counts@, min_int(r * m, dims + 1))),
                n < k ==> forall|u: int| 0 <= u < ncodes ==> (#[trigger] checked@[u] <==> met_before(qcode, codes[u], m, r as int, 0)),
                rows_ordered(codes, qcode, m, dims as nat, checked@, rows@),
                n == k ==> summary(codes, qcode, k as nat, dstar, dims as nat, checked@, counts@),
            decreases dims + 1 - r,
        {
            let mut b: usize = 0;
            while b < num_blocks
                invariant_except_break
                    n < k,
                    explored(codes, qcode, m, r as int, b as int, checked@),
                    n == min_nat(k as nat, csum(counts@, min_int(r * m + b, dims + 1))),
                    forall|u: int| 0 <= u < ncodes ==> (#[trigger] checked@[u] <==> met_before(qcode, codes[u], m, r as int, b as int)),
                invariant
                    self.wf(),
                    codes == self.codes@,
                    ncodes == codes.len(),
                    m == num_blocks,
                    num_blocks == self.spec_num_blocks(),
                    dims == T::spec_dimensions(),
                    dims <= 64,
                    k == if topk < ncodes { topk } else { ncodes },
                    n <= k,
                    r <= dims,
                    b <= num_blocks,
                    topk_state(codes, qcode, k as nat, dims as nat, checked@, touched@, counts@, rows@),
                    n == k ==> summary(codes, qcode, k as nat, dstar, dims as nat, checked@, counts@),
                    rows_ordered(codes, qcode, m, dims as nat, checked@, rows@),
                ensures
                    rows_ordered(codes, qcode, m, dims as nat, checked@, rows@),
                    n < k ==> forall|u: int| 0 <= u < ncodes ==> (#[trigger] checked@[u] <==> met_before(qcode, codes[u], m, r as int, m as int)),
                    n <= k,
                    topk_state(codes, qcode, k as nat, dims as nat, checked@, touched@, counts@, rows@),
                    n == k ==> summary(codes, qcode, k as nat, dstar, dims as nat, checked@, counts@),
                    n < k ==> b == num_blocks,
                    n < k ==> explored(codes, qcode, m, r as int, m as int, checked@),
                    n < k ==> n == min_nat(k as nat, csum(counts@, min_int(r * m + m, dims + 1))),
                decreases num_blocks - b,
            {
                let ghost ch0 = checked@;
                let ghost counts0 = counts@;
                proof {
                    assert(r * num_blocks <= 64 * 64) by (nonlinear_arith)
                        requires
                            r <= 64,
                            num_blocks <= 64,
                    ;
                    Self::lemma_explored_checked(codes, qcode, m, r as int, b as int, checked@);
                }
                self.visit(qcode, b, r, k, siggen, checked, &mut touched, &mut counts, &mut rows);
                proof {
                    let lim = min_int(r * m + b, dims + 1);
                    assert forall|x: int| 0 <= x < lim implies #[trigger] counts@[x] == counts0[x] by {
                        assert forall|u: int| 0 <= u < ncodes && spec_hamdist(codes[u], qcode) == x implies ch0[u] by {
                            crate::codeint::lemma_hamdist_bound(codes[u], qcode);
                        }
                    }
                    {
                        lemma_csum_same(counts0, counts@, lim);
                        assert forall|u: int, i: int|
                            0 <= u < ncodes && 0 <= i < m && (#[trigger] block_dist(qcode, codes[u], i, m) < r || (block_dist(
                                qcode,
                                codes[u],
                                i,
                                m,
                            ) == r && i < b + 1)) implies checked@[u] by {
                            if block_dist(qcode, codes[u], i, m) < r || i < b {
                                assert(ch0[u]);
                            }
                        }
                        assert(explored(codes, qcode, m, r as int, b as int + 1, checked@));
                    }
                }
                if r * num_blocks + b <= dims {
                    let c = counts[r * num_blocks + b];
                    if c >= k - n {
                        n = k;
                    } else {
                        n = n + c;
                    }
                } else {
                    proof {
                        {
                            assert forall|x: int| 0 <= x <= dims implies #[trigger] counts@[x] == counts0[x] by {
                                assert forall|u: int| 0 <= u < ncodes && spec_hamdist(codes[u], qcode) == x implies ch0[u] by {
                                    crate::codeint::lemma_hamdist_bound(codes[u], qcode);
                                }
                            }
                        }
                    }
                }
                proof {
                    if n == k {
                        dstar = r * m + b;
                        assert(summary(codes, qcode, k as nat, dstar, dims as nat, checked@, counts@)) by {
                            Self::lemma_explored_checked(codes, qcode, m, r as int, b as int + 1, checked@);
                        }
                    }
                }
                if k <= n {
                    break;
                }
                b += 1;
            }
            proof {
                if n < k {
                    assert forall|u: int| 0 <= u < ncodes implies (#[trigger] checked@[u] <==> met_before(qcode, codes[u], m, r + 1, 0)) by {
                        lemma_step(qcode, codes[u], m);
                    }
                    assert forall|u: int, i: int|
                        0 <= u < ncodes && 0 <= i < m && (#[trigger] block_dist(qcode, codes[u], i, m) < r + 1 || (block_dist(
                            qcode,
                            codes[u],
                            i,
                            m,
                        ) == r + 1 && i < 0)) implies checked@[u] by {
                    }
                    assert((r + 1) * m == r * m + m) by (nonlinear_arith);
                }
            }
            r += 1;
        }
        proof {
            if n < k {
                Self::lemma_explored_checked(codes, qcode, m, r as int, 0, checked@);
                assert forall|u: int| 0 <= u < ncodes implies #[trigger] checked@[u] by {
                    crate::codeint::lemma_hamdist_bound(codes[u], qcode);
                    assert(r * m >= dims + 1) by (nonlinear_arith)
                        requires
                            r == dims + 1,
                            m >= 1,
                    ;
                }
                lemma_count_true_all(checked@);
                assert(r * m >= dims + 1) by (nonlinear_arith)
                    requires
                        r == dims + 1,
                        m >= 1,
                ;
                assert(min_int(r * m, dims + 1) == dims + 1);
                assert(csum(counts@, dims + 1) == ncodes);
            }
            assert(n == k);
        }
        self.assemble(qcode, topk, k, Ghost(dstar), checked, &touched, &counts, &rows, answers);
        let mut t: usize = 0;
        while t < touched.len()
            invariant
                ncodes == self.codes@.len(),
                ncodes <= u32::MAX,
                checked@.len() == ncodes,
                t <= touched@.len(),
                forall|j: int| 0 <= j < touched@.len() ==> #[trigger] touched@[j] < ncodes,
                forall|v: int| 0 <= v < ncodes ==> #[trigger] checked@[v] ==> exists|j: int| t <= j < touched@.len() && touched@[j] == v as u32,
            decreases touched@.len() - t,
        {
            let ghost ch0 = checked@;
            checked.set(touched[t] as usize, false);
            proof {
                assert forall|v: int| 0 <= v < ncodes implies #[trigger] checked@[v] ==> exists|j: int| t + 1 <= j < touched@.len() && touched@[j] == v as u32 by {
                    if checked@[v] {
                        assert(v != touched@[t as int] as int);
                        assert(ch0[v]);
                        let j = choose|j: int| t <= j < touched@.len() && touched@[j] == v as u32;
                        assert(j != t);
                    }
                }
            }
            t += 1;
        }
    }

    /// Once the blocks below `b` were searched up to `r` bits and the others up to
    /// `r - 1`, every id closer than `r * m + b` bits to the query has been checked.
    proof fn lemma_explored_checked(codes: Seq<T>, q: T, m: nat, r: int, b: int, checked: Seq<bool>)
        requires
            2 <= m <= T::spec_dimensions() <= 64,
            0 <= r,
            0 <= b <= m,
            checked.len() == codes.len(),
            explored(codes, q, m, r, b, checked),
        ensures
            forall|u: int| 0 <= u < codes.len() && spec_hamdist(codes[u], q) < r * m + b ==> #[trigger] checked[u],
    {
        let dims = T::spec_dimensions();
        assert forall|u: int| 0 <= u < codes.len() && spec_hamdist(codes[u], q) < r * m + b implies #[trigger] checked[u] by {
            if !checked[u] {
                T::lemma_word_fits(q);
                T::lemma_word_fits(codes[u]);
                crate::codeint::lemma_hamdist_bound(codes[u], q);
                assert forall|i: int| 0 <= i < b implies #[trigger] popcount(
                    chunk(q.spec_word(), beg(i, dims, m), width(i, dims, m)) ^ chunk(codes[u].spec_word(), beg(i, dims, m), width(i, dims, m)),
                ) >= r + 1 by {
                    assert(!(block_dist(q, codes[u], i, m) < r || (block_dist(q, codes[u], i, m) == r && i < b)));
                }
                assert forall|i: int| b <= i < m implies #[trigger] popcount(
                    chunk(q.spec_word(), beg(i, dims, m), width(i, dims, m)) ^ chunk(codes[u].spec_word(), beg(i, dims, m), width(i, dims, m)),
                ) >= r by {
                    assert(!(block_dist(q, codes[u], i, m) < r));
                }
                crate::blocks::lemma_pigeonhole_sweep(q.spec_word(), codes[u].spec_word(), dims, m, r as nat, b as nat);
            }
        }
    }

    /// Takes the rows in order of distance until `k` ids are taken.
    fn assemble(
        &self,
        qcode: T,
        topk: usize,
        k: usize,
        dstar: Ghost<int>,
        checked: &Vec<bool>,
        touched: &Vec<u32>,
        counts: &Vec<usize>,
        rows: &Vec<Vec<u32>>,
        answers: &mut Vec<u32>,
    )
        requires
            self.wf(),
            k == if topk < self.spec_codes().len() { topk } else { self.spec_codes().len() as usize },
            topk_state(self.spec_codes(), qcode, k as nat, T::spec_dimensions(), checked@, touched@, counts@, rows@),
            summary(self.spec_codes(), qcode, k as nat, dstar@, T::spec_dimensions(), checked@, counts@),
            rows_ordered(self.spec_codes(), qcode, self.spec_num_blocks(), T::spec_dimensions(), checked@, rows@),
        ensures
            topk_result(self.spec_codes(), qcode, self.spec_num_blocks(), topk as nat, final(answers)@),
    {
        let ghost codes = self.codes@;
        let ghost ncodes = codes.len();
        let dims = T::dimensions();
        let ghost ds = dstar@;
        let ghost m = self.spec_num_blocks();
        proof {
            lemma_rsum_lower(rows@, counts@, k as nat, ds + 1);
        }
        answers.clear();
        let mut d: usize = 0;
        while answers.len() < k && d <= dims
            invariant
                codes == self.codes@,
                ncodes == codes.len(),
                k <= ncodes,
                d <= dims + 1,
                dims == T::spec_dimensions(),
                dims <= 64,
                -1 <= ds <= dims,
                topk_state(codes, qcode, k as nat, dims as nat, checked@, touched@, counts@, rows@),
                summary(codes, qcode, k as nat, ds, dims as nat, checked@, counts@),
                rsum(rows@, ds + 1) >= k,
                answers@.len() <= k,
                answers@.len() < k ==> answers@.len() == rsum(rows@, d as int),
                answers@.len() < k ==> forall|t: int, x: u32| 0 <= t < d && #[trigger] rows@[t]@.contains(x) ==> answers@.contains(x),
                answers@.no_duplicates(),
                forall|j: int| 0 <= j < answers@.len() ==> #[trigger] answers@[j] < ncodes && spec_hamdist(
                    codes[answers@[j] as int],
                    qcode,
                ) < d,
                by_distance(codes, qcode, answers@),
                forall|j: int, u: int|
                    #![trigger answers@[j], codes[u]]
                    0 <= j < answers@.len() && 0 <= u < ncodes && spec_hamdist(codes[u], qcode) < spec_hamdist(
                        codes[answers@[j] as int],
                        qcode,
                    ) ==> answers@.contains(u as u32),
                forall|i: int, j: int|
                    0 <= i < j < answers@.len() && spec_hamdist(codes[answers@[i] as int], qcode) == spec_hamdist(
                        codes[answers@[j] as int],
                        qcode,
                    ) ==> obs_lt(codes, qcode, m, #[trigger] answers@[i], #[trigger] answers@[j]),
                forall|j: int, u: int|
                    #![trigger answers@[j], codes[u]]
                    0 <= j < answers@.len() && 0 <= u < ncodes && spec_hamdist(codes[u], qcode) == spec_hamdist(
                        codes[answers@[j] as int],
                        qcode,
                    ) && obs_lt(codes, qcode, m, u as u32, answers@[j]) ==> answers@.contains(u as u32),
                m == self.spec_num_blocks(),
                rows_ordered(codes, qcode, m, dims as nat, checked@, rows@),
            decreases dims + 1 - d,
        {
            proof {
                if d > ds {
                    lemma_rsum_mono(rows@, ds + 1, d as int);
                }
                assert(d <= ds);
                assert forall|u: int| 0 <= u < ncodes && spec_hamdist(codes[u], qcode) < d implies answers@.contains(u as u32) by {
                    let t = spec_hamdist(codes[u], qcode) as int;
                    assert(checked@[u]);
                    lemma_rsum_row(rows@, t, d as int);
                    assert(rows@[t]@.len() < k);
                    assert(counts@[t] <= k);
                    assert(rows@[t]@.contains(u as u32));
                }
            }
            let row = &rows[d];
            let mut i: usize = 0;
            let ghost a0 = answers@;
            proof {
                assert forall|u: int|
                    0 <= u < ncodes && spec_hamdist(codes[u], qcode) == d && checked@[u] implies (forall|l: int|
                        0 <= l < row@.len() && obs_lt(codes, qcode, m, u as u32, #[trigger] row@[l]) ==> row@.contains(u as u32)) by {
                    assert forall|l: int| 0 <= l < row@.len() && obs_lt(codes, qcode, m, u as u32, #[trigger] row@[l]) implies row@.contains(
                        u as u32,
                    ) by {
                        assert(rows@[d as int]@[l] == row@[l]);
                    }
                }
            }
            while i < row.len() && answers.len() < k
                invariant
                    codes == self.codes@,
                    ncodes == codes.len(),
                    k <= ncodes,
                    d <= dims,
                    row@ == rows@[d as int]@,
                    row@.no_duplicates(),
                    forall|j: int| 0 <= j < row@.len() ==> (#[trigger] row@[j]) < ncodes
                        && spec_hamdist(codes[row@[j] as int], qcode) == d,
                    i <= row@.len(),
                    answers@.len() <= k,
                    answers@.len() == a0.len() + i,
                    answers@.subrange(0, a0.len() as int) == a0,
                    forall|j: int| 0 <= j < i ==> #[trigger] answers@[a0.len() + j] == row@[j],
                    a0.no_duplicates(),
                    forall|j: int| 0 <= j < a0.len() ==> #[trigger] a0[j] < ncodes && spec_hamdist(codes[a0[j] as int], qcode) < d,
                    forall|u: int| 0 <= u < ncodes && spec_hamdist(codes[u], qcode) < d ==> a0.contains(u as u32),
                    answers@.no_duplicates(),
                    forall|j: int| 0 <= j < answers@.len() ==> #[trigger] answers@[j] < ncodes && spec_hamdist(
                        codes[answers@[j] as int],
                        qcode,
                    ) <= d,
                    by_distance(codes, qcode, answers@),
                    forall|j: int, u: int|
                        #![trigger answers@[j], codes[u]]
                        0 <= j < answers@.len() && 0 <= u < ncodes && spec_hamdist(codes[u], qcode) < spec_hamdist(
                            codes[answers@[j] as int],
                            qcode,
                        ) ==> answers@.contains(u as u32),
                    forall|i: int, j: int|
                        0 <= i < j < answers@.len() && spec_hamdist(codes[answers@[i] as int], qcode) == spec_hamdist(
                            codes[answers@[j] as int],
                            qcode,
                        ) ==> obs_lt(codes, qcode, m, #[trigger] answers@[i], #[trigger] answers@[j]),
                    forall|j: int, u: int|
                        #![trigger answers@[j], codes[u]]
                        0 <= j < answers@.len() && 0 <= u < ncodes && spec_hamdist(codes[u], qcode) == spec_hamdist(
                            codes[answers@[j] as int],
                            qcode,
                        ) && obs_lt(codes, qcode, m, u as u32, answers@[j]) ==> answers@.contains(u as u32),
                    m == self.spec_num_blocks(),
                    rows_ordered(codes, qcode, m, dims as nat, checked@, rows@),
                    forall|j: int, l: int| 0 <= j < l < row@.len() ==> obs_lt(codes, qcode, m, #[trigger] row@[j], #[trigger] row@[l]),
                    forall|u: int|
                        0 <= u < ncodes && spec_hamdist(codes[u], qcode) == d && checked@[u] ==> (forall|l: int|
                            0 <= l < row@.len() && obs_lt(codes, qcode, m, u as u32, #[trigger] row@[l]) ==> row@.contains(u as u32)),
                    d as int <= ds,
                    summary(codes, qcode, k as nat, ds, dims as nat, checked@, counts@),
                decreases row@.len() - i,
            {
                let ghost before = answers@;
                answers.push(row[i]);
                proof {
                    assert forall|j: int| 0 <= j < before.len() implies #[trigger] before[j] != row@[i as int] by {
                        if j < a0.len() {
                            assert(before[j] == a0[j]);
                        } else {
                            assert(before[a0.len() + (j - a0.len())] == row@[j - a0.len()]);
                        }
                    }
                    assert(answers@.subrange(0, a0.len() as int) =~= a0);
                    assert forall|x: int, y: int| 0 <= x < y < answers@.len() implies answers@[x] != answers@[y] by {
                        if y == answers@.len() - 1 {
                            assert(answers@[x] == before[x]);
                        } else {
                            assert(answers@[x] == before[x] && answers@[y] == before[y]);
                        }
                    }
                    assert forall|x: int, y: int| 0 <= x < y < answers@.len() implies spec_hamdist(codes[answers@[x] as int], qcode)
                        <= spec_hamdist(codes[answers@[y] as int], qcode) by {
                        if y == answers@.len() - 1 {
                            assert(answers@[x] == before[x]);
                        } else {
                            assert(answers@[x] == before[x] && answers@[y] == before[y]);
                        }
                    }
                    assert forall|x: u32| before.contains(x) implies answers@.contains(x) by {
                        let p = choose|p: int| 0 <= p < before.len() && before[p] == x;
                        assert(answers@[p] == x);
                    }
                    assert forall|x: int, y: int|
                        0 <= x < y < answers@.len() && spec_hamdist(codes[answers@[x] as int], qcode) == spec_hamdist(
                            codes[answers@[y] as int],
                            qcode,
                        ) implies obs_lt(codes, qcode, m, #[trigger] answers@[x], #[trigger] answers@[y]) by {
                        if y == answers@.len() - 1 {
                            assert(answers@[x] == before[x]);
                            if x < a0.len() {
                                assert(a0[x] == before[x]);
                            } else {
                                assert(before[a0.len() + (x - a0.len())] == row@[x - a0.len()]);
                            }
                        } else {
                            assert(answers@[x] == before[x] && answers@[y] == before[y]);
                        }
                    }
                    assert forall|j: int, u: int|
                        #![trigger answers@[j], codes[u]]
                        0 <= j < answers@.len() && 0 <= u < ncodes && spec_hamdist(codes[u], qcode) == spec_hamdist(
                            codes[answers@[j] as int],
                            qcode,
                        ) && obs_lt(codes, qcode, m, u as u32, answers@[j]) implies answers@.contains(u as u32) by {
                        if j < before.len() {
                            assert(answers@[j] == before[j]);
                            assert(before.contains(u as u32));
                        } else {
                            assert(answers@[j] == row@[i as int]);
                            assert(checked@[u]);
                            assert(row@.contains(u as u32));
                            let p = choose|p: int| 0 <= p < row@.len() && row@[p] == u as u32;
                            if p >= i {
                                if p > i {
                                    assert(obs_lt(codes, qcode, m, row@[i as int], row@[p]));
                                }
                                assert(false);
                            }
                            assert(before[a0.len() + p] == row@[p]);
                            assert(answers@[a0.len() + p] == u as u32);
                        }
                    }
                    assert forall|x: u32| a0.contains(x) implies answers@.contains(x) by {
                        let p = choose|p: int| 0 <= p < a0.len() && a0[p] == x;
                        assert(answers@[p] == x);
                    }
                    assert forall|j: int, u: int|
                        #![trigger answers@[j], codes[u]]
                        0 <= j < answers@.len() && 0 <= u < ncodes && spec_hamdist(codes[u], qcode) < spec_hamdist(
                            codes[answers@[j] as int],
                            qcode,
                        ) implies answers@.contains(u as u32) by {
                        if j < before.len() {
                            assert(answers@[j] == before[j]);
                            assert(before.contains(u as u32));
                        } else {
                            assert(a0.contains(u as u32));
                        }
                    }
                }
                i += 1;
            }
            proof {
                if answers@.len() < k {
                    assert(i == row@.len());
                    lemma_rsum_step(rows@, d as int);
                    assert forall|t: int, x: u32| 0 <= t < d + 1 && #[trigger] rows@[t]@.contains(x) implies answers@.contains(x) by {
                        if t < d {
                            assert(a0.contains(x));
                            let p = choose|p: int| 0 <= p < a0.len() && a0[p] == x;
                            assert(answers@[p] == x);
                        } else {
                            let p = choose|p: int| 0 <= p < row@.len() && row@[p] == x;
                            assert(answers@[a0.len() + p] == x);
                        }
                    }
                }
            }
            d += 1;
        }
        proof {
            if answers@.len() < k {
                lemma_rsum_mono(rows@, ds + 1, d as int);
            }
        }
    }



    /// Builds an index from binary codes.
    /// The number of blocks is the integer nearest to `b / log2(N)` for `b`-bit codes,
    /// kept within `[2, b]`.
    pub fn new(codes: Vec<T>) -> (r: Result<Self, Error>)
        ensures
            codes@.len() == 0 ==> r == Err::<Self, Error>(Error::EmptyInput),
            codes@.len() > 0 && (codes@.len() > u32::MAX || codes@.len() + 66 > usize::MAX) ==> r
                == Err::<Self, Error>(Error::TooManyCodes),
            r is Err ==> r == Err::<Self, Error>(Error::EmptyInput) || r == Err::<Self, Error>(
                Error::TooManyCodes,
            ) || r == Err::<Self, Error>(Error::InvalidTableWidth),
            0 < codes@.len() <= u32::MAX && codes@.len() + 66 <= usize::MAX ==> (r is Ok <==> pow2(
                width(
                    auto_m(codes@.len(), T::spec_dimensions()) - 1,
                    T::spec_dimensions(),
                    auto_m(codes@.len(), T::spec_dimensions()),
                ),
            ) <= usize::MAX),
            0 < codes@.len() <= u32::MAX && codes@.len() + 66 <= usize::MAX && pow2(32) <= usize::MAX
                ==> r is Ok,
            r matches Ok(ix) ==> {
                &&& ix.wf()
                &&& ix.spec_codes() == codes@
                &&& ix.spec_num_blocks() == auto_m(codes@.len(), T::spec_dimensions())
                &&& 2 <= ix.spec_num_blocks() <= T::spec_dimensions()
                &&& codes@.len() == 1 ==> ix.spec_num_blocks() == T::spec_dimensions()
                &&& codes@.len() >= 2 ==> exists|c: nat|
                    nearest_blocks(codes@.len(), T::spec_dimensions(), c) && ix.spec_num_blocks() == if c < 2 {
                        2
                    } else {
                        c
                    }
            },
    {
        let dims = T::dimensions();
        if codes.len() == 0 || (u32::MAX as usize) < codes.len() {
            return Self::with_blocks(codes, 2);
        }
        let blocks = auto_blocks(codes.len(), dims);
        proof {
            let b = T::spec_dimensions();
            lemma_blocks(b, blocks as nat);
            let w = width(blocks - 1, b, blocks as nat);
            if w < 32 {
                vstd::arithmetic::power2::lemma_pow2_strictly_increases(w, 32);
            }
        }
        Self::with_blocks(codes, blocks)
    }

    /// Builds an index from a copy of `codes`, with `blocks` blocks.
    pub fn new_with_blocks(codes: &[T], blocks: usize) -> (r: Result<Self, Error>)
        ensures
            codes@.len() == 0 ==> r == Err::<Self, Error>(Error::EmptyInput),
            codes@.len() > 0 && (codes@.len() > u32::MAX || codes@.len() + 66 > usize::MAX) ==> r
                == Err::<Self, Error>(Error::TooManyCodes),
            0 < codes@.len() <= u32::MAX && codes@.len() + 66 <= usize::MAX && (blocks < 2 || blocks
                > T::spec_dimensions()) ==> r == Err::<Self, Error>(Error::InvalidBlocks),
            0 < codes@.len() <= u32::MAX && codes@.len() + 66 <= usize::MAX && 2 <= blocks
                <= T::spec_dimensions() ==> (r is Ok <==> pow2(
                width(blocks - 1, T::spec_dimensions(), blocks as nat),
            ) <= usize::MAX),
            r matches Ok(ix) ==> {
                &&& ix.wf()
                &&& ix.spec_codes() == codes@
                &&& ix.spec_num_blocks() == blocks
            },
    {
        let mut v: Vec<T> = Vec::new();
        let mut i: usize = 0;
        while i < codes.len()
            invariant
                i <= codes@.len(),
                v@ == codes@.subrange(0, i as int),
            decreases codes@.len() - i,
        {
            v.push(codes[i]);
            i += 1;
            proof {
                assert(v@ =~= codes@.subrange(0, i as int));
            }
        }
        proof {
            assert(v@ =~= codes@);
        }
        Self::with_blocks(v, blocks)
    }

    /// Returns a searcher to find neighbor codes within a radius of a query code.
    pub fn range_searcher(&self) -> (r: RangeSearcher<'_, T>)
        requires
            self.wf(),
        ensures
            r.wf(),
            r.spec_index() == *self,
    {
        RangeSearcher { index: self, siggen: SigGenerator64::new(), answers: Vec::new() }
    }

    /// Returns a searcher to find the codes closest to a query code.
    pub fn topk_searcher(&self) -> (r: TopkSearcher<'_, T>)
        requires
            self.wf(),
        ensures
            r.wf(),
            r.spec_index() == *self,
    {
        let mut checked: Vec<bool> = Vec::new();
        let n = self.codes.len();
        while checked.len() < n
            invariant
                checked@.len() <= n,
                n == self.codes@.len(),
                forall|v: int| 0 <= v < checked@.len() ==> !#[trigger] checked@[v],
            decreases n - checked@.len(),
        {
            checked.push(false);
        }
        TopkSearcher { index: self, siggen: SigGenerator64::new(), answers: Vec::new(), checked }
    }

    /// Finds the neighbor codes whose Hamming distances to qcode are within radius.
    /// Returns the ids of the neighbor codes, ascending.
    pub fn range_search(&self, qcode: T, radius: usize) -> (r: Vec<u32>)
        requires
            self.wf(),
        ensures
            r@ == spec_range_search(self.spec_codes(), qcode, radius as nat),
    {
        let mut answers: Vec<u32> = Vec::new();
        self.range_search_with_buf(qcode, radius, &mut answers);
        answers
    }

    /// Finds the neighbor codes whose Hamming distances to qcode are within radius.
    /// The ids of the neighbor codes are stored in answers, ascending.
    pub fn range_search_with_buf(&self, qcode: T, radius: usize, answers: &mut Vec<u32>)
        requires
            self.wf(),
        ensures
            final(answers)@ == spec_range_search(self.spec_codes(), qcode, radius as nat),
    {
        let mut siggen = SigGenerator64::new();
        self.range_core(qcode, radius, &mut siggen, answers);
    }

    /// Finds the topk codes that are closest to qcode.
    /// Returns their ids by non-decreasing distance; ids at equal distance come in the
    /// order in which the search meets them (block by block, then by difference pattern,
    /// then by id), which also settles ties at the last distance taken.
    pub fn topk_search(&self, qcode: T, topk: usize) -> (r: Vec<u32>)
        requires
            self.wf(),
        ensures
            topk_result(self.spec_codes(), qcode, self.spec_num_blocks(), topk as nat, r@),
    {
        let mut answers: Vec<u32> = Vec::new();
        self.topk_search_with_buf(qcode, topk, &mut answers);
        answers
    }

    /// Finds the topk codes that are closest to qcode.
    /// Their ids are stored in answers in the order `topk_search` returns them.
    pub fn topk_search_with_buf(&self, qcode: T, topk: usize, answers: &mut Vec<u32>)
        requires
            self.wf(),
        ensures
            topk_result(self.spec_codes(), qcode, self.spec_num_blocks(), topk as nat, final(answers)@),
    {
        let mut searcher = self.topk_searcher();
        searcher.search(qcode, topk);
        answers.clear();
        let n = searcher.answers.len();
        let mut i: usize = 0;
        while i < n
            invariant
                n == searcher.answers@.len(),
                i <= n,
                answers@ == searcher.answers@.subrange(0, i as int),
            decreases n - i,
        {
            answers.push(searcher.answers[i]);
            i += 1;
            proof {
                assert(answers@ =~= searcher.answers@.subrange(0, i as int));
            }
        }
        proof {
            assert(answers@ =~= searcher.answers@);
        }
    }

    /// The serialized form: the number of blocks, the codes, the tables, the masks and
    /// the block offsets, each list after its length, all little-endian.
    pub closed spec fn bytes(&self) -> Seq<u8> {
        le_bytes(self.num_blocks as u64, 8) + le_bytes(self.codes@.len() as u64, 8) + codes_bytes(self.codes@)
            + le_bytes(self.tables@.len() as u64, 8) + tables_bytes(self.tables@) + le_bytes(
            self.masks@.len() as u64,
            8,
        ) + codes_bytes(self.masks@) + le_bytes(self.begs@.len() as u64, 8) + usizes_bytes(self.begs@)
    }

    /// Two valid indexes over the same codes with the same number of blocks serialize
    /// to the same bytes.
    pub proof fn lemma_same_bytes(i1: Self, i2: Self)
        requires
            i1.wf(),
            i2.wf(),
            i1.spec_codes() == i2.spec_codes(),
            i1.spec_num_blocks() == i2.spec_num_blocks(),
        ensures
            i1.bytes() == i2.bytes(),
    {
        let m = i1.spec_num_blocks();
        assert forall|i: int| 0 <= i < m implies #[trigger] i1.tables@[i].bytes() == i2.tables@[i].bytes() by {
            assert(i1.table_ok(i) && i2.table_ok(i));
            Table::lemma_same_bytes(i1.tables@[i], i2.tables@[i]);
        }
        lemma_tables_bytes(i1.tables@, i2.tables@);
        assert forall|i: int| 0 <= i < m implies #[trigger] i1.masks@[i].spec_word() == i2.masks@[i].spec_word() by {}
        lemma_codes_bytes_words(i1.masks@, i2.masks@);
        assert(i1.begs@ =~= i2.begs@);
    }

    /// Serializes the index into `out`.
    pub fn serialize_into(&self, out: &mut Vec<u8>) -> (r: Result<(), Error>)
        ensures
            r is Ok,
            final(out)@ == old(out)@ + self.bytes(),
    {
        let ghost o = out@;
        put_le(out, self.num_blocks as u64, 8);
        put_codes(out, &self.codes);
        put_le(out, self.tables.len() as u64, 8);
        let ghost o2 = out@;
        let mut i: usize = 0;
        proof {
            assert(self.tables@.subrange(0, 0) =~= Seq::<Table>::empty());
            assert(out@ =~= o2 + tables_bytes(self.tables@.subrange(0, 0)));
        }
        while i < self.tables.len()
            invariant
                i <= self.tables@.len(),
                out@ == o2 + tables_bytes(self.tables@.subrange(0, i as int)),
            decreases self.tables@.len() - i,
        {
            let _ = self.tables[i].serialize_into(out);
            proof {
                assert(self.tables@.subrange(0, i as int + 1).drop_last() =~= self.tables@.subrange(0, i as int));
                assert(out@ =~= o2 + tables_bytes(self.tables@.subrange(0, i as int + 1)));
            }
            i += 1;
        }
        proof {
            assert(self.tables@.subrange(0, self.tables@.len() as int) =~= self.tables@);
        }
        put_codes(out, &self.masks);
        put_le(out, self.begs.len() as u64, 8);
        let ghost o3 = out@;
        let mut i: usize = 0;
        proof {
            assert(self.begs@.subrange(0, 0) =~= Seq::<usize>::empty());
            assert(out@ =~= o3 + usizes_bytes(self.begs@.subrange(0, 0)));
        }
        while i < self.begs.len()
            invariant
                i <= self.begs@.len(),
                out@ == o3 + usizes_bytes(self.begs@.subrange(0, i as int)),
            decreases self.begs@.len() - i,
        {
            put_le(out, self.begs[i] as u64, 8);
            proof {
                assert(self.begs@.subrange(0, i as int + 1).drop_last() =~= self.begs@.subrange(0, i as int));
            }
            i += 1;
        }
        proof {
            assert(self.begs@.subrange(0, self.begs@.len() as int) =~= self.begs@);
            assert(out@ =~= o + self.bytes());
        }
        Ok(())
    }

    /// Where the header fields and the codes sit in the serialized form.
    proof fn lemma_layout(&self)
        requires
            self.wf(),
        ensures
            self.bytes().len() >= 16 + self.codes@.len() * (T::spec_dimensions() / 8),
            self.bytes().subrange(0, 8) == le_bytes(self.num_blocks as u64, 8),
            self.bytes().subrange(8, 16) == le_bytes(self.codes@.len() as u64, 8),
            forall|i: int|
                0 <= i < self.codes@.len() ==> #[trigger] self.bytes().subrange(
                    16 + i * (T::spec_dimensions() / 8),
                    16 + i * (T::spec_dimensions() / 8) + T::spec_dimensions() / 8,
                ) == le_bytes(self.codes@[i].spec_word(), T::spec_dimensions() / 8),
    {
        let k = (T::spec_dimensions() / 8) as int;
        T::lemma_word_fits(self.codes@[0]);
        let a = le_bytes(self.num_blocks as u64, 8);
        let bb = le_bytes(self.codes@.len() as u64, 8);
        let c = codes_bytes(self.codes@);
        let p = a + bb + c;
        lemma_codes_bytes_len(self.codes@);
        let full = self.bytes();
        assert(full.len() >= p.len());
        assert(full.subrange(0, p.len() as int) =~= p);
        assert(full.subrange(0, 8) =~= a);
        assert(full.subrange(8, 16) =~= bb);
        assert forall|i: int| 0 <= i < self.codes@.len() implies #[trigger] full.subrange(16 + i * k, 16 + i * k + k)
            == le_bytes(self.codes@[i].spec_word(), k as nat) by {
            lemma_codes_bytes_at(self.codes@, i);
            assert(i * k + k <= self.codes@.len() * k) by (nonlinear_arith)
                requires
                    0 <= i < self.codes@.len(),
                    k >= 1,
            ;
            assert(full.subrange(16 + i * k, 16 + i * k + k) =~= c.subrange(i * k, i * k + k));
        }
    }

    /// Deserializes an index. The codes and the number of blocks are read, the index is
    /// built from them, and it is returned only if its serialized form is exactly `bytes`.
    /// Bytes that some valid index serializes to give back that index: the same codes and
    /// the same number of blocks, hence the same tables.
    pub fn deserialize_from(bytes: &[u8]) -> (r: Result<Self, Error>)
        ensures
            r is Err ==> r == Err::<Self, Error>(Error::Io),
            r matches Ok(ix) ==> ix.wf() && ix.bytes() == bytes@,
            forall|ix: Self|
                ix.wf() && ix.bytes() == bytes@ ==> (r matches Ok(j) && j.spec_codes() == ix.spec_codes()
                    && j.spec_num_blocks() == ix.spec_num_blocks()),
    {
        let m = match get_le(bytes, 0, 8) {
            Some(v) => v,
            None => {
                proof {
                    assert forall|ix: Self| ix.wf() && ix.bytes() == bytes@ implies false by {
                        ix.lemma_layout();
                    }
                }
                return Err(Error::Io);
            },
        };
        let n = match get_le(bytes, 8, 8) {
            Some(v) => v,
            None => {
                proof {
                    assert forall|ix: Self| ix.wf() && ix.bytes() == bytes@ implies false by {
                        ix.lemma_layout();
                    }
                }
                return Err(Error::Io);
            },
        };
        proof {
            assert forall|ix: Self| ix.wf() && ix.bytes() == bytes@ implies m == ix.num_blocks as u64 && n
                == ix.codes@.len() as u64 by {
                ix.lemma_layout();
                crate::codec::lemma_le_bytes_inj(m, ix.num_blocks as u64, 8);
                crate::codec::lemma_le_bytes_inj(n, ix.codes@.len() as u64, 8);
            }
        }
        let k = T::dimensions() / 8;
        let blen = bytes.len();
        let mut codes: Vec<T> = Vec::new();
        let mut pos: usize = 16;
        let mut i: u64 = 0;
        while i < n
            invariant
                1 <= k <= 8,
                k == T::spec_dimensions() / 8,
                T::spec_dimensions() == 8 || T::spec_dimensions() == 16 || T::spec_dimensions() == 32
                    || T::spec_dimensions() == 64,
                blen == bytes@.len(),
                pos <= blen,
                i <= n,
                pos == 16 + i * k,
                codes@.len() == i,
                forall|j: int|
                    0 <= j < i ==> le_bytes(#[trigger] codes@[j].spec_word(), k as nat) == bytes@.subrange(
                        16 + j * k,
                        16 + j * k + k,
                    ),
                forall|ix: Self| ix.wf() && ix.bytes() == bytes@ ==> m == ix.num_blocks as u64 && n == ix.codes@.len() as u64,
            decreases n - i,
        {
            let v = match get_le(bytes, pos, k) {
                Some(v) => v,
                None => {
                    proof {
                        assert forall|ix: Self| ix.wf() && ix.bytes() == bytes@ implies false by {
                            ix.lemma_layout();
                            assert((i + 1) * k <= n * k) by (nonlinear_arith)
                                requires
                                    i < n,
                                    k >= 1,
                            ;
                            assert((i + 1) * k == i * k + k) by (nonlinear_arith);
                        }
                    }
                    return Err(Error::Io);
                },
            };
            codes.push(T::from_word(v));
            pos = pos + k;
            proof {
                assert((i + 1) * k == i * k + k) by (nonlinear_arith);
            }
            i += 1;
        }
        proof {
            assert forall|ix: Self| ix.wf() && ix.bytes() == bytes@ implies codes@ == ix.codes@ by {
                ix.lemma_layout();
                assert forall|j: int| 0 <= j < codes@.len() implies codes@[j] == ix.codes@[j] by {
                    T::lemma_word_fits(ix.codes@[j]);
                    T::lemma_word_fits(codes@[j]);
                    assert(8 * k == T::spec_dimensions());
                    crate::codec::lemma_le_bytes_inj(codes@[j].spec_word(), ix.codes@[j].spec_word(), k as nat);
                    T::lemma_word_inj(codes@[j], ix.codes@[j]);
                }
                assert(codes@ =~= ix.codes@);
            }
        }
        if m > usize::MAX as u64 {
            return Err(Error::Io);
        }
        let ghost codes_read = codes@;
        let ix = match Self::with_blocks(codes, m as usize) {
            Ok(ix) => ix,
            Err(_) => {
                proof {
                    assert forall|ix: Self| ix.wf() && ix.bytes() == bytes@ implies false by {
                        let b = T::spec_dimensions();
                        let mm = ix.num_blocks as nat;
                        assert(ix.table_ok(mm - 1));
                        ix.tables@[mm - 1].lemma_len_fits();
                    }
                }
                return Err(Error::Io);
            },
        };
        proof {
            assert forall|ix2: Self| ix2.wf() && ix2.bytes() == bytes@ implies ix.bytes() == bytes@ by {
                Self::lemma_same_bytes(ix, ix2);
            }
        }
        let mut out: Vec<u8> = Vec::new();
        let _ = ix.serialize_into(&mut out);
        if out.len() != bytes.len() {
            return Err(Error::Io);
        }
        let mut j: usize = 0;
        while j < out.len()
            invariant
                out@.len() == bytes@.len(),
                j <= out@.len(),
                out@.subrange(0, j as int) == bytes@.subrange(0, j as int),
                forall|ix2: Self| ix2.wf() && ix2.bytes() == bytes@ ==> out@ == bytes@,
            decreases out@.len() - j,
        {
            if out[j] != bytes[j] {
                return Err(Error::Io);
            }
            j += 1;
            proof {
                assert(out@.subrange(0, j as int) =~= bytes@.subrange(0, j as int));
            }
        }
        proof {
            assert(out@.subrange(0, out@.len() as int) =~= out@);
            assert(bytes@.subrange(0, bytes@.len() as int) =~= bytes@);
        }
        Ok(ix)
    }
}

} // verus!

verus! {

/// Range searcher created by `Index::range_searcher()`.
pub struct RangeSearcher<'a, T: CodeInt> {
    index: &'a Index<T>,
    siggen: SigGenerator64,
    answers: Vec<u32>,
}

impl<'a, T: CodeInt> RangeSearcher<'a, T> {
    pub closed spec fn spec_index(&self) -> Index<T> {
        *self.index
    }

    pub closed spec fn wf(&self) -> bool {
        self.index.wf()
    }

    /// Searches neighbor codes whose Hamming distances to a query code are within a query radius.
    /// Returns their ids, ascending; they stay until the next call.
    pub fn run(&mut self, qcode: T, radius: usize) -> (r: &[u32])
        requires
            old(self).wf(),
        ensures
            final(self).wf(),
            final(self).spec_index() == old(self).spec_index(),
            r@ == spec_range_search(old(self).spec_index().spec_codes(), qcode, radius as nat),
    {
        self.index.range_core(qcode, radius, &mut self.siggen, &mut self.answers);
        self.answers.as_slice()
    }
}

/// Top-K searcher created by `Index::topk_searcher()`.
pub struct TopkSearcher<'a, T: CodeInt> {
    index: &'a Index<T>,
    siggen: SigGenerator64,
    answers: Vec<u32>,
    checked: Vec<bool>,
}

impl<'a, T: CodeInt> TopkSearcher<'a, T> {
    pub closed spec fn spec_index(&self) -> Index<T> {
        *self.index
    }

    pub closed spec fn wf(&self) -> bool {
        &&& self.index.wf()
        &&& self.checked@.len() == self.index.spec_codes().len()
        &&& forall|v: int| 0 <= v < self.checked@.len() ==> !#[trigger] self.checked@[v]
    }

    fn search(&mut self, qcode: T, topk: usize)
        requires
            old(self).wf(),
        ensures
            final(self).wf(),
            final(self).spec_index() == old(self).spec_index(),
            topk_result(old(self).spec_index().spec_codes(), qcode, old(self).spec_index().spec_num_blocks(), topk as nat, final(self).answers@),
    {
        self.index.topk_core(qcode, topk, &mut self.siggen, &mut self.checked, &mut self.answers);
    }

    /// Searches the `topk` codes closest to a query code (all codes, when there are fewer).
    /// Returns their ids by non-decreasing distance, ties in the order the search meets
    /// them; they stay until the next call.
    pub fn run(&mut self, qcode: T, topk: usize) -> (r: &[u32])
        requires
            old(self).wf(),
        ensures
            final(self).wf(),
            final(self).spec_index() == old(self).spec_index(),
            topk_result(old(self).spec_index().spec_codes(), qcode, old(self).spec_index().spec_num_blocks(), topk as nat, r@),
    {
        self.search(qcode, topk);
        self.answers.as_slice()
    }
}

} // verus!
