//! Sparse hash table: a compact map from `2^d` slots to lists of ids.
//!
//! Slots are grouped by 64. A group keeps a bitmap of its non-empty slots and one
//! packed array: a header of cumulative offsets, then the ids of all its slots.
use crate::bits::{bit, get, lemma_rank_le, lemma_rank_mono, lemma_rank_set, popcnt, popcnt_mask, popcount, rank};
use crate::codec::{get_le, le_bytes, put_le};
use crate::error::Error;
use vstd::arithmetic::power2::pow2;
use vstd::prelude::*;

verus! {

const GROUP_SIZE: usize = 64;

const COUNT_FLAG: u32 = 0xffff_ffff;

/// Sum of the first `j` entries of `caps`.
pub open spec fn prefix(caps: Seq<nat>, j: int) -> nat
    decreases j,
{
    if j <= 0 {
        0
    } else {
        prefix(caps, j - 1) + caps[j - 1]
    }
}

/// Lengths of the lists.
pub open spec fn lens(lists: Seq<Seq<u32>>) -> Seq<nat> {
    Seq::new(lists.len(), |j: int| lists[j].len())
}

pub proof fn lemma_prefix_mono(caps: Seq<nat>, i: int, j: int)
    requires
        0 <= i <= j,
    ensures
        prefix(caps, i) <= prefix(caps, j),
        i < j ==> prefix(caps, i) + caps[i] <= prefix(caps, j),
    decreases j - i,
{
    if i < j {
        lemma_prefix_mono(caps, i, j - 1);
    }
}

pub proof fn lemma_prefix_update(caps: Seq<nat>, k: int, v: nat, i: int)
    requires
        0 <= k < caps.len(),
        0 <= i <= caps.len(),
    ensures
        prefix(caps.update(k, v), i) == if i > k {
            prefix(caps, i) - caps[k] + v
        } else {
            prefix(caps, i) as int
        },
        i > k ==> prefix(caps, i) >= caps[k],
    decreases i,
{
    if i > 0 {
        lemma_prefix_update(caps, k, v, i - 1);
        if i - 1 == k {
            lemma_prefix_mono(caps, 0, i - 1);
        }
    }
}

/// The serialized form of 32-bit words: four bytes each.
pub open spec fn u32s_bytes(s: Seq<u32>) -> Seq<u8>
    decreases s.len(),
{
    if s.len() == 0 {
        Seq::empty()
    } else {
        u32s_bytes(s.drop_last()) + le_bytes(s.last() as u64, 4)
    }
}

proof fn lemma_rank_hit(b: u64, h: nat, j: nat)
    requires
        j <= 64,
        h <= rank(b, j),
    ensures
        exists|i: nat| i <= j && rank(b, i) == h,
    decreases j,
{
    if rank(b, j) == h {
    } else {
        assert(j > 0);
        lemma_rank_hit(b, h, (j - 1) as nat);
    }
}

proof fn lemma_prefix_hit(caps: Seq<nat>, x: int, t: int)
    requires
        0 <= x < prefix(caps, t),
        t <= caps.len(),
    ensures
        exists|j: int| 0 <= j < t && #[trigger] prefix(caps, j) <= x < prefix(caps, j + 1),
    decreases t,
{
    if t > 0 {
        if x < prefix(caps, t - 1) {
            lemma_prefix_hit(caps, x, t - 1);
        } else {
            assert(prefix(caps, t - 1) <= x < prefix(caps, t));
        }
    }
}

proof fn lemma_u32s_len(s: Seq<u32>)
    ensures
        u32s_bytes(s).len() == 4 * s.len(),
    decreases s.len(),
{
    if s.len() > 0 {
        lemma_u32s_len(s.drop_last());
    }
}

/// Equal serialized forms of equally long word lists come from equal lists.
proof fn lemma_u32s_inj(s1: Seq<u32>, s2: Seq<u32>)
    requires
        s1.len() == s2.len(),
        u32s_bytes(s1) == u32s_bytes(s2),
    ensures
        s1 == s2,
    decreases s1.len(),
{
    if s1.len() > 0 {
        let d1 = s1.drop_last();
        let d2 = s2.drop_last();
        lemma_u32s_len(d1);
        lemma_u32s_len(d2);
        let x = u32s_bytes(s1);
        let l = u32s_bytes(d1).len() as int;
        assert(x.subrange(0, l) =~= u32s_bytes(d1));
        assert(u32s_bytes(s2).subrange(0, l) =~= u32s_bytes(d2));
        assert(x.subrange(l, l + 4) =~= le_bytes(s1.last() as u64, 4));
        assert(u32s_bytes(s2).subrange(l, l + 4) =~= le_bytes(s2.last() as u64, 4));
        lemma_u32s_inj(d1, d2);
        crate::codec::lemma_fits32(s1.last() as u64);
        crate::codec::lemma_fits32(s2.last() as u64);
        crate::codec::lemma_le_bytes_inj(s1.last() as u64, s2.last() as u64, 4);
        assert(s1 =~= d1.push(s1.last()));
        assert(s2 =~= d2.push(s2.last()));
    }
}

proof fn lemma_rank_hit_set(b: u64, h: nat, j: nat)
    requires
        j <= 64,
        h + 1 <= rank(b, j),
    ensures
        exists|k: int| 0 <= k < j && bit(b, k as u64) && #[trigger] rank(b, k as nat) == h,
    decreases j,
{
    assert(j > 0);
    if bit(b, (j - 1) as u64) && rank(b, (j - 1) as nat) == h {
        assert(0 <= j - 1 < j && bit(b, (j - 1) as u64) && rank(b, (j - 1) as nat) == h);
    } else {
        lemma_rank_hit_set(b, h, (j - 1) as nat);
    }
}

/// `bytes` hold, at `pos`, a group with bitmap `bm` and array `arr`.
spec fn read_hyp(bytes: Seq<u8>, pos: int, bm: u64, arr: Seq<u32>) -> bool {
    arr.len() <= u32::MAX && pos + 12 + 4 * arr.len() <= bytes.len() && bytes.subrange(pos, pos + 12 + 4 * arr.len())
        == le_bytes(bm, 8) + le_bytes(arr.len() as u64, 4) + u32s_bytes(arr)
}

/// Sixty-four empty lists.
pub open spec fn no_lists() -> Seq<Seq<u32>> {
    Seq::new(64, |j: int| Seq::<u32>::empty())
}

pub proof fn lemma_prefix_zero(caps: Seq<nat>, j: int)
    requires
        forall|i: int| 0 <= i < j ==> caps[i] == 0,
    ensures
        prefix(caps, j) == 0,
    decreases j,
{
    if j > 0 {
        lemma_prefix_zero(caps, j - 1);
    }
}

/// Sum of the header cells `a[1..=k]`.
spec fn hsum(a: Seq<u32>, k: int) -> nat
    decreases k,
{
    if k <= 0 {
        0
    } else {
        hsum(a, k - 1) + a[k] as nat
    }
}

proof fn lemma_hsum_mono(a: Seq<u32>, i: int, j: int)
    requires
        0 <= i <= j,
    ensures
        hsum(a, i) <= hsum(a, j),
    decreases j - i,
{
    if i < j {
        lemma_hsum_mono(a, i, j - 1);
    }
}

#[derive(Clone, PartialEq, Eq, Debug)]
struct Group {
    bitmap: u64,
    array: Vec<u32>,
}

impl Group {
    /// The group's slots hold `lists`, out of a reservation of `caps[j]` ids for slot `j`.
    spec fn filling(&self, caps: Seq<nat>, lists: Seq<Seq<u32>>) -> bool {
        let b = self.bitmap;
        let a = self.array@;
        let p = popcount(b) as int;
        &&& caps.len() == 64
        &&& lists.len() == 64
        &&& forall|j: int| 0 <= j < 64 ==> (bit(b, j as u64) <==> #[trigger] caps[j] > 0)
        &&& forall|j: int| 0 <= j < 64 ==> #[trigger] lists[j].len() <= caps[j]
        &&& prefix(caps, 64) <= u32::MAX
        &&& if b == 0 {
            a.len() == 0
        } else if a[0] == COUNT_FLAG {
            &&& a.len() == p + 1
            &&& p + 1 + prefix(caps, 64) <= usize::MAX
            &&& forall|j: int| 0 <= j < 64 ==> #[trigger] lists[j].len() == 0
            &&& forall|j: int|
                0 <= j < 64 && bit(b, j as u64) ==> a[rank(b, j as nat) as int + 1] == #[trigger] caps[j]
        } else {
            &&& a[0] == 0
            &&& a.len() == p + 1 + prefix(caps, 64)
            &&& forall|j: int|
                0 <= j < 64 && bit(b, j as u64) ==> a[rank(b, j as nat) as int + 1] == prefix(caps, j)
                    + #[trigger] lists[j].len()
            &&& forall|j: int, t: int|
                0 <= j < 64 && 0 <= t < lists[j].len() ==> a[p + 1 + prefix(caps, j) + t]
                    == #[trigger] lists[j][t]
        }
    }

    spec fn slot(&self, j: int) -> Seq<u32> {
        let b = self.bitmap;
        let a = self.array@;
        let p = popcount(b) as int;
        let h = rank(b, j as nat) as int;
        if bit(b, j as u64) {
            a.subrange(p + 1 + a[h], p + 1 + a[h + 1])
        } else {
            Seq::empty()
        }
    }

    spec fn view(&self) -> Seq<Seq<u32>> {
        Seq::new(64, |j: int| self.slot(j))
    }

    spec fn complete(&self) -> bool {
        self.filling(lens(self.view()), self.view())
    }

    spec fn counting(&self) -> bool {
        self.bitmap == 0 || self.array@[0] == COUNT_FLAG
    }

    /// In a fully filled group the header holds, at the rank of slot `j`, where slot `j` starts.
    proof fn lemma_header_start(&self, caps: Seq<nat>, lists: Seq<Seq<u32>>, j: int)
        requires
            self.filling(caps, lists),
            forall|i: int| 0 <= i < 64 ==> #[trigger] lists[i].len() == caps[i],
            self.bitmap != 0,
            0 <= j <= 64,
        ensures
            self.array@[0] != COUNT_FLAG,
            self.array@[rank(self.bitmap, j as nat) as int] == prefix(caps, j),
        decreases j,
    {
        if self.array@[0] == COUNT_FLAG {
            let k = crate::bits::lemma_nonzero_bit(self.bitmap);
            assert(caps[k as int] > 0);
            assert(lists[k as int].len() == caps[k as int]);
        }
        if j > 0 {
            self.lemma_header_start(caps, lists, j - 1);
            let b = self.bitmap;
            assert(lists[j - 1].len() == caps[j - 1]);
            if bit(b, (j - 1) as u64) {
                assert(rank(b, j as nat) == rank(b, (j - 1) as nat) + 1);
            } else {
                assert(caps[j - 1] == 0);
                assert(rank(b, j as nat) == rank(b, (j - 1) as nat));
            }
        }
    }

    /// The serialized form: the bitmap, the array length, then the array.
    spec fn bytes(&self) -> Seq<u8> {
        le_bytes(self.bitmap, 8) + le_bytes(self.array@.len() as u32 as u64, 4) + u32s_bytes(self.array@)
    }

    fn serialize_into(&self, out: &mut Vec<u8>)
        ensures
            final(out)@ == old(out)@ + self.bytes(),
    {
        let ghost o = out@;
        put_le(out, self.bitmap, 8);
        put_le(out, self.array.len() as u32 as u64, 4);
        let ghost o2 = out@;
        let mut i: usize = 0;
        proof {
            assert(self.array@.subrange(0, 0) =~= Seq::<u32>::empty());
            assert(out@ =~= o2 + u32s_bytes(self.array@.subrange(0, 0)));
        }
        while i < self.array.len()
            invariant
                i <= self.array@.len(),
                out@ == o2 + u32s_bytes(self.array@.subrange(0, i as int)),
            decreases self.array@.len() - i,
        {
            put_le(out, self.array[i] as u64, 4);
            proof {
                assert(self.array@.subrange(0, i as int + 1).drop_last() =~= self.array@.subrange(0, i as int));
            }
            i += 1;
        }
        proof {
            assert(self.array@.subrange(0, self.array@.len() as int) =~= self.array@);
        }
    }

    /// While counting, the counts of the occupied slots below `j`, taken in rank order,
    /// sum to the reservations of the slots below `j`.
    proof fn lemma_hsum_prefix(b: u64, a: Seq<u32>, caps: Seq<nat>, j: int)
        requires
            0 <= j <= 64,
            caps.len() == 64,
            forall|i: int| 0 <= i < 64 ==> (bit(b, i as u64) <==> #[trigger] caps[i] > 0),
            forall|i: int|
                0 <= i < 64 && bit(b, i as u64) ==> a[rank(b, i as nat) as int + 1] == #[trigger] caps[i],
        ensures
            hsum(a, rank(b, j as nat) as int) == prefix(caps, j),
        decreases j,
    {
        if j > 0 {
            Self::lemma_hsum_prefix(b, a, caps, j - 1);
            if bit(b, (j - 1) as u64) {
                assert(rank(b, j as nat) == rank(b, (j - 1) as nat) + 1);
                assert(a[rank(b, (j - 1) as nat) as int + 1] == caps[j - 1]);
            } else {
                assert(caps[j - 1] == 0);
            }
        }
    }

    /// While counting, the header holds the reservation of each occupied slot.
    proof fn lemma_counting_caps(g: Group, caps: Seq<nat>, lists: Seq<Seq<u32>>, t: int)
        requires
            g.filling(caps, lists),
            g.counting(),
            0 <= t < 64,
        ensures
            caps[t] == if bit(g.bitmap, t as u64) {
                g.array@[rank(g.bitmap, t as nat) as int + 1] as nat
            } else {
                0nat
            },
    {
        if g.bitmap == 0 {
            let k = t as u64;
            crate::bits::lemma_zero_bits();
        }
    }

    /// A group whose lists have all reached their reservation is complete, and shows them.
    proof fn lemma_full_complete(&self, caps: Seq<nat>, lists: Seq<Seq<u32>>)
        requires
            self.filling(caps, lists),
            forall|i: int| 0 <= i < 64 ==> #[trigger] lists[i].len() == caps[i],
        ensures
            self.view() == lists,
            self.complete(),
    {
        let b = self.bitmap;
        let a = self.array@;
        let p = popcount(b) as int;
        assert forall|j: int| 0 <= j < 64 implies #[trigger] self.view()[j] == lists[j] by {
            if bit(b, j as u64) {
                let k = j as u64;
                crate::bits::lemma_bit_nonzero();
                self.lemma_header_start(caps, lists, j);
                self.lemma_header_start(caps, lists, j + 1);
                assert(rank(b, (j + 1) as nat) == rank(b, j as nat) + 1);
                assert(a[rank(b, j as nat) as int + 1] == prefix(caps, j + 1));
                lemma_prefix_mono(caps, j + 1, 64);
                assert(self.slot(j) =~= lists[j]) by {
                    assert forall|t: int| 0 <= t < lists[j].len() implies self.slot(j)[t] == lists[j][t] by {
                        assert(a[p + 1 + prefix(caps, j) + t] == lists[j][t]);
                    }
                }
            } else {
                assert(caps[j] == 0);
                assert(lists[j] =~= Seq::<u32>::empty());
            }
        }
        assert(self.view() =~= lists);
        assert(lens(self.view()) =~= caps);
    }

    /// Distinct occupied slots have distinct ranks, in slot order.
    proof fn lemma_rank_order(b: u64, i: int, j: int)
        requires
            0 <= i < j < 64,
            bit(b, i as u64),
        ensures
            rank(b, i as nat) < rank(b, j as nat),
            rank(b, j as nat) < 64 || !bit(b, j as u64),
    {
        lemma_rank_mono(b, (i + 1) as nat, j as nat);
        if bit(b, j as u64) {
            lemma_rank_mono(b, (j + 1) as nat, 64);
            lemma_rank_le(b, 64);
        }
    }

    /// An occupied slot has a rank below the number of occupied slots.
    proof fn lemma_rank_below(b: u64, j: int)
        requires
            0 <= j < 64,
            bit(b, j as u64),
        ensures
            rank(b, j as nat) + 1 <= popcount(b),
    {
        lemma_rank_mono(b, (j + 1) as nat, 64);
    }

    fn access(&self, idx: usize) -> (r: Option<&[u32]>)
        requires
            self.complete() || !bit(self.bitmap, idx as u64),
            idx < 64,
        ensures
            self.complete() ==> match r {
                None => self.view()[idx as int].len() == 0,
                Some(s) => s@ == self.view()[idx as int] && s@.len() > 0,
            },
            !bit(self.bitmap, idx as u64) ==> r is None,
    {
        if !get(self.bitmap, idx) {
            proof {
                if self.complete() {
                    assert(lens(self.view())[idx as int] == 0);
                }
            }
            return None;
        }
        let howmany = popcnt_mask(self.bitmap, idx);
        let totones = popcnt(self.bitmap);
        proof {
            let k = idx as u64;
            let b = self.bitmap;
            crate::bits::lemma_bit_nonzero();
            self.lemma_header_start(lens(self.view()), self.view(), idx as int);
            self.lemma_header_start(lens(self.view()), self.view(), idx as int + 1);
            Self::lemma_rank_below(self.bitmap, idx as int);
            lemma_prefix_mono(lens(self.view()), idx as int + 1, 64);
            lemma_prefix_mono(lens(self.view()), idx as int, idx as int + 1);
            assert(rank(b, (idx + 1) as nat) == rank(b, idx as nat) + 1);
            assert(lens(self.view())[idx as int] > 0);
        }
        let alen = self.array.len();
        let bpos = totones + 1 + self.array[howmany] as usize;
        let epos = bpos + (self.array[howmany + 1] - self.array[howmany]) as usize;
        Some(&self.array.as_slice()[bpos..epos])
    }

    fn len(&self, idx: usize) -> (r: usize)
        requires
            self.complete() || !bit(self.bitmap, idx as u64),
            idx < 64,
        ensures
            self.complete() ==> r == self.view()[idx as int].len(),
            !bit(self.bitmap, idx as u64) ==> r == 0,
    {
        if !get(self.bitmap, idx) {
            proof {
                if self.complete() {
                    assert(lens(self.view())[idx as int] == 0);
                }
            }
            0
        } else {
            let howmany = popcnt_mask(self.bitmap, idx);
            proof {
                let k = idx as u64;
                let b = self.bitmap;
                crate::bits::lemma_bit_nonzero();
                self.lemma_header_start(lens(self.view()), self.view(), idx as int);
                self.lemma_header_start(lens(self.view()), self.view(), idx as int + 1);
                Self::lemma_rank_below(self.bitmap, idx as int);
                lemma_prefix_mono(lens(self.view()), idx as int, idx as int + 1);
                assert(rank(b, (idx + 1) as nat) == rank(b, idx as nat) + 1);
                lemma_rank_le(b, 64);
            }
            (self.array[howmany + 1] - self.array[howmany]) as usize
        }
    }

    proof fn lemma_empty(g: Group)
        requires
            g.bitmap == 0,
            g.array@.len() == 0,
        ensures
            g.filling(Seq::new(64, |j: int| 0nat), no_lists()),
            g.counting(),
    {
        let caps = Seq::new(64, |j: int| 0nat);
        assert forall|j: int| 0 <= j < 64 implies (bit(0u64, j as u64) <==> #[trigger] caps[j] > 0) by {
            let k = j as u64;
            crate::bits::lemma_zero_bits();
        }
        assert forall|j: int| 0 <= j < 64 implies #[trigger] no_lists()[j].len() <= caps[j] by {}
        lemma_prefix_zero(caps, 64);
    }

    fn new_empty() -> (r: Self)
        ensures
            r.bitmap == 0,
            r.array@.len() == 0,
            r.filling(Seq::new(64, |j: int| 0nat), no_lists()),
            r.counting(),
            r.complete(),
            r.view() == no_lists(),
    {
        let r = Group { bitmap: 0, array: Vec::new() };
        proof {
            let caps = Seq::new(64, |j: int| 0nat);
            assert forall|j: int| 0 <= j < 64 implies (bit(0u64, j as u64) <==> #[trigger] caps[j] > 0) by {
                let k = j as u64;
                crate::bits::lemma_zero_bits();
            }
            lemma_prefix_zero(caps, 64);
            assert forall|j: int| 0 <= j < 64 implies #[trigger] r.view()[j] == no_lists()[j] by {
                let k = j as u64;
                crate::bits::lemma_zero_bits();
                assert(r.view()[j] =~= no_lists()[j]);
            }
            assert(r.view() =~= no_lists());
            assert(lens(r.view()) =~= caps);
        }
        r
    }

    fn count_insert(&mut self, idx: usize, caps: Ghost<Seq<nat>>)
        requires
            idx < 64,
            old(self).filling(caps@, no_lists()),
            old(self).counting(),
            prefix(caps@, 64) < u32::MAX,
            prefix(caps@, 64) + 66 <= usize::MAX,
        ensures
            final(self).filling(caps@.update(idx as int, caps@[idx as int] + 1), no_lists()),
            final(self).counting(),
            final(self).bitmap != 0,
    {
        let ghost caps = caps@;
        let ghost ncaps = caps.update(idx as int, caps[idx as int] + 1);
        proof {
            lemma_prefix_update(caps, idx as int, caps[idx as int] + 1, 64);
        }
        proof {
            crate::bits::lemma_rank_le(self.bitmap, 64);
        }
        if self.bitmap == 0 {
            self.array.push(COUNT_FLAG);
            proof {
                crate::bits::lemma_rank_zero(64);
            }
        }
        let ghost b = self.bitmap;
        let ghost a = self.array@;
        let howmany = popcnt_mask(self.bitmap, idx);
        proof {
            lemma_rank_le(b, idx as nat);
            lemma_rank_mono(b, idx as nat, 64);
        }
        if !get(self.bitmap, idx) {
            self.array.insert(howmany + 1, 1);
            self.bitmap = crate::bits::set(self.bitmap, idx);
            proof {
                let nb = self.bitmap;
                let na = self.array@;
                crate::bits::lemma_rank_set(b, idx as u64, 64);
                assert forall|j: int| 0 <= j < 64 implies (bit(nb, j as u64) <==> #[trigger] ncaps[j] > 0) by {
                    crate::bits::lemma_bit_or(b, idx as u64, j as u64);
                }
                let h = howmany as int;
                assert(na.len() == a.len() + 1);
                assert(na[h + 1] == 1);
                assert forall|j: int|
                    0 <= j < 64 && bit(nb, j as u64) implies na[rank(nb, j as nat) as int + 1] == #[trigger] ncaps[j] by {
                    crate::bits::lemma_bit_or(b, idx as u64, j as u64);
                    crate::bits::lemma_rank_set(b, idx as u64, j as nat);
                    if j < idx {
                        Self::lemma_rank_order(b, j, idx as int);
                        Self::lemma_rank_below(b, j);
                        assert(na[rank(b, j as nat) as int + 1] == a[rank(b, j as nat) as int + 1]);
                    } else if j > idx {
                        lemma_rank_mono(b, (idx + 1) as nat, j as nat);
                        assert(rank(b, (idx + 1) as nat) == rank(b, idx as nat));
                        Self::lemma_rank_below(b, j);
                        assert(na[rank(b, j as nat) as int + 2] == a[rank(b, j as nat) as int + 1]);
                    }
                }
                assert forall|j: int| 0 <= j < 64 implies #[trigger] no_lists()[j].len() <= ncaps[j] by {}
                crate::bits::lemma_rank_le(nb, 64);
                crate::bits::lemma_bit_or(b, idx as u64, idx as u64);
                let k = idx as u64;
                crate::bits::lemma_bit_nonzero();
                assert(popcount(nb) == popcount(b) + 1);
                assert(na.len() == popcount(nb) + 1);
                assert(na[0] == COUNT_FLAG);
                assert(self.filling(ncaps, no_lists()));
            }
        } else {
            proof {
                Self::lemma_rank_below(b, idx as int);
                lemma_prefix_mono(caps, idx as int, 64);
                lemma_prefix_mono(caps, idx as int + 1, 64);
            }
            self.array[howmany + 1] = self.array[howmany + 1] + 1;
            proof {
                let na = self.array@;
                assert forall|j: int| 0 <= j < 64 implies (bit(b, j as u64) <==> #[trigger] ncaps[j] > 0) by {
                    assert(caps[j] > 0 <==> bit(b, j as u64));
                }
                assert forall|j: int|
                    0 <= j < 64 && bit(b, j as u64) implies na[rank(b, j as nat) as int + 1] == #[trigger] ncaps[j] by {
                    Self::lemma_rank_below(b, j);
                    assert(caps[j] == a[rank(b, j as nat) as int + 1]);
                    if j < idx {
                        Self::lemma_rank_order(b, j, idx as int);
                    } else if j > idx {
                        Self::lemma_rank_order(b, idx as int, j);
                    }
                }
                assert forall|j: int| 0 <= j < 64 implies #[trigger] no_lists()[j].len() <= ncaps[j] by {}
                assert(na[0] == COUNT_FLAG);
                assert(self.filling(ncaps, no_lists()));
            }
        }
    }

    /// Turns the slot counts into where each slot starts, and makes room for the ids.
    fn allocate_mem_based_on_counts(&mut self, caps: Ghost<Seq<nat>>)
        requires
            old(self).filling(caps@, no_lists()),
            old(self).bitmap != 0,
            old(self).array@[0] == COUNT_FLAG,
        ensures
            final(self).filling(caps@, no_lists()),
            final(self).bitmap == old(self).bitmap,
            final(self).array@[0] == 0,
    {
        let ghost caps = caps@;
        let ghost a0 = self.array@;
        let ghost b = self.bitmap;
        let totones = popcnt(self.bitmap);
        proof {
            Self::lemma_hsum_prefix(b, a0, caps, 64);
            lemma_hsum_mono(a0, 0, totones as int);
        }
        self.array[0] = 0;
        let mut i: usize = 0;
        while i < totones
            invariant
                self.bitmap == b,
                totones == popcount(b),
                totones <= 64,
                i <= totones,
                self.array@.len() == a0.len(),
                a0.len() == totones + 1,
                hsum(a0, totones as int) <= u32::MAX,
                forall|k: int| 0 <= k <= i ==> #[trigger] self.array@[k] == hsum(a0, k),
                forall|k: int| i < k <= totones ==> #[trigger] self.array@[k] == a0[k],
            decreases totones - i,
        {
            proof {
                lemma_hsum_mono(a0, i as int + 1, totones as int);
            }
            self.array[i + 1] = self.array[i + 1] + self.array[i];
            i += 1;
        }
        let new_size = self.array.len() + self.array[totones] as usize;
        let ghost a1 = self.array@;
        self.array.resize(new_size, 0);
        proof {
            assert forall|k: int| 0 <= k < a1.len() implies #[trigger] self.array@[k] == a1[k] by {
                assert(self.array@.subrange(0, a1.len() as int)[k] == a1[k]);
            }
        }
        let mut i: usize = totones;
        while i > 0
            invariant
                self.bitmap == b,
                totones == popcount(b),
                totones <= 64,
                i <= totones,
                self.array@.len() == totones + 1 + hsum(a0, totones as int),
                forall|k: int| 0 <= k <= i ==> #[trigger] self.array@[k] == hsum(a0, k),
                forall|k: int| i < k <= totones ==> #[trigger] self.array@[k] == hsum(a0, k - 1),
            decreases i,
        {
            self.array[i] = self.array[i - 1];
            i -= 1;
        }
        proof {
            let na = self.array@;
            assert forall|j: int|
                0 <= j < 64 && bit(b, j as u64) implies na[rank(b, j as nat) as int + 1] == prefix(caps, j)
                    + #[trigger] no_lists()[j].len() by {
                Self::lemma_rank_below(b, j);
                Self::lemma_hsum_prefix(b, a0, caps, j);
            }
        }
    }

    /// Two complete groups with the same slot lists have the same bitmap and array.
    proof fn lemma_canonical(g1: Group, g2: Group)
        requires
            g1.complete(),
            g2.complete(),
            g1.view() == g2.view(),
        ensures
            g1.bitmap == g2.bitmap,
            g1.array@ == g2.array@,
    {
        let lists = g1.view();
        let caps = lens(lists);
        assert forall|k: u64| k < 64 implies bit(g1.bitmap, k) == bit(g2.bitmap, k) by {
            assert(caps[k as int] > 0 <==> bit(g1.bitmap, k));
            assert(caps[k as int] > 0 <==> bit(g2.bitmap, k));
        }
        crate::bits::lemma_bit_ext(g1.bitmap, g2.bitmap);
        let b = g1.bitmap;
        if b != 0 {
            let p = popcount(b) as int;
            let a1 = g1.array@;
            let a2 = g2.array@;
            assert forall|i: int| 0 <= i < a1.len() implies a1[i] == a2[i] by {
                if i <= p {
                    lemma_rank_hit(b, i as nat, 64);
                    let j = choose|j: nat| j <= 64 && rank(b, j) == i;
                    g1.lemma_header_start(caps, lists, j as int);
                    g2.lemma_header_start(caps, lists, j as int);
                } else {
                    let x = i - p - 1;
                    lemma_prefix_hit(caps, x, 64);
                    let j = choose|j: int| 0 <= j < 64 && #[trigger] prefix(caps, j) <= x < prefix(caps, j + 1);
                    let t = x - prefix(caps, j);
                    assert(a1[p + 1 + prefix(caps, j) + t] == lists[j][t]);
                    assert(a2[p + 1 + prefix(caps, j) + t] == lists[j][t]);
                }
            }
            assert(a1 =~= a2);
        }
    }

    /// Inserting `dat` at the end of slot `idx` of a complete group: the header gains an
    /// entry if the slot was empty, the id goes right after the slot's last one, and the
    /// offsets from the slot on grow by one.
    #[verifier::rlimit(100)]
    #[verifier::spinoff_prover]
    proof fn lemma_insert_step(g: Group, ng: Group, idx: int, dat: u32, a1: Seq<u32>, a2: Seq<u32>)
        requires
            0 <= idx < 64,
            g.complete(),
            g.bitmap != 0,
            prefix(lens(g.view()), 64) < u32::MAX,
            ng.bitmap == g.bitmap | (1u64 << (idx as u64)),
            a1 == if bit(g.bitmap, idx as u64) {
                g.array@
            } else {
                g.array@.insert(
                    rank(g.bitmap, idx as nat) as int,
                    g.array@[rank(g.bitmap, idx as nat) as int],
                )
            },
            a2 == a1.insert(popcount(ng.bitmap) + 1 + a1[rank(g.bitmap, idx as nat) as int + 1] as int, dat),
            ng.array@.len() == a2.len(),
            forall|i: int|
                0 <= i < a2.len() ==> #[trigger] ng.array@[i] == if rank(g.bitmap, idx as nat) + 1 <= i <= popcount(
                    ng.bitmap,
                ) {
                    (a2[i] + 1) as u32
                } else {
                    a2[i]
                },
        ensures
            ng.filling(
                lens(g.view()).update(idx, lens(g.view())[idx] + 1),
                g.view().update(idx, g.view()[idx].push(dat)),
            ),
            forall|i: int| rank(g.bitmap, idx as nat) + 1 <= i <= popcount(ng.bitmap) ==> #[trigger] a2[i] < u32::MAX,
    {
        let b = g.bitmap;
        let a = g.array@;
        let lists = g.view();
        let caps = lens(lists);
        let ncaps = caps.update(idx, caps[idx] + 1);
        let nlists = lists.update(idx, lists[idx].push(dat));
        let nb = ng.bitmap;
        let na = ng.array@;
        let h = rank(b, idx as nat) as int;
        let p = popcount(b) as int;
        let isnew = !bit(b, idx as u64);
        crate::bits::lemma_rank_le(b, 64);
        lemma_rank_mono(b, idx as nat, 64);
        assert forall|j: int| 0 <= j < 64 implies #[trigger] lists[j].len() == caps[j] by {}
        g.lemma_header_start(caps, lists, idx);
        g.lemma_header_start(caps, lists, idx + 1);
        lemma_prefix_update(caps, idx, caps[idx] + 1, 64);
        lemma_prefix_mono(caps, idx + 1, 64);
        // the new bitmap
        assert forall|k: u64| k < 64 implies bit(nb, k) == (bit(b, k) || k == idx as u64) by {
            crate::bits::lemma_bit_or(b, idx as u64, k);
        }
        if isnew {
            crate::bits::lemma_rank_set(b, idx as u64, 64);
            assert(caps[idx] == 0);
            assert(rank(b, (idx + 1) as nat) == h);
        } else {
            assert(nb == b) by {
                assert forall|k: u64| k < 64 implies bit(nb, k) == bit(b, k) by {}
                crate::bits::lemma_bit_ext(nb, b);
            }
            Self::lemma_rank_below(b, idx);
            assert(rank(b, (idx + 1) as nat) == h + 1);
        }
        let np = popcount(nb) as int;
        assert(np == p + if isnew { 1int } else { 0int });
        let end = prefix(caps, idx + 1);
        assert(a1[h + 1] == end);
        let pos = np + 1 + end;
        assert(a1.len() == np + 1 + prefix(caps, 64));
        assert forall|i: int| 0 <= i <= p implies #[trigger] a[i] <= prefix(caps, 64) by {
            lemma_rank_hit(b, i as nat, 64);
            let j = choose|j: nat| j <= 64 && rank(b, j) == i;
            g.lemma_header_start(caps, lists, j as int);
            lemma_prefix_mono(caps, j as int, 64);
        }
        assert forall|i: int| h + 1 <= i <= np implies #[trigger] a2[i] < u32::MAX by {
            assert(a2[i] == a1[i]);
            if isnew {
                if i > h {
                    assert(a1[i] == a[i - 1]);
                }
            }
        }
        // header of the new group
        assert forall|j: int| 0 <= j < 64 && bit(nb, j as u64) implies na[rank(nb, j as nat) as int + 1] == prefix(ncaps, j)
            + #[trigger] nlists[j].len() by {
            lemma_prefix_update(caps, idx, caps[idx] + 1, j + 1);
            Self::lemma_rank_below(nb, j);
            let rj = rank(nb, j as nat) as int;
            assert(nlists[j].len() == ncaps[j]);
            assert(prefix(ncaps, j + 1) == prefix(ncaps, j) + ncaps[j]);
            if isnew {
                crate::bits::lemma_rank_set(b, idx as u64, j as nat);
            }
            assert(a2[rj + 1] == a1[rj + 1]);
            if j < idx {
                Self::lemma_rank_order(b, j, idx);
                g.lemma_header_start(caps, lists, j + 1);
                assert(rank(b, (j + 1) as nat) == rank(b, j as nat) + 1);
                assert(rj == rank(b, j as nat));
                assert(a1[rj + 1] == a[rj + 1]);
                assert(na[rj + 1] == a2[rj + 1]);
            } else if j > idx {
                Self::lemma_rank_below(b, j);
                lemma_rank_mono(b, (idx + 1) as nat, j as nat);
                g.lemma_header_start(caps, lists, j + 1);
                assert(rank(b, (j + 1) as nat) == rank(b, j as nat) + 1);
                if isnew {
                    assert(rj == rank(b, j as nat) + 1);
                    assert(a1[rj + 1] == a[rank(b, j as nat) as int + 1]);
                } else {
                    assert(rj == rank(b, j as nat));
                }
                assert(na[rj + 1] == a2[rj + 1] + 1);
            } else {
                assert(rj == h);
                assert(na[rj + 1] == a2[rj + 1] + 1);
            }
        }
        // the id arrays of the new group
        assert forall|j: int, t: int|
            0 <= j < 64 && 0 <= t < nlists[j].len() implies na[np + 1 + prefix(ncaps, j) + t] == #[trigger] nlists[j][t] by {
            lemma_prefix_update(caps, idx, caps[idx] + 1, j);
            lemma_prefix_mono(caps, j, 64);
            lemma_prefix_mono(caps, j + 1, 64);
            if j < idx {
                lemma_prefix_mono(caps, j + 1, idx + 1);
                assert(a[p + 1 + prefix(caps, j) + t] == lists[j][t]);
                assert(a1[np + 1 + prefix(caps, j) + t] == a[p + 1 + prefix(caps, j) + t]);
            } else if j == idx {
                if t < caps[idx] {
                    assert(a[p + 1 + prefix(caps, j) + t] == lists[j][t]);
                    assert(a1[np + 1 + prefix(caps, j) + t] == a[p + 1 + prefix(caps, j) + t]);
                }
            } else {
                lemma_prefix_mono(caps, idx + 1, j);
                assert(a[p + 1 + prefix(caps, j) + t] == lists[j][t]);
                assert(a1[np + 1 + prefix(caps, j) + t] == a[p + 1 + prefix(caps, j) + t]);
                assert(a2[np + 1 + prefix(caps, j) + t + 1] == a1[np + 1 + prefix(caps, j) + t]);
            }
        }
        assert forall|j: int| 0 <= j < 64 implies (bit(nb, j as u64) <==> #[trigger] ncaps[j] > 0) by {}
        assert forall|j: int| 0 <= j < 64 implies #[trigger] nlists[j].len() <= ncaps[j] by {}
        crate::bits::lemma_bit_nonzero();
        assert(bit(nb, idx as u64));
        assert(na[0] == 0);
    }

    fn insert(&mut self, idx: usize, dat: u32)
        requires
            idx < 64,
            old(self).complete(),
            prefix(lens(old(self).view()), 64) < u32::MAX,
        ensures
            final(self).complete(),
            final(self).view() == old(self).view().update(idx as int, old(self).view()[idx as int].push(dat)),
    {
        let ghost g0 = *self;
        let ghost lists = g0.view();
        let ghost caps = lens(lists);
        let ghost ncaps = caps.update(idx as int, caps[idx as int] + 1);
        let ghost nlists = lists.update(idx as int, lists[idx as int].push(dat));
        if self.bitmap == 0 {
            self.bitmap = crate::bits::set(self.bitmap, idx);
            self.array = vec![0, 1, dat];
            proof {
                crate::bits::lemma_zero_bits();
                assert forall|j: int| 0 <= j < 64 implies #[trigger] caps[j] == 0 by {
                    assert(!bit(0u64, j as u64));
                }
                lemma_prefix_zero(caps, 64);
                lemma_prefix_zero(caps, idx as int);
                lemma_prefix_update(caps, idx as int, 1, 64);
                lemma_prefix_update(caps, idx as int, 1, idx as int);
                crate::bits::lemma_rank_zero(64);
                crate::bits::lemma_rank_zero(idx as nat);
                crate::bits::lemma_rank_set(0u64, idx as u64, 64);
                crate::bits::lemma_rank_set(0u64, idx as u64, idx as nat);
                crate::bits::lemma_bit_nonzero();
                assert forall|j: int| 0 <= j < 64 implies (bit(self.bitmap, j as u64) <==> #[trigger] ncaps[j] > 0) by {
                    crate::bits::lemma_bit_or(0u64, idx as u64, j as u64);
                }
                crate::bits::lemma_bit_or(0u64, idx as u64, idx as u64);
                assert forall|j: int| 0 <= j < 64 implies #[trigger] nlists[j].len() <= ncaps[j] by {
                    assert(lists[j].len() == caps[j]);
                }
                assert(self.filling(ncaps, nlists));
                assert forall|j: int| 0 <= j < 64 implies #[trigger] nlists[j].len() == ncaps[j] by {
                    assert(lists[j].len() == caps[j]);
                }
                self.lemma_full_complete(ncaps, nlists);
            }
            return;
        }
        let ghost b = self.bitmap;
        let howmany = popcnt_mask(self.bitmap, idx);
        proof {
            crate::bits::lemma_rank_le(b, 64);
            lemma_rank_mono(b, idx as nat, 64);
            assert forall|j: int| 0 <= j < 64 implies #[trigger] lists[j].len() == caps[j] by {}
            self.lemma_header_start(caps, lists, idx as int);
        }
        if !get(self.bitmap, idx) {
            let x = self.array[howmany];
            self.array.insert(howmany, x);
            self.bitmap = crate::bits::set(self.bitmap, idx);
        } else {
            proof {
                assert forall|k: u64| k < 64 implies bit(b | (1u64 << (idx as u64)), k) == bit(b, k) by {
                    crate::bits::lemma_bit_or(b, idx as u64, k);
                }
                crate::bits::lemma_bit_ext(b | (1u64 << (idx as u64)), b);
            }
        }
        let ghost a1 = self.array@;
        let ghost nb = b | (1u64 << (idx as u64));
        let totones = popcnt(self.bitmap);
        proof {
            Self::lemma_insert_bound(g0, idx as int, a1);
            crate::bits::lemma_bit_or(b, idx as u64, idx as u64);
            Self::lemma_rank_below(nb, idx as int);
            lemma_prefix_mono(lens(g0.view()), idx as int + 1, 64);
        }
        let alen = self.array.len();
        let position = totones + 1 + self.array[howmany + 1] as usize;
        self.array.insert(position, dat);
        let ghost a2 = self.array@;
        let mut i = howmany + 1;
        while i < totones + 1
            invariant
                howmany + 1 <= i <= totones + 1,
                totones <= 64,
                totones == popcount(nb),
                totones + 1 < a2.len(),
                self.bitmap == nb,
                self.array@.len() == a2.len(),
                forall|t: int| howmany + 1 <= t <= totones ==> #[trigger] a2[t] < u32::MAX,
                forall|t: int|
                    0 <= t < a2.len() ==> #[trigger] self.array@[t] == if howmany + 1 <= t < i {
                        (a2[t] + 1) as u32
                    } else {
                        a2[t]
                    },
            decreases totones + 1 - i,
        {
            self.array.set(i, self.array[i] + 1);
            i += 1;
        }
        proof {
            Self::lemma_insert_step(g0, *self, idx as int, dat, a1, a2);
            assert forall|j: int| 0 <= j < 64 implies #[trigger] nlists[j].len() == ncaps[j] by {
                assert(lists[j].len() == caps[j]);
            }
            self.lemma_full_complete(ncaps, nlists);
        }
    }

    proof fn lemma_insert_bound(g: Group, idx: int, a1: Seq<u32>)
        requires
            0 <= idx < 64,
            g.complete(),
            g.bitmap != 0,
            prefix(lens(g.view()), 64) < u32::MAX,
            a1 == if bit(g.bitmap, idx as u64) {
                g.array@
            } else {
                g.array@.insert(
                    rank(g.bitmap, idx as nat) as int,
                    g.array@[rank(g.bitmap, idx as nat) as int],
                )
            },
        ensures
            a1.len() == popcount(g.bitmap | (1u64 << (idx as u64))) + 1 + prefix(lens(g.view()), 64),
            a1[rank(g.bitmap, idx as nat) as int + 1] == prefix(lens(g.view()), idx + 1),
            forall|i: int|
                0 <= i <= popcount(g.bitmap | (1u64 << (idx as u64))) ==> #[trigger] a1[i] <= prefix(lens(g.view()), 64),
    {
        let b = g.bitmap;
        let a = g.array@;
        let lists = g.view();
        let caps = lens(lists);
        let nb = b | (1u64 << (idx as u64));
        let h = rank(b, idx as nat) as int;
        let p = popcount(b) as int;
        crate::bits::lemma_rank_le(b, 64);
        lemma_rank_mono(b, idx as nat, 64);
        assert forall|j: int| 0 <= j < 64 implies #[trigger] lists[j].len() == caps[j] by {}
        g.lemma_header_start(caps, lists, idx);
        g.lemma_header_start(caps, lists, idx + 1);
        assert forall|i: int| 0 <= i <= p implies #[trigger] a[i] <= prefix(caps, 64) by {
            lemma_rank_hit(b, i as nat, 64);
            let j = choose|j: nat| j <= 64 && rank(b, j) == i;
            g.lemma_header_start(caps, lists, j as int);
            lemma_prefix_mono(caps, j as int, 64);
        }
        lemma_prefix_mono(caps, idx + 1, 64);
        if !bit(b, idx as u64) {
            crate::bits::lemma_rank_set(b, idx as u64, 64);
            crate::bits::lemma_rank_set(b, idx as u64, (idx + 1) as nat);
            assert(caps[idx] == 0);
            assert forall|i: int| 0 <= i <= popcount(nb) implies #[trigger] a1[i] <= prefix(caps, 64) by {
                if i > h {
                    assert(a1[i] == a[i - 1]);
                } else if i < h {
                    assert(a1[i] == a[i]);
                }
            }
        } else {
            assert(nb == b) by {
                assert forall|k: u64| k < 64 implies bit(nb, k) == bit(b, k) by {
                    crate::bits::lemma_bit_or(b, idx as u64, k);
                }
                crate::bits::lemma_bit_ext(nb, b);
            }
            Self::lemma_rank_below(b, idx);
        }
    }

    /// A group whose header starts at zero, strictly increases over the occupied slots and
    /// ends at the number of ids is complete.
    spec fn well_laid(&self) -> bool {
        let b = self.bitmap;
        let a = self.array@;
        let p = popcount(b) as int;
        if b == 0 {
            a.len() == 0
        } else {
            &&& a.len() >= p + 1
            &&& a[0] == 0
            &&& forall|h: int| 0 <= h < p ==> #[trigger] a[h] < a[h + 1]
            &&& a.len() == p + 1 + a[p]
        }
    }

    /// With slot reservations read off consecutive header cells, the header holds their
    /// running sums.
    proof fn lemma_laid_prefix(b: u64, a: Seq<u32>, caps: Seq<nat>, j: int)
        requires
            b != 0,
            0 <= j <= 64,
            a.len() > popcount(b),
            a[0] == 0,
            forall|h: int| 0 <= h < popcount(b) ==> #[trigger] a[h] < a[h + 1],
            forall|i: int|
                0 <= i < 64 ==> #[trigger] caps[i] == if bit(b, i as u64) {
                    (a[rank(b, i as nat) as int + 1] - a[rank(b, i as nat) as int]) as nat
                } else {
                    0nat
                },
        ensures
            prefix(caps, j) == a[rank(b, j as nat) as int],
        decreases j,
    {
        crate::bits::lemma_rank_le(b, 64);
        lemma_rank_mono(b, j as nat, 64);
        if j > 0 {
            Self::lemma_laid_prefix(b, a, caps, j - 1);
            lemma_rank_mono(b, (j - 1) as nat, 64);
            assert(caps[j - 1] == if bit(b, (j - 1) as u64) {
                (a[rank(b, (j - 1) as nat) as int + 1] - a[rank(b, (j - 1) as nat) as int]) as nat
            } else {
                0nat
            });
            if bit(b, (j - 1) as u64) {
                Self::lemma_rank_below(b, j - 1);
                let h = rank(b, (j - 1) as nat) as int;
                assert(a[h] < a[h + 1]);
            }
        }
    }

    #[verifier::rlimit(100)]
    #[verifier::spinoff_prover]
    proof fn lemma_laid_complete(&self)
        requires
            self.well_laid(),
        ensures
            self.complete(),
    {
        let b = self.bitmap;
        let a = self.array@;
        let lists = self.view();
        let caps = lens(lists);
        if b == 0 {
            crate::bits::lemma_zero_bits();
            assert forall|j: int| 0 <= j < 64 implies #[trigger] caps[j] == 0 by {
                assert(!bit(0u64, j as u64));
            }
            lemma_prefix_zero(caps, 64);
            assert forall|j: int| 0 <= j < 64 implies (bit(b, j as u64) <==> #[trigger] caps[j] > 0) by {
                assert(!bit(0u64, j as u64));
            }
        } else {
            let p = popcount(b) as int;
            crate::bits::lemma_rank_le(b, 64);
            assert forall|x: int| 0 <= x <= p implies #[trigger] a[x] <= a[p] by {
                Self::lemma_laid_mono(a, x, p);
            }
            assert forall|i: int| 0 <= i < 64 implies #[trigger] caps[i] == if bit(b, i as u64) {
                (a[rank(b, i as nat) as int + 1] - a[rank(b, i as nat) as int]) as nat
            } else {
                0nat
            } by {
                if bit(b, i as u64) {
                    Self::lemma_rank_below(b, i);
                    let h = rank(b, i as nat) as int;
                    assert(a[h] < a[h + 1]);
                    assert(a[h + 1] <= a[p]);
                }
            }
            assert forall|j: int| 0 <= j <= 64 implies #[trigger] prefix(caps, j) == a[rank(b, j as nat) as int] by {
                Self::lemma_laid_prefix(b, a, caps, j);
            }
            assert(prefix(caps, 64) == a[p]);
            assert forall|j: int| 0 <= j < 64 implies (bit(b, j as u64) <==> #[trigger] caps[j] > 0) by {
                if bit(b, j as u64) {
                    Self::lemma_rank_below(b, j);
                    let h = rank(b, j as nat) as int;
                    assert(a[h] < a[h + 1]);
                }
            }
            assert forall|j: int| 0 <= j < 64 && bit(b, j as u64) implies a[rank(b, j as nat) as int + 1] == prefix(caps, j)
                + #[trigger] lists[j].len() by {
                Self::lemma_rank_below(b, j);
                assert(prefix(caps, j) == a[rank(b, j as nat) as int]);
            }
            assert forall|j: int, t: int|
                0 <= j < 64 && 0 <= t < lists[j].len() implies a[p + 1 + prefix(caps, j) + t] == #[trigger] lists[j][t] by {
                assert(prefix(caps, j) == a[rank(b, j as nat) as int]);
                if bit(b, j as u64) {
                    Self::lemma_rank_below(b, j);
                }
            }
            assert forall|j: int| 0 <= j < 64 implies #[trigger] lists[j].len() <= caps[j] by {}
        }
    }

    proof fn lemma_laid_mono(a: Seq<u32>, x: int, p: int)
        requires
            0 <= x <= p < a.len(),
            forall|h: int| 0 <= h < p ==> #[trigger] a[h] < a[h + 1],
        ensures
            a[x] <= a[p],
        decreases p - x,
    {
        if x < p {
            Self::lemma_laid_mono(a, x + 1, p);
        }
    }

    /// A complete group is well laid out.
    proof fn lemma_complete_laid(&self)
        requires
            self.complete(),
        ensures
            self.well_laid(),
    {
        let b = self.bitmap;
        if b != 0 {
            let a = self.array@;
            let lists = self.view();
            let caps = lens(lists);
            let p = popcount(b) as int;
            assert forall|i: int| 0 <= i < 64 implies #[trigger] lists[i].len() == caps[i] by {}
            self.lemma_header_start(caps, lists, 0);
            self.lemma_header_start(caps, lists, 64);
            assert forall|h: int| 0 <= h < p implies #[trigger] a[h] < a[h + 1] by {
                lemma_rank_hit_set(b, h as nat, 64);
                let k = choose|k: int| 0 <= k < 64 && bit(b, k as u64) && #[trigger] rank(b, k as nat) == h;
                self.lemma_header_start(caps, lists, k);
                assert(caps[k] > 0);
            }
        }
    }

    /// Checks that the group is laid out as a complete group is.
    fn check_layout(&self) -> (r: bool)
        ensures
            r == self.well_laid(),
    {
        if self.bitmap == 0 {
            return self.array.len() == 0;
        }
        let p = popcnt(self.bitmap);
        if self.array.len() < p + 1 || self.array[0] != 0 {
            return false;
        }
        let mut h: usize = 0;
        while h < p
            invariant
                h <= p,
                p == popcount(self.bitmap),
                p <= 64,
                self.array@.len() >= p + 1,
                forall|x: int| 0 <= x < h ==> #[trigger] self.array@[x] < self.array@[x + 1],
            decreases p - h,
        {
            if self.array[h] >= self.array[h + 1] {
                return false;
            }
            h += 1;
        }
        self.array.len() - (p + 1) == self.array[p] as usize
    }

    /// Reads a group at `pos`; returns it and where it ends.
    fn read(bytes: &[u8], pos: usize) -> (r: Option<(Group, usize)>)
        requires
            pos <= bytes@.len(),
        ensures
            r matches Some(gp) ==> gp.1 <= bytes@.len() && pos <= gp.1 && gp.0.bytes() == bytes@.subrange(pos as int, gp.1 as int),
            forall|bm: u64, arr: Seq<u32>|
                #![trigger le_bytes(bm, 8), u32s_bytes(arr)]
                arr.len() <= u32::MAX && pos + 12 + 4 * arr.len() <= bytes@.len() && bytes@.subrange(
                    pos as int,
                    pos + 12 + 4 * arr.len(),
                ) == le_bytes(bm, 8) + le_bytes(arr.len() as u64, 4) + u32s_bytes(arr) ==> (r matches Some(gp)
                    && gp.0.bitmap == bm && gp.0.array@ == arr && gp.1 == pos + 12 + 4 * arr.len()),
    {
        let blen = bytes.len();
        proof {
            assert forall|bm: u64, arr: Seq<u32>| #[trigger] read_hyp(bytes@, pos as int, bm, arr) implies bytes@.subrange(pos as int, pos + 8)
                == le_bytes(bm, 8) && bytes@.subrange(pos + 8, pos + 12) == le_bytes(arr.len() as u64, 4)
                && bytes@.subrange(pos + 12, pos + 12 + 4 * arr.len()) == u32s_bytes(arr) by {
                lemma_u32s_len(arr);
                let whole = bytes@.subrange(pos as int, pos + 12 + 4 * arr.len());
                assert(bytes@.subrange(pos as int, pos + 8) =~= whole.subrange(0, 8));
                assert(bytes@.subrange(pos + 8, pos + 12) =~= whole.subrange(8, 12));
                assert(bytes@.subrange(pos + 12, pos + 12 + 4 * arr.len()) =~= whole.subrange(12, 12 + 4 * arr.len() as int));
            }
        }
        let bitmap = match get_le(bytes, pos, 8) {
            Some(v) => v,
            None => {
                proof {
                    assert forall|bm: u64, arr: Seq<u32>|
                        #![trigger le_bytes(bm, 8), u32s_bytes(arr)]
                        arr.len() <= u32::MAX && pos + 12 + 4 * arr.len() <= bytes@.len() && bytes@.subrange(
                            pos as int,
                            pos + 12 + 4 * arr.len(),
                        ) == le_bytes(bm, 8) + le_bytes(arr.len() as u64, 4) + u32s_bytes(arr) implies false by {
                        assert(read_hyp(bytes@, pos as int, bm, arr));
                    }
                }
                return None;
            },
        };
        let n = match get_le(bytes, pos + 8, 4) {
            Some(v) => v,
            None => {
                proof {
                    assert forall|bm: u64, arr: Seq<u32>|
                        #![trigger le_bytes(bm, 8), u32s_bytes(arr)]
                        arr.len() <= u32::MAX && pos + 12 + 4 * arr.len() <= bytes@.len() && bytes@.subrange(
                            pos as int,
                            pos + 12 + 4 * arr.len(),
                        ) == le_bytes(bm, 8) + le_bytes(arr.len() as u64, 4) + u32s_bytes(arr) implies false by {
                        assert(read_hyp(bytes@, pos as int, bm, arr));
                    }
                }
                return None;
            },
        };
        proof {
            crate::codec::lemma_fits32(n);
            assert forall|bm: u64, arr: Seq<u32>| #[trigger] read_hyp(bytes@, pos as int, bm, arr) implies bitmap == bm && n == arr.len() by {
                crate::codec::lemma_le_bytes_inj(bitmap, bm, 8);
                crate::codec::lemma_fits32(arr.len() as u64);
                crate::codec::lemma_le_bytes_inj(n, arr.len() as u64, 4);
            }
        }
        let mut array: Vec<u32> = Vec::new();
        let mut at: usize = pos + 12;
        let mut i: u64 = 0;
        proof {
            assert(u32s_bytes(array@) =~= bytes@.subrange(at as int, at as int));
        }
        while i < n
            invariant
                blen == bytes@.len(),
                pos + 12 <= at <= blen,
                i <= n,
                n <= u32::MAX,
                array@.len() == i,
                at == pos + 12 + 4 * i,
                u32s_bytes(array@) == bytes@.subrange(pos + 12, at as int),
                forall|bm: u64, arr: Seq<u32>| #[trigger] read_hyp(bytes@, pos as int, bm, arr) ==> bitmap == bm && n == arr.len(),
                forall|bm: u64, arr: Seq<u32>| #[trigger] read_hyp(bytes@, pos as int, bm, arr) ==> bytes@.subrange(pos as int, pos + 8)
                    == le_bytes(bm, 8) && bytes@.subrange(pos + 8, pos + 12) == le_bytes(arr.len() as u64, 4)
                    && bytes@.subrange(pos + 12, pos + 12 + 4 * arr.len()) == u32s_bytes(arr),
            decreases n - i,
        {
            let v = match get_le(bytes, at, 4) {
                Some(v) => v,
                None => {
                    proof {
                        assert forall|bm: u64, arr: Seq<u32>|
                            #![trigger le_bytes(bm, 8), u32s_bytes(arr)]
                            arr.len() <= u32::MAX && pos + 12 + 4 * arr.len() <= bytes@.len() && bytes@.subrange(
                                pos as int,
                                pos + 12 + 4 * arr.len(),
                            ) == le_bytes(bm, 8) + le_bytes(arr.len() as u64, 4) + u32s_bytes(arr) implies false by {
                            assert(read_hyp(bytes@, pos as int, bm, arr));
                        }
                    }
                    return None;
                },
            };
            let ghost prev = array@;
            proof {
                crate::codec::lemma_fits32(v);
            }
            array.push(v as u32);
            proof {
                assert(array@.drop_last() =~= prev);
                assert((v as u32) as u64 == v);
                assert(bytes@.subrange(pos + 12, at + 4) =~= bytes@.subrange(pos + 12, at as int) + bytes@.subrange(
                    at as int,
                    at + 4,
                ));
            }
            at = at + 4;
            i += 1;
        }
        let g = Group { bitmap, array };
        proof {
            assert forall|bm: u64, arr: Seq<u32>|
                #![trigger le_bytes(bm, 8), u32s_bytes(arr)]
                arr.len() <= u32::MAX && pos + 12 + 4 * arr.len() <= bytes@.len() && bytes@.subrange(
                    pos as int,
                    pos + 12 + 4 * arr.len(),
                ) == le_bytes(bm, 8) + le_bytes(arr.len() as u64, 4) + u32s_bytes(arr) implies g.bitmap == bm
                && g.array@ == arr && at == pos + 12 + 4 * arr.len() by {
                assert(read_hyp(bytes@, pos as int, bm, arr));
                lemma_u32s_inj(g.array@, arr);
            }
            assert((n as u32) as u64 == n);
            assert(g.array@.len() as u32 as u64 == n);
            assert(bytes@.subrange(pos as int, at as int) =~= bytes@.subrange(pos as int, pos + 8) + bytes@.subrange(
                pos + 8,
                pos + 12,
            ) + bytes@.subrange(pos + 12, at as int));
        }
        Some((g, at))
    }

    /// While counting, the reservations are the counts in the header.
    proof fn lemma_counting_unique(&self, c1: Seq<nat>, l1: Seq<Seq<u32>>, c2: Seq<nat>, l2: Seq<Seq<u32>>)
        requires
            self.filling(c1, l1),
            self.filling(c2, l2),
            self.bitmap != 0,
            self.array@[0] == COUNT_FLAG,
        ensures
            c1 == c2,
            l1 == no_lists(),
            l2 == no_lists(),
    {
        let b = self.bitmap;
        assert forall|j: int| 0 <= j < 64 implies c1[j] == c2[j] by {
            if bit(b, j as u64) {
                assert(c1[j] == self.array@[rank(b, j as nat) as int + 1]);
                assert(c2[j] == self.array@[rank(b, j as nat) as int + 1]);
            } else {
                assert(c1[j] == 0 && c2[j] == 0);
            }
        }
        assert(c1 =~= c2);
        assert forall|j: int| 0 <= j < 64 implies l1[j] =~= no_lists()[j] && l2[j] =~= no_lists()[j] by {
            assert(l1[j].len() == 0 && l2[j].len() == 0);
        }
        assert(l1 =~= no_lists());
        assert(l2 =~= no_lists());
    }

    /// Writing an id at the cursor of slot `idx` and advancing the cursor appends it to the slot.
    proof fn lemma_fill_step(g: Group, ng: Group, idx: int, dat: u32, caps: Seq<nat>, lists: Seq<Seq<u32>>)
        requires
            0 <= idx < 64,
            g.filling(caps, lists),
            g.array@[0] != COUNT_FLAG,
            lists[idx].len() < caps[idx],
            ng.bitmap == g.bitmap,
            ng.array@ == g.array@.update(
                popcount(g.bitmap) + 1 + g.array@[rank(g.bitmap, idx as nat) as int + 1] as int,
                dat,
            ).update(
                rank(g.bitmap, idx as nat) as int + 1,
                (g.array@[rank(g.bitmap, idx as nat) as int + 1] + 1) as u32,
            ),
        ensures
            ng.filling(caps, lists.update(idx, lists[idx].push(dat))),
    {
        let b = g.bitmap;
        let a = g.array@;
        let na = ng.array@;
        let p = popcount(b) as int;
        let nlists = lists.update(idx, lists[idx].push(dat));
        assert(caps[idx] > 0);
        let k = idx as u64;
        crate::bits::lemma_bit_nonzero();
        Self::lemma_rank_below(b, idx);
        lemma_prefix_mono(caps, idx, 64);
        lemma_prefix_mono(caps, idx + 1, 64);
        assert forall|j: int| 0 <= j < 64 implies #[trigger] nlists[j].len() <= caps[j] by {}
        assert forall|j: int|
            0 <= j < 64 && bit(b, j as u64) implies na[rank(b, j as nat) as int + 1] == prefix(caps, j)
                + #[trigger] nlists[j].len() by {
            if j < idx {
                Self::lemma_rank_order(b, j, idx);
            } else if j > idx {
                Self::lemma_rank_order(b, idx, j);
            }
            Self::lemma_rank_below(b, j);
        }
        assert forall|j: int, t: int|
            0 <= j < 64 && 0 <= t < nlists[j].len() implies na[p + 1 + prefix(caps, j) + t]
                == #[trigger] nlists[j][t] by {
            lemma_prefix_mono(caps, j, 64);
            lemma_prefix_mono(caps, j + 1, 64);
            if j < idx {
                lemma_prefix_mono(caps, j, idx);
            } else if j > idx {
                lemma_prefix_mono(caps, idx, j);
            }
        }
    }

    spec fn can_fill(&self, idx: int) -> bool {
        exists|cl: (Seq<nat>, Seq<Seq<u32>>)| self.filling(cl.0, cl.1) && cl.1[idx].len() < cl.0[idx]
    }

    fn data_insert(&mut self, idx: usize, dat: u32)
        requires
            idx < 64,
            old(self).can_fill(idx as int),
        ensures
            forall|caps: Seq<nat>, lists: Seq<Seq<u32>>|
                old(self).filling(caps, lists) && lists[idx as int].len() < caps[idx as int]
                    ==> final(self).filling(caps, lists.update(idx as int, lists[idx as int].push(dat))),
            final(self).bitmap == old(self).bitmap,
            !final(self).counting(),
    {
        let ghost cl = choose|cl: (Seq<nat>, Seq<Seq<u32>>)|
            self.filling(cl.0, cl.1) && cl.1[idx as int].len() < cl.0[idx as int];
        let ghost caps = cl.0;
        let ghost lists = cl.1;
        let ghost g0 = *self;
        proof {
            assert(caps[idx as int] > 0);
            let k = idx as u64;
            let b = self.bitmap;
            crate::bits::lemma_bit_nonzero();
        }
        if self.array[0] == COUNT_FLAG {
            proof {
                self.lemma_counting_unique(caps, lists, caps, lists);
            }
            self.allocate_mem_based_on_counts(Ghost(caps));
        }
        let ghost g1 = *self;
        let ghost b = self.bitmap;
        let totones = popcnt(self.bitmap);
        let howmany = popcnt_mask(self.bitmap, idx);
        proof {
            Self::lemma_rank_below(b, idx as int);
            lemma_prefix_mono(caps, idx as int, 64);
            lemma_prefix_mono(caps, idx as int + 1, 64);
        }
        let alen = self.array.len();
        let offset = self.array[howmany + 1] as usize;
        proof {
            if g0.array@[0] == COUNT_FLAG {
                assert(g1.filling(caps, no_lists()));
                assert(offset == prefix(caps, idx as int) + no_lists()[idx as int].len());
            } else {
                assert(offset == prefix(caps, idx as int) + lists[idx as int].len());
            }
        }
        self.array[totones + 1 + offset] = dat;
        self.array[howmany + 1] = self.array[howmany + 1] + 1;
        proof {
            assert forall|c: Seq<nat>, l: Seq<Seq<u32>>|
                g0.filling(c, l) && l[idx as int].len() < c[idx as int] implies self.filling(
                c,
                l.update(idx as int, l[idx as int].push(dat)),
            ) by {
                if g0.array@[0] == COUNT_FLAG {
                    g0.lemma_counting_unique(caps, lists, c, l);
                    Self::lemma_fill_step(g1, *self, idx as int, dat, c, no_lists());
                } else {
                    Self::lemma_fill_step(g1, *self, idx as int, dat, c, l);
                }
            }
        }
    }
}

/// The reservations of group `g`: its 64 slots, zero past the end of the table.
pub open spec fn group_caps(caps: Seq<nat>, g: int) -> Seq<nat> {
    Seq::new(64, |t: int| if 64 * g + t < caps.len() { caps[64 * g + t] } else { 0nat })
}

/// The lists of group `g`: its 64 slots, empty past the end of the table.
pub open spec fn group_lists(lists: Seq<Seq<u32>>, g: int) -> Seq<Seq<u32>> {
    Seq::new(64, |t: int| if 64 * g + t < lists.len() { lists[64 * g + t] } else { Seq::<u32>::empty() })
}

/// `n` empty lists.
pub open spec fn empty_lists(n: nat) -> Seq<Seq<u32>> {
    Seq::new(n, |v: int| Seq::<u32>::empty())
}

proof fn lemma_group_sum(caps: Seq<nat>, g: int, t: int)
    requires
        0 <= g,
        64 * g <= caps.len(),
        0 <= t <= 64,
    ensures
        prefix(group_caps(caps, g), t) + prefix(caps, 64 * g) == prefix(
            caps,
            if 64 * g + t < caps.len() { 64 * g + t } else { caps.len() as int },
        ),
    decreases t,
{
    if t > 0 {
        lemma_group_sum(caps, g, t - 1);
    }
}

proof fn lemma_group_sum_le(caps: Seq<nat>, g: int)
    requires
        0 <= g,
        64 * g <= caps.len(),
    ensures
        prefix(group_caps(caps, g), 64) <= prefix(caps, caps.len() as int),
{
    lemma_group_sum(caps, g, 64);
    lemma_prefix_mono(caps, if 64 * g + 64 < caps.len() { 64 * g + 64 } else { caps.len() as int }, caps.len() as int);
}

/// Sparse hash table of the internal data structure of MIH.
///
/// It maps each slot in `0..2^num_bits` to a list of ids. A table is filled either by
/// `insert`, or in two phases: `count_insert` for every id, then `data_insert` for
/// every id in the same order.
#[derive(Clone, PartialEq, Eq, Debug)]
pub struct Table {
    num_bits: usize,
    groups: Vec<Group>,
}

impl Table {
    pub closed spec fn spec_num_bits(&self) -> nat {
        self.num_bits as nat
    }

    /// The number of slots.
    pub open spec fn spec_len(&self) -> nat {
        pow2(self.spec_num_bits())
    }

    closed spec fn shape(&self) -> bool {
        &&& 1 <= self.num_bits < 64
        &&& pow2(self.num_bits as nat) <= usize::MAX
        &&& self.groups@.len() == if pow2(self.num_bits as nat) >= 64 {
            pow2(self.num_bits as nat) / 64
        } else {
            1
        }
    }

    /// The slots hold `lists`, out of a reservation of `caps[v]` ids for slot `v`.
    pub closed spec fn filling(&self, caps: Seq<nat>, lists: Seq<Seq<u32>>) -> bool {
        &&& self.shape()
        &&& caps.len() == self.spec_len()
        &&& lists.len() == self.spec_len()
        &&& forall|g: int|
            0 <= g < self.groups@.len() ==> #[trigger] self.groups@[g].filling(
                group_caps(caps, g),
                group_lists(lists, g),
            )
    }

    /// How many ids each slot has been counted for, during the counting phase.
    pub closed spec fn counts(&self) -> Seq<nat> {
        Seq::new(
            self.spec_len(),
            |v: int|
                {
                    let g = self.groups@[v / 64];
                    if bit(g.bitmap, (v % 64) as u64) {
                        g.array@[rank(g.bitmap, (v % 64) as nat) as int + 1] as nat
                    } else {
                        0nat
                    }
                },
        )
    }

    /// In the counting phase: every group counts, and nothing is filled yet.
    pub closed spec fn counted(&self) -> bool {
        &&& forall|g: int| 0 <= g < self.groups@.len() ==> #[trigger] self.groups@[g].counting()
        &&& self.filling(self.counts(), empty_lists(self.spec_len()))
    }

    /// The slots of a table can be numbered by `usize`.
    pub proof fn lemma_len_fits(&self)
        requires
            self.complete(),
        ensures
            self.spec_len() <= usize::MAX,
    {
    }

    /// While counting, a slot with no count has no bit set in its group.
    proof fn lemma_uncounted(&self, v: int)
        requires
            self.shape(),
            0 <= v < self.spec_len(),
        ensures
            self.counted() && self.counts()[v] == 0 ==> !bit(self.groups@[v / 64].bitmap, (v % 64) as u64),
    {
        self.lemma_group_index(v);
        if self.counted() && self.counts()[v] == 0 {
            let g = v / 64;
            assert(self.groups@[g].filling(group_caps(self.counts(), g), group_lists(empty_lists(self.spec_len()), g)));
            assert(group_caps(self.counts(), g)[v % 64] == 0);
        }
    }

    /// A table has one slot list per slot.
    pub proof fn lemma_view_len(&self)
        ensures
            self.view().len() == self.spec_len(),
    {
    }

    /// A table that has only been counted is being filled, with nothing in it yet.
    pub proof fn lemma_counted(&self)
        requires
            self.counted(),
        ensures
            self.filling(self.counts(), empty_lists(self.spec_len())),
    {
    }

    /// Every slot holds its full list.
    pub closed spec fn complete(&self) -> bool {
        &&& self.shape()
        &&& forall|g: int| 0 <= g < self.groups@.len() ==> #[trigger] self.groups@[g].complete()
        &&& forall|t: int|
            self.spec_len() <= t < 64 ==> #[trigger] self.groups@[0].view()[t].len() == 0
    }

    /// The list of each slot, once complete.
    pub closed spec fn view(&self) -> Seq<Seq<u32>> {
        Seq::new(self.spec_len(), |v: int| self.groups@[v / 64].view()[v % 64])
    }

    proof fn lemma_group_index(&self, v: int)
        requires
            self.shape(),
            0 <= v < self.spec_len(),
        ensures
            0 <= v / 64 < self.groups@.len(),
            0 <= v % 64 < 64,
            64 * (v / 64) + v % 64 == v,
            64 * (v / 64) <= self.spec_len(),
    {
        if self.spec_len() >= 64 {
            assert(self.spec_len() % 64 == 0) by {
                vstd::arithmetic::power2::lemma_pow2_adds(6, (self.num_bits - 6) as nat);
                vstd::arithmetic::power2::lemma2_to64();
                if self.num_bits < 6 {
                    vstd::arithmetic::power2::lemma_pow2_strictly_increases(self.num_bits as nat, 6);
                }
            }
        }
    }

    /// A table whose lists have all reached their reservation is complete, and shows them.
    pub proof fn lemma_filled(&self, caps: Seq<nat>, lists: Seq<Seq<u32>>)
        requires
            self.filling(caps, lists),
            forall|v: int| 0 <= v < lists.len() ==> #[trigger] lists[v].len() == caps[v],
        ensures
            self.complete(),
            self.view() == lists,
    {
        assert forall|g: int| 0 <= g < self.groups@.len() implies #[trigger] self.groups@[g].complete()
            && self.groups@[g].view() == group_lists(lists, g) by {
            let gc = group_caps(caps, g);
            let gl = group_lists(lists, g);
            assert(self.groups@[g].filling(gc, gl));
            assert forall|t: int| 0 <= t < 64 implies #[trigger] gl[t].len() == gc[t] by {}
            self.groups@[g].lemma_full_complete(gc, gl);
        }
        assert forall|t: int| self.spec_len() <= t < 64 implies #[trigger] self.groups@[0].view()[t].len()
            == 0 by {
            assert(self.groups@[0].complete());
            assert(self.groups@[0].view() == group_lists(lists, 0));
        }
        assert forall|v: int| 0 <= v < self.spec_len() implies #[trigger] self.view()[v] == lists[v] by {
            self.lemma_group_index(v);
            assert(self.groups@[v / 64].complete());
            assert(self.groups@[v / 64].view() == group_lists(lists, v / 64));
        }
        assert(self.view() =~= lists);
    }

    /// The serialized form: the width, the number of groups, then each group.
    pub closed spec fn bytes(&self) -> Seq<u8> {
        le_bytes(self.num_bits as u64, 8) + le_bytes(self.groups@.len() as u64, 8) + Self::groups_bytes(
            self.groups@,
        )
    }

    spec fn groups_bytes(gs: Seq<Group>) -> Seq<u8>
        decreases gs.len(),
    {
        if gs.len() == 0 {
            Seq::empty()
        } else {
            Self::groups_bytes(gs.drop_last()) + gs.last().bytes()
        }
    }

    proof fn lemma_groups_bytes(gs1: Seq<Group>, gs2: Seq<Group>)
        requires
            gs1.len() == gs2.len(),
            forall|i: int| 0 <= i < gs1.len() ==> #[trigger] gs1[i].bytes() == gs2[i].bytes(),
        ensures
            Self::groups_bytes(gs1) == Self::groups_bytes(gs2),
        decreases gs1.len(),
    {
        if gs1.len() > 0 {
            let d1 = gs1.drop_last();
            let d2 = gs2.drop_last();
            assert forall|i: int| 0 <= i < d1.len() implies #[trigger] d1[i].bytes() == d2[i].bytes() by {
                assert(d1[i] == gs1[i] && d2[i] == gs2[i]);
            }
            Self::lemma_groups_bytes(d1, d2);
        }
    }

    /// In a complete table, each group shows its share of the slot lists.
    proof fn lemma_group_view(&self, g: int)
        requires
            self.complete(),
            0 <= g < self.groups@.len(),
        ensures
            self.groups@[g].view() == group_lists(self.view(), g),
            64 * g < self.spec_len(),
    {
        let len = self.spec_len();
        let gr = self.groups@[g];
        if len >= 64 {
            assert(64 * g + 63 < len) by (nonlinear_arith)
                requires
                    0 <= g < len / 64,
                    len >= 64,
            ;
        }
        assert forall|t: int| 0 <= t < 64 implies #[trigger] gr.view()[t] == group_lists(self.view(), g)[t] by {
            let v = 64 * g + t;
            if v < len {
                self.lemma_group_index(v);
                assert(v / 64 == g && v % 64 == t) by (nonlinear_arith)
                    requires
                        v == 64 * g + t,
                        0 <= t < 64,
                        0 <= g,
                ;
            } else {
                assert(gr.view()[t].len() == 0);
                assert(gr.view()[t] =~= Seq::<u32>::empty());
            }
        }
        assert(gr.view() =~= group_lists(self.view(), g));
        vstd::arithmetic::power2::lemma_pow2_pos(self.num_bits as nat);
    }

    /// Appends `dat` to slot `idx` directly, in one phase.
    pub fn insert(&mut self, idx: usize, dat: u32)
        requires
            old(self).complete(),
            idx < old(self).spec_len(),
            prefix(lens(old(self).view()), old(self).spec_len() as int) < u32::MAX,
        ensures
            final(self).complete(),
            final(self).spec_num_bits() == old(self).spec_num_bits(),
            final(self).view().len() == final(self).spec_len(),
            final(self).view() == old(self).view().update(idx as int, old(self).view()[idx as int].push(dat)),
    {
        let ghost t0 = *self;
        let ghost len = self.spec_len();
        proof {
            self.lemma_group_index(idx as int);
        }
        let gpos = idx / GROUP_SIZE;
        let gmod = idx % GROUP_SIZE;
        proof {
            let g = gpos as int;
            self.lemma_group_view(g);
            assert(lens(self.groups@[g].view()) =~= group_caps(lens(self.view()), g));
            lemma_group_sum_le(lens(self.view()), g);
        }
        self.groups[gpos].insert(gmod, dat);
        proof {
            let g = gpos as int;
            let nv = t0.view().update(idx as int, t0.view()[idx as int].push(dat));
            assert forall|h: int| 0 <= h < self.groups@.len() implies #[trigger] self.groups@[h].complete() by {
                if h != g {
                    assert(self.groups@[h] == t0.groups@[h]);
                }
            }
            assert forall|t: int| self.spec_len() <= t < 64 implies #[trigger] self.groups@[0].view()[t].len() == 0 by {
                if g != 0 {
                    assert(self.groups@[0] == t0.groups@[0]);
                } else {
                    assert(t != gmod);
                }
            }
            assert forall|v: int| 0 <= v < len implies #[trigger] self.view()[v] == nv[v] by {
                self.lemma_group_index(v);
                if v / 64 != g {
                    assert(self.groups@[v / 64] == t0.groups@[v / 64]);
                    assert(v != idx);
                } else if v != idx as int {
                    assert(v % 64 != gmod);
                }
            }
            assert(self.view() =~= nv);
        }
    }

    /// Two complete tables of one width with the same slot lists serialize alike.
    pub proof fn lemma_same_bytes(t1: Table, t2: Table)
        requires
            t1.complete(),
            t2.complete(),
            t1.spec_num_bits() == t2.spec_num_bits(),
            t1.view() == t2.view(),
        ensures
            t1.bytes() == t2.bytes(),
    {
        let len = t1.spec_len();
        assert forall|g: int| 0 <= g < t1.groups@.len() implies #[trigger] t1.groups@[g].bytes() == t2.groups@[g].bytes() by {
            let g1 = t1.groups@[g];
            let g2 = t2.groups@[g];
            assert(g1.complete() && g2.complete());
            assert forall|t: int| 0 <= t < 64 implies #[trigger] g1.view()[t] == g2.view()[t] by {
                let v = 64 * g + t;
                if v < len {
                    t1.lemma_group_index(v);
                    assert(v / 64 == g && v % 64 == t) by (nonlinear_arith)
                        requires
                            v == 64 * g + t,
                            0 <= t < 64,
                            0 <= g,
                    ;
                    assert(t1.view()[v] == g1.view()[t]);
                    assert(t2.view()[v] == g2.view()[t]);
                } else {
                    assert(len < 64 && g == 0) by {
                        if len >= 64 {
                            assert(t1.groups@.len() == len / 64);
                            assert(64 * g + t < len) by (nonlinear_arith)
                                requires
                                    0 <= g < len / 64,
                                    0 <= t < 64,
                                    len >= 64,
                            ;
                        }
                    }
                    assert(g1.view()[t].len() == 0);
                    assert(g2.view()[t].len() == 0);
                    assert(g1.view()[t] =~= g2.view()[t]);
                }
            }
            assert(g1.view() =~= g2.view());
            Group::lemma_canonical(g1, g2);
        }
        Self::lemma_groups_bytes(t1.groups@, t2.groups@);
    }

    /// Serializes the table into `out`.
    pub fn serialize_into(&self, out: &mut Vec<u8>) -> (r: Result<(), Error>)
        ensures
            r is Ok,
            final(out)@ == old(out)@ + self.bytes(),
    {
        put_le(out, self.num_bits as u64, 8);
        put_le(out, self.groups.len() as u64, 8);
        let ghost o2 = out@;
        let mut i: usize = 0;
        proof {
            assert(self.groups@.subrange(0, 0) =~= Seq::<Group>::empty());
            assert(out@ =~= o2 + Self::groups_bytes(self.groups@.subrange(0, 0)));
        }
        while i < self.groups.len()
            invariant
                i <= self.groups@.len(),
                out@ == o2 + Self::groups_bytes(self.groups@.subrange(0, i as int)),
            decreases self.groups@.len() - i,
        {
            self.groups[i].serialize_into(out);
            proof {
                assert(self.groups@.subrange(0, i as int + 1).drop_last() =~= self.groups@.subrange(0, i as int));
                assert(out@ =~= o2 + Self::groups_bytes(self.groups@.subrange(0, i as int + 1)));
            }
            i += 1;
        }
        proof {
            assert(self.groups@.subrange(0, self.groups@.len() as int) =~= self.groups@);
        }
        Ok(())
    }

    proof fn lemma_groups_prefix(gs: Seq<Group>, j: int)
        requires
            0 <= j <= gs.len(),
        ensures
            Self::groups_bytes(gs.subrange(0, j)).len() <= Self::groups_bytes(gs).len(),
            Self::groups_bytes(gs).subrange(0, Self::groups_bytes(gs.subrange(0, j)).len() as int) == Self::groups_bytes(
                gs.subrange(0, j),
            ),
        decreases gs.len(),
    {
        if j == gs.len() {
            assert(gs.subrange(0, j) =~= gs);
        } else {
            let d = gs.drop_last();
            Self::lemma_groups_prefix(d, j);
            assert(d.subrange(0, j) =~= gs.subrange(0, j));
            let x = Self::groups_bytes(gs);
            let l = Self::groups_bytes(gs.subrange(0, j)).len() as int;
            assert(x.subrange(0, l) =~= Self::groups_bytes(d).subrange(0, l));
        }
    }

    /// Where each group of a complete table sits in its serialized form.
    #[verifier::rlimit(100)]
    #[verifier::spinoff_prover]
    proof fn lemma_decode_facts(t: Table, bytes: Seq<u8>)
        requires
            t.complete(),
            t.bytes() == bytes,
            prefix(lens(t.view()), t.spec_len() as int) + 65 <= u32::MAX,
        ensures
            bytes.subrange(0, 8) == le_bytes(t.num_bits as u64, 8),
            bytes.subrange(8, 16) == le_bytes(t.groups@.len() as u64, 8),
            bytes.len() == 16 + Self::groups_bytes(t.groups@).len(),
            t.spec_len() < 64 ==> t.groups@[0].bitmap >> (t.spec_len() as u64) == 0,
    {
        let gs = t.groups@;
        let x = Self::groups_bytes(gs);
        assert(bytes.subrange(0, 8) =~= le_bytes(t.num_bits as u64, 8));
        assert(bytes.subrange(8, 16) =~= le_bytes(t.groups@.len() as u64, 8));
        if t.spec_len() < 64 {
            let bm = gs[0].bitmap;
            let l = t.spec_len() as u64;
            assert(gs[0].complete());
            crate::bits::lemma_zero_bits();
            assert forall|k: u64| l <= k < 64 implies bit(bm, k) == bit(0u64, k) by {
                assert(gs[0].view()[k as int].len() == 0);
                if bit(bm, k) {
                    assert(lens(gs[0].view())[k as int] > 0);
                }
            }
            crate::bits::lemma_shift_ext(bm, 0u64, l);
        }
    }

    /// Where group `g` of a complete table sits in its serialized form.
    #[verifier::rlimit(100)]
    #[verifier::spinoff_prover]
    proof fn lemma_decode_group(t: Table, bytes: Seq<u8>, g: int)
        requires
            t.complete(),
            t.bytes() == bytes,
            prefix(lens(t.view()), t.spec_len() as int) + 65 <= u32::MAX,
            0 <= g < t.groups@.len(),
        ensures
            read_hyp(
                bytes,
                16 + Self::groups_bytes(t.groups@.subrange(0, g)).len() as int,
                t.groups@[g].bitmap,
                t.groups@[g].array@,
            ),
            Self::groups_bytes(t.groups@.subrange(0, g + 1)).len() == Self::groups_bytes(t.groups@.subrange(0, g)).len()
                + 12 + 4 * t.groups@[g].array@.len(),
            t.groups@[g].well_laid(),
    {
        let gs = t.groups@;
        let x = Self::groups_bytes(gs);
            let gr = gs[g];
        assert(gr.complete());
        gr.lemma_complete_laid();
        t.lemma_group_view(g);
        assert(lens(gr.view()) =~= group_caps(lens(t.view()), g));
        lemma_group_sum_le(lens(t.view()), g);
        crate::bits::lemma_rank_le(gr.bitmap, 64);
        assert(gr.array@.len() <= u32::MAX);
        lemma_u32s_len(gr.array@);
        let a = gs.subrange(0, g);
        let a1 = gs.subrange(0, g + 1);
        assert(a1.drop_last() =~= a);
        Self::lemma_groups_prefix(gs, g + 1);
        let la = Self::groups_bytes(a).len() as int;
        let la1 = Self::groups_bytes(a1).len() as int;
        assert(Self::groups_bytes(a1) == Self::groups_bytes(a) + gr.bytes());
        assert(gr.bytes().len() == 12 + 4 * gr.array@.len());
        assert(la1 == la + gr.bytes().len());
        assert(bytes.subrange(16 + la, 16 + la1) =~= x.subrange(la, la1));
        assert(x.subrange(0, la1).subrange(la, la1) =~= x.subrange(la, la1));
        assert(Self::groups_bytes(a1).subrange(la, la1) =~= gr.bytes());
        assert(bytes.subrange(16 + la, 16 + la1) =~= gr.bytes());
        assert(gr.bytes() =~= le_bytes(gr.bitmap, 8) + le_bytes(gr.array@.len() as u64, 4) + u32s_bytes(gr.array@));
        assert(x.len() >= la1);
        assert(bytes.len() == 16 + x.len());
        assert(16 + la + 12 + 4 * gr.array@.len() <= bytes.len());
        assert(read_hyp(bytes, 16 + la, gr.bitmap, gr.array@));
        assert(gr.array@.len() as u32 as u64 == gr.array@.len());
    }

    /// Deserializes a table, accepting only the layout of a complete table.
    pub fn deserialize_from(bytes: &[u8]) -> (r: Result<Table, Error>)
        ensures
            r is Err ==> r == Err::<Table, Error>(Error::Io),
            r matches Ok(t) ==> t.complete() && t.bytes() == bytes@,
            forall|t: Table|
                t.complete() && prefix(lens(t.view()), t.spec_len() as int) + 65 <= u32::MAX && #[trigger] t.bytes()
                    == bytes@ ==> (r matches Ok(u) && u.spec_num_bits() == t.spec_num_bits() && u.view() == t.view()),
    {
        let blen = bytes.len();
        let nb = match get_le(bytes, 0, 8) {
            Some(v) => v,
            None => {
                proof {
                    assert forall|t: Table|
                        t.complete() && prefix(lens(t.view()), t.spec_len() as int) + 65 <= u32::MAX && #[trigger] t.bytes()
                            == bytes@ implies false by {
                        Self::lemma_decode_facts(t, bytes@);
                        
                    }
                }
                return Err(Error::Io);
            },
        };
        let ng = match get_le(bytes, 8, 8) {
            Some(v) => v,
            None => {
                proof {
                    assert forall|t: Table|
                        t.complete() && prefix(lens(t.view()), t.spec_len() as int) + 65 <= u32::MAX && #[trigger] t.bytes()
                            == bytes@ implies false by {
                        Self::lemma_decode_facts(t, bytes@);
                        
                    }
                }
                return Err(Error::Io);
            },
        };
        proof {
            assert forall|t: Table|
                t.complete() && prefix(lens(t.view()), t.spec_len() as int) + 65 <= u32::MAX && #[trigger] t.bytes()
                    == bytes@ implies nb == t.num_bits as u64 && ng == t.groups@.len() as u64 by {
                Self::lemma_decode_facts(t, bytes@);
                crate::codec::lemma_le_bytes_inj(nb, t.num_bits as u64, 8);
                crate::codec::lemma_le_bytes_inj(ng, t.groups@.len() as u64, 8);
            }
        }
        if nb == 0 || nb >= 64 {
                proof {
                    assert forall|t: Table|
                        t.complete() && prefix(lens(t.view()), t.spec_len() as int) + 65 <= u32::MAX && #[trigger] t.bytes()
                            == bytes@ implies false by {
                        Self::lemma_decode_facts(t, bytes@);
                        
                    }
                }
            return Err(Error::Io);
        }
        proof {
            vstd::bits::lemma_u64_pow2_no_overflow(nb as nat);
            vstd::bits::lemma_u64_shl_is_mul(1, nb);
        }
        let len64 = 1u64 << nb;
        if len64 > usize::MAX as u64 {
                proof {
                    assert forall|t: Table|
                        t.complete() && prefix(lens(t.view()), t.spec_len() as int) + 65 <= u32::MAX && #[trigger] t.bytes()
                            == bytes@ implies false by {
                        Self::lemma_decode_facts(t, bytes@);
                        
                    }
                }
            return Err(Error::Io);
        }
        let len = len64 as usize;
        let num_groups = if len >= GROUP_SIZE {
            len / GROUP_SIZE
        } else {
            1
        };
        if ng != num_groups as u64 {
                proof {
                    assert forall|t: Table|
                        t.complete() && prefix(lens(t.view()), t.spec_len() as int) + 65 <= u32::MAX && #[trigger] t.bytes()
                            == bytes@ implies false by {
                        Self::lemma_decode_facts(t, bytes@);
                        vstd::arithmetic::power2::lemma2_to64();
                        if nb > 6 {
                            vstd::arithmetic::power2::lemma_pow2_strictly_increases(6, nb as nat);
                        }
                        if nb < 6 {
                            vstd::arithmetic::power2::lemma_pow2_strictly_increases(nb as nat, 6);
                        }
                    }
                }
            return Err(Error::Io);
        }
        let mut groups: Vec<Group> = Vec::new();
        let mut pos: usize = 16;
        proof {
            assert(Self::groups_bytes(groups@) =~= bytes@.subrange(16, 16));
            vstd::arithmetic::power2::lemma2_to64();
            if nb > 6 {
                vstd::arithmetic::power2::lemma_pow2_strictly_increases(6, nb as nat);
            }
        }
        while groups.len() < num_groups
            invariant
                blen == bytes@.len(),
                16 <= pos <= blen,
                groups@.len() <= num_groups,
                forall|g: int| 0 <= g < groups@.len() ==> (#[trigger] groups@[g]).complete(),
                Self::groups_bytes(groups@) == bytes@.subrange(16, pos as int),
                len < 64 && groups@.len() > 0 ==> crate::bits::fits(groups@[0].bitmap, len as nat),
                len == pow2(nb as nat),
                len < 64 ==> nb < 6,
                forall|t: Table|
                    t.complete() && prefix(lens(t.view()), t.spec_len() as int) + 65 <= u32::MAX && #[trigger] t.bytes()
                        == bytes@ ==> nb == t.num_bits as u64 && num_groups == t.groups@.len() && pos == 16
                        + Table::groups_bytes(t.groups@.subrange(0, groups@.len() as int)).len() && forall|h: int|
                        0 <= h < groups@.len() ==> (#[trigger] groups@[h]).bitmap == t.groups@[h].bitmap
                            && groups@[h].array@ == t.groups@[h].array@,
            decreases num_groups - groups@.len(),
        {
            let gi = groups.len();
            let (g, end) = match Group::read(bytes, pos) {
                Some(ge) => ge,
                None => {
                proof {
                    assert forall|t: Table|
                        t.complete() && prefix(lens(t.view()), t.spec_len() as int) + 65 <= u32::MAX && #[trigger] t.bytes()
                            == bytes@ implies false by {
                        Self::lemma_decode_facts(t, bytes@);
                        Self::lemma_decode_group(t, bytes@, gi as int);
                    }
                }
                    return Err(Error::Io);
                },
            };
            proof {
                assert forall|t: Table|
                    t.complete() && prefix(lens(t.view()), t.spec_len() as int) + 65 <= u32::MAX && #[trigger] t.bytes()
                        == bytes@ implies g.bitmap == t.groups@[gi as int].bitmap && g.array@ == t.groups@[gi as int].array@
                        && end == 16 + Table::groups_bytes(t.groups@.subrange(0, gi + 1)).len() && g.well_laid() by {
                    Self::lemma_decode_facts(t, bytes@);
                    Self::lemma_decode_group(t, bytes@, gi as int);
                }
            }
            if !g.check_layout() {
                proof {
                    assert forall|t: Table|
                        t.complete() && prefix(lens(t.view()), t.spec_len() as int) + 65 <= u32::MAX && #[trigger] t.bytes()
                            == bytes@ implies false by {
                        Self::lemma_decode_facts(t, bytes@);
                        Self::lemma_decode_group(t, bytes@, gi as int);
                    }
                }
                return Err(Error::Io);
            }
            if len < GROUP_SIZE && (g.bitmap >> len as u64) != 0 {
                proof {
                    assert forall|t: Table|
                        t.complete() && prefix(lens(t.view()), t.spec_len() as int) + 65 <= u32::MAX && #[trigger] t.bytes()
                            == bytes@ implies false by {
                        Self::lemma_decode_facts(t, bytes@);
                        Self::lemma_decode_group(t, bytes@, gi as int);
                        if gi > 0 {
                            vstd::arithmetic::power2::lemma2_to64();
                            if nb > 6 {
                                vstd::arithmetic::power2::lemma_pow2_strictly_increases(6, nb as nat);
                            }
                        }
                    }
                }
                return Err(Error::Io);
            }
            proof {
                g.lemma_laid_complete();
            }
            let ghost prev = groups@;
            groups.push(g);
            proof {
                assert(groups@.drop_last() =~= prev);
                assert forall|t: Table|
                    t.complete() && prefix(lens(t.view()), t.spec_len() as int) + 65 <= u32::MAX && #[trigger] t.bytes()
                        == bytes@ implies forall|h: int|
                        0 <= h < groups@.len() ==> (#[trigger] groups@[h]).bitmap == t.groups@[h].bitmap
                            && groups@[h].array@ == t.groups@[h].array@ by {
                    assert forall|h: int| 0 <= h < groups@.len() implies (#[trigger] groups@[h]).bitmap == t.groups@[h].bitmap
                        && groups@[h].array@ == t.groups@[h].array@ by {
                        if h < prev.len() {
                            assert(groups@[h] == prev[h]);
                        }
                    }
                }
                assert(bytes@.subrange(16, end as int) =~= bytes@.subrange(16, pos as int) + bytes@.subrange(pos as int, end as int));
            }
            pos = end;
        }
        if pos != blen {
                proof {
                    assert forall|t: Table|
                        t.complete() && prefix(lens(t.view()), t.spec_len() as int) + 65 <= u32::MAX && #[trigger] t.bytes()
                            == bytes@ implies false by {
                        Self::lemma_decode_facts(t, bytes@);
                        assert(t.groups@.subrange(0, num_groups as int) =~= t.groups@);
                    }
                }
            return Err(Error::Io);
        }
        let t = Table { num_bits: nb as usize, groups };
        proof {
            if len < 64 {
                assert forall|k: u64| len <= k < 64 implies !bit(t.groups@[0].bitmap, k) by {
                    crate::bits::lemma_fits_bit(t.groups@[0].bitmap, len as u64, k);
                }
                assert forall|x: int| t.spec_len() <= x < 64 implies #[trigger] t.groups@[0].view()[x].len() == 0 by {
                    assert(!bit(t.groups@[0].bitmap, x as u64));
                }
                if nb < 6 {
                    vstd::arithmetic::power2::lemma_pow2_strictly_increases(nb as nat, 6);
                    vstd::arithmetic::power2::lemma2_to64();
                }
            } else {
                if nb < 6 {
                    vstd::arithmetic::power2::lemma_pow2_strictly_increases(nb as nat, 6);
                    vstd::arithmetic::power2::lemma2_to64();
                }
            }
            assert(t.shape());
            assert(bytes@.subrange(16, blen as int) =~= bytes@.subrange(16, pos as int));
            assert(bytes@ =~= bytes@.subrange(0, 8) + bytes@.subrange(8, 16) + bytes@.subrange(16, blen as int));
            assert((nb as usize) as u64 == nb);
            assert forall|t2: Table|
                t2.complete() && prefix(lens(t2.view()), t2.spec_len() as int) + 65 <= u32::MAX && #[trigger] t2.bytes()
                    == bytes@ implies t.spec_num_bits() == t2.spec_num_bits() && t.view() == t2.view() by {
                assert forall|v: int| 0 <= v < t.spec_len() implies #[trigger] t.view()[v] == t2.view()[v] by {
                    t.lemma_group_index(v);
                    let h = v / 64;
                    assert(t.groups@[h].bitmap == t2.groups@[h].bitmap && t.groups@[h].array@ == t2.groups@[h].array@);
                    assert(t.groups@[h].view() =~= t2.groups@[h].view());
                }
                assert(t.view() =~= t2.view());
            }
        }
        Ok(t)
    }

    /// Make a new table accessable with index in [0..2^bits).
    pub fn new(num_bits: usize) -> (r: Result<Table, Error>)
        ensures
            r is Ok <==> 1 <= num_bits < 64 && pow2(num_bits as nat) <= usize::MAX,
            r is Err ==> r == Err::<Table, Error>(Error::InvalidTableWidth),
            r matches Ok(t) ==> {
                &&& t.spec_num_bits() == num_bits
                &&& t.complete()
                &&& t.view() == empty_lists(t.spec_len())
                &&& t.view().len() == t.spec_len()
                &&& t.counted()
                &&& t.counts() == Seq::new(t.spec_len(), |v: int| 0nat)
            },
    {
        if num_bits == 0 || num_bits >= 64 {
            return Err(Error::InvalidTableWidth);
        }
        let n = num_bits as u64;
        proof {
            vstd::bits::lemma_u64_pow2_no_overflow(n as nat);
            vstd::bits::lemma_u64_shl_is_mul(1, n);
        }
        let len64 = 1u64 << n;
        if len64 > usize::MAX as u64 {
            return Err(Error::InvalidTableWidth);
        }
        let len = len64 as usize;
        let num_groups = if len >= GROUP_SIZE {
            len / GROUP_SIZE
        } else {
            1
        };
        let mut groups: Vec<Group> = Vec::new();
        let mut i: usize = 0;
        while i < num_groups
            invariant
                i <= num_groups,
                groups@.len() == i,
                forall|g: int| 0 <= g < i ==> (#[trigger] groups@[g]).bitmap == 0 && groups@[g].array@.len() == 0,
            decreases num_groups - i,
        {
            groups.push(Group::new_empty());
            i += 1;
        }
        let t = Table { num_bits, groups };
        proof {
            let zeros = Seq::new(t.spec_len(), |v: int| 0nat);
            let e = empty_lists(t.spec_len());
            assert forall|g: int| 0 <= g < t.groups@.len() implies #[trigger] t.groups@[g].filling(
                group_caps(zeros, g),
                group_lists(e, g),
            ) by {
                Group::lemma_empty(t.groups@[g]);
                assert(group_caps(zeros, g) =~= Seq::new(64, |j: int| 0nat));
                assert(group_lists(e, g) =~= no_lists());
            }
            assert forall|v: int| 0 <= v < t.spec_len() implies #[trigger] t.counts()[v] == zeros[v] by {
                t.lemma_group_index(v);
                let k = (v % 64) as u64;
                crate::bits::lemma_zero_bits();
            }
            assert(t.counts() =~= zeros);
            assert forall|g: int| 0 <= g < t.groups@.len() implies #[trigger] t.groups@[g].counting() by {}
            t.lemma_filled(zeros, e);
        }
        Ok(t)
    }

    /// The ids in slot `idx`, or `None` when it is empty.
    pub fn access(&self, idx: usize) -> (r: Option<&[u32]>)
        requires
            self.complete() || (self.counted() && self.counts()[idx as int] == 0),
            idx < self.spec_len(),
        ensures
            self.complete() ==> match r {
                None => self.view()[idx as int].len() == 0,
                Some(s) => s@ == self.view()[idx as int] && s@.len() > 0,
            },
            self.counted() && self.counts()[idx as int] == 0 ==> r is None,
    {
        proof {
            self.lemma_group_index(idx as int);
            self.lemma_uncounted(idx as int);
        }
        let gpos = idx / GROUP_SIZE;
        let gmod = idx % GROUP_SIZE;
        self.groups[gpos].access(gmod)
    }

    /// Counts one more id for slot `idx` (the first phase of a two-phase build).
    pub fn count_insert(&mut self, idx: usize)
        requires
            old(self).counted(),
            idx < old(self).spec_len(),
            prefix(old(self).counts(), old(self).spec_len() as int) < u32::MAX,
            prefix(old(self).counts(), old(self).spec_len() as int) + 66 <= usize::MAX,
        ensures
            final(self).counted(),
            final(self).spec_num_bits() == old(self).spec_num_bits(),
            final(self).counts() == old(self).counts().update(
                idx as int,
                old(self).counts()[idx as int] + 1,
            ),
    {
        let ghost t0 = *self;
        let ghost caps = self.counts();
        let ghost ncaps = caps.update(idx as int, caps[idx as int] + 1);
        let ghost len = self.spec_len();
        proof {
            self.lemma_group_index(idx as int);
        }
        let gpos = idx / GROUP_SIZE;
        let gmod = idx % GROUP_SIZE;
        proof {
            let g = gpos as int;
            lemma_group_sum_le(caps, g);
            assert(group_lists(empty_lists(len), g) =~= no_lists());
            assert(self.groups@[g].filling(group_caps(caps, g), no_lists()));
        }
        let ghost gc = group_caps(caps, gpos as int);
        self.groups[gpos].count_insert(gmod, Ghost(gc));
        proof {
            let g = gpos as int;
            assert(gc.update(gmod as int, gc[gmod as int] + 1) =~= group_caps(ncaps, g));
            assert forall|h: int| 0 <= h < self.groups@.len() implies #[trigger] self.groups@[h].filling(
                group_caps(ncaps, h),
                group_lists(empty_lists(len), h),
            ) && self.groups@[h].counting() by {
                assert(group_lists(empty_lists(len), h) =~= no_lists());
                if h != g {
                    assert(self.groups@[h] == t0.groups@[h]);
                    assert(group_caps(ncaps, h) =~= group_caps(caps, h)) by {
                        assert forall|t: int| 0 <= t < 64 implies group_caps(ncaps, h)[t] == group_caps(caps, h)[t] by {
                            if 64 * h + t < len {
                                assert(64 * h + t != idx);
                            }
                        }
                    }
                    assert(t0.groups@[h].filling(group_caps(caps, h), group_lists(empty_lists(len), h)));
                }
            }
            assert forall|v: int| 0 <= v < len implies #[trigger] self.counts()[v] == ncaps[v] by {
                self.lemma_group_index(v);
                let h = v / 64;
                let t = v % 64;
                assert(self.groups@[h].filling(group_caps(ncaps, h), group_lists(empty_lists(len), h)));
                assert(self.groups@[h].counting());
                Group::lemma_counting_caps(self.groups@[h], group_caps(ncaps, h), no_lists(), t);
            }
            assert(self.counts() =~= ncaps);
        }
    }

    /// Appends `dat` to slot `idx` (the second phase of a two-phase build).
    pub fn data_insert(&mut self, idx: usize, dat: u32)
        requires
            idx < old(self).spec_len(),
            exists|cl: (Seq<nat>, Seq<Seq<u32>>)|
                old(self).filling(cl.0, cl.1) && cl.1[idx as int].len() < cl.0[idx as int],
        ensures
            forall|caps: Seq<nat>, lists: Seq<Seq<u32>>|
                old(self).filling(caps, lists) && lists[idx as int].len() < caps[idx as int]
                    ==> final(self).filling(caps, lists.update(idx as int, lists[idx as int].push(dat))),
            final(self).spec_num_bits() == old(self).spec_num_bits(),
    {
        let ghost t0 = *self;
        let ghost len = self.spec_len();
        let ghost cl = choose|cl: (Seq<nat>, Seq<Seq<u32>>)|
            self.filling(cl.0, cl.1) && cl.1[idx as int].len() < cl.0[idx as int];
        proof {
            self.lemma_group_index(idx as int);
        }
        let gpos = idx / GROUP_SIZE;
        let gmod = idx % GROUP_SIZE;
        proof {
            let g = gpos as int;
            let gc = group_caps(cl.0, g);
            let gl = group_lists(cl.1, g);
            assert(self.groups@[g].filling(gc, gl) && gl[gmod as int].len() < gc[gmod as int]);
            let w = (gc, gl);
            assert(self.groups@[g].filling(w.0, w.1) && w.1[gmod as int].len() < w.0[gmod as int]);
            assert(self.groups@[g].can_fill(gmod as int));
        }
        self.groups[gpos].data_insert(gmod, dat);
        proof {
            let g = gpos as int;
            assert forall|caps: Seq<nat>, lists: Seq<Seq<u32>>|
                t0.filling(caps, lists) && lists[idx as int].len() < caps[idx as int] implies self.filling(
                caps,
                lists.update(idx as int, lists[idx as int].push(dat)),
            ) by {
                let nl = lists.update(idx as int, lists[idx as int].push(dat));
                assert forall|h: int| 0 <= h < self.groups@.len() implies #[trigger] self.groups@[h].filling(
                    group_caps(caps, h),
                    group_lists(nl, h),
                ) by {
                    assert(t0.groups@[h].filling(group_caps(caps, h), group_lists(lists, h)));
                    if h != g {
                        assert(self.groups@[h] == t0.groups@[h]);
                        assert(group_lists(nl, h) =~= group_lists(lists, h)) by {
                            assert forall|t: int| 0 <= t < 64 implies group_lists(nl, h)[t] == group_lists(lists, h)[t] by {
                                if 64 * h + t < len {
                                    assert(64 * h + t != idx);
                                }
                            }
                        }
                    } else {
                        let gl = group_lists(lists, g);
                        assert(gl[gmod as int].len() < group_caps(caps, g)[gmod as int]);
                        assert(gl.update(gmod as int, gl[gmod as int].push(dat)) =~= group_lists(nl, g));
                    }
                }
            }
        }
    }

    /// The number of slots, `2^num_bits`.
    pub fn len(&self) -> (r: usize)
        requires
            self.complete(),
        ensures
            r == self.spec_len(),
    {
        let n = self.num_bits as u64;
        proof {
            vstd::bits::lemma_u64_pow2_no_overflow(n as nat);
            vstd::bits::lemma_u64_shl_is_mul(1, n);
        }
        (1u64 << n) as usize
    }

    /// The number of slots, `2^num_bits`.
    pub fn get_size(&self) -> (r: usize)
        requires
            self.complete(),
        ensures
            r == self.spec_len(),
    {
        self.len()
    }

    /// The width of a slot index in bits.
    pub fn num_bits(&self) -> (r: usize)
        ensures
            r == self.spec_num_bits(),
    {
        self.num_bits
    }

    /// The width of a slot index in bits.
    pub fn get_bits(&self) -> (r: usize)
        ensures
            r == self.spec_num_bits(),
    {
        self.num_bits
    }

    /// The number of ids in slot `idx`.
    pub fn array_len(&self, idx: usize) -> (r: usize)
        requires
            self.complete() || (self.counted() && self.counts()[idx as int] == 0),
            idx < self.spec_len(),
        ensures
            self.complete() ==> r == self.view()[idx as int].len(),
            self.counted() && self.counts()[idx as int] == 0 ==> r == 0,
    {
        proof {
            self.lemma_group_index(idx as int);
            self.lemma_uncounted(idx as int);
        }
        let gpos = idx / GROUP_SIZE;
        let gmod = idx % GROUP_SIZE;
        self.groups[gpos].len(gmod)
    }

    /// The number of ids in slot `idx`.
    pub fn get_array_size(&self, idx: usize) -> (r: usize)
        requires
            self.complete() || (self.counted() && self.counts()[idx as int] == 0),
            idx < self.spec_len(),
        ensures
            self.complete() ==> r == self.view()[idx as int].len(),
            self.counted() && self.counts()[idx as int] == 0 ==> r == 0,
    {
        self.array_len(idx)
    }
}

} // verus!
