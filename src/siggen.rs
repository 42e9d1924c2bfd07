//! Enumeration of all bit patterns of a given weight, XOR'd with a base word.
use crate::bits::{bit, lemma_bit_ext, lemma_bit_or, lemma_bit_order, lemma_bit_xor1, lemma_bit_xor3};
use vstd::prelude::*;

verus! {

/// `c` lists `r` bit positions below `dim`, strictly increasing.
pub open spec fn is_comb(c: Seq<int>, r: nat, dim: nat) -> bool {
    &&& c.len() == r
    &&& forall|i: int| 0 <= i < r ==> 0 <= #[trigger] c[i] < dim
    &&& forall|i: int, j: int| 0 <= i < j < r ==> #[trigger] c[i] < #[trigger] c[j]
}

/// The word whose set bits are the positions listed in `c`.
pub open spec fn word_of(c: Seq<int>) -> u64
    decreases c.len(),
{
    if c.len() == 0 {
        0
    } else {
        word_of(c.drop_last()) | (1u64 << (c.last() as u64))
    }
}

/// The bits of `word_of(c)` are the listed positions.
pub proof fn lemma_word_bits(c: Seq<int>, k: u64)
    requires
        forall|i: int| 0 <= i < c.len() ==> 0 <= #[trigger] c[i] < 64,
        k < 64,
    ensures
        bit(word_of(c), k) == c.contains(k as int),
    decreases c.len(),
{
    if c.len() == 0 {
        crate::bits::lemma_zero_bits();
    } else {
        let d = c.drop_last();
        assert forall|i: int| 0 <= i < d.len() implies 0 <= #[trigger] d[i] < 64 by {
            assert(d[i] == c[i]);
        }
        lemma_word_bits(d, k);
        lemma_bit_or(word_of(d), c.last() as u64, k);
        if c.contains(k as int) {
            let i = choose|i: int| 0 <= i < c.len() && c[i] == k as int;
            if i < c.len() - 1 {
                assert(d[i] == k as int);
            }
        }
        if d.contains(k as int) {
            let i = choose|i: int| 0 <= i < d.len() && d[i] == k as int;
            assert(c[i] == k as int);
        }
    }
}

/// Generator of similar 64-bit codes (or signatures).
///
/// After `init(base, dim, radius)` it yields `base ^ w` for every `dim`-bit word `w`
/// with exactly `radius` set bits, each once, in increasing order of `w`.
/// The pending pattern is kept as the positions of its set bits: the lowest `bit`
/// positions are still to be placed at `0, 1, ...`, position `bit` moves up to
/// `power[bit]`, and the higher ones sit at `power[i] - 1`.
pub struct SigGenerator64 {
    sig: u64,
    base: u64,
    radius: usize,
    bit: isize,
    power: [usize; 64],
}

impl SigGenerator64 {
    pub closed spec fn spec_has_next(&self) -> bool {
        self.bit != self.radius as int
    }

    pub closed spec fn spec_base(&self) -> u64 {
        self.base
    }

    pub closed spec fn spec_radius(&self) -> nat {
        self.radius as nat
    }

    pub closed spec fn spec_dim(&self) -> int {
        self.power@[self.radius as int] - 1
    }

    /// The positions of the pattern that the next call yields.
    pub closed spec fn comb(&self) -> Seq<int> {
        Seq::new(
            self.radius as nat,
            |i: int|
                if i < self.bit {
                    i
                } else if i == self.bit {
                    self.power@[i] as int
                } else {
                    self.power@[i] - 1
                },
        )
    }

    /// Bit `k` of `sig` is set exactly for the placed positions.
    closed spec fn sig_ok(&self, c: Seq<int>) -> bool {
        forall|k: u64|
            k < 64 ==> (bit(self.sig, k) <==> ((exists|i: int|
                self.bit < i < self.radius && #[trigger] c[i] == k as int) || (self.bit >= 0
                && self.power@[self.bit as int] != self.bit && self.power@[self.bit as int] - 1
                == k as int)))
    }

    pub closed spec fn wf(&self) -> bool {
        &&& self.radius < 64
        &&& 1 <= self.power@[self.radius as int] <= 65
        &&& self.radius <= self.spec_dim()
        &&& self.spec_has_next() ==> {
            &&& -1 <= self.bit < self.radius
            &&& (self.radius == 0 <==> self.bit == -1)
            &&& forall|i: int| 0 <= i < self.bit ==> #[trigger] self.power@[i] == i
            &&& self.bit >= 0 ==> self.power@[self.bit as int] >= self.bit
            &&& forall|i: int| self.bit < i < self.radius ==> #[trigger] self.power@[i] >= 1
            &&& is_comb(self.comb(), self.radius as nat, self.spec_dim() as nat)
            &&& self.sig_ok(self.comb())
        }
    }

    /// While patterns remain, the pending one is a valid combination.
    pub proof fn lemma_comb(&self)
        requires
            self.wf(),
            self.spec_has_next(),
        ensures
            is_comb(self.comb(), self.spec_radius(), self.spec_dim() as nat),
            0 <= self.spec_dim() <= 64,
    {
    }

    /// A bound on the number of patterns still to come.
    pub closed spec fn remaining(&self) -> nat {
        if self.spec_has_next() {
            (u64::MAX - word_of(self.comb()) + 1) as nat
        } else {
            0
        }
    }

    /// Create a new generator.
    pub fn new() -> (r: Self)
        ensures
            !r.spec_has_next(),
    {
        SigGenerator64 { sig: 0, base: 0, radius: 0, bit: 0, power: [0; 64] }
    }

    /// Initialize the generator.
    pub fn init(&mut self, base: u64, dim: usize, radius: usize)
        requires
            radius <= dim <= 64,
            radius < 64,
        ensures
            final(self).wf(),
            final(self).spec_has_next(),
            final(self).spec_base() == base,
            final(self).spec_radius() == radius,
            final(self).spec_dim() == dim,
            final(self).comb() == Seq::new(radius as nat, |i: int| i),
            forall|t: Seq<int>| is_comb(t, radius as nat, dim as nat) ==> !colex_lt(t, final(self).comb()),
    {
        self.sig = 0;
        self.base = base;
        self.radius = radius;
        self.bit = radius as isize - 1;
        let mut i: usize = 0;
        while i < radius
            invariant
                i <= radius < 64,
                radius <= dim <= 64,
                self.sig == 0,
                self.base == base,
                self.radius == radius,
                self.bit == radius - 1,
                forall|j: int| 0 <= j < i ==> #[trigger] self.power@[j] == j,
            decreases radius - i,
        {
            self.power[i] = i;
            i += 1;
        }
        self.power[radius] = dim + 1;
        proof {
            assert(self.comb() =~= Seq::new(radius as nat, |i: int| i));
            assert forall|k: u64| k < 64 implies !bit(0u64, k) by {
                crate::bits::lemma_zero_bits();
            }
            assert forall|t: Seq<int>| is_comb(t, radius as nat, dim as nat) implies !colex_lt(t, self.comb()) by {
                lemma_first_comb(t, radius as nat, dim as nat);
            }
        }
    }

    /// Check if the next signature exists.
    pub fn has_next(&self) -> (r: bool)
        ensures
            r == self.spec_has_next(),
    {
        !(self.bit >= 0 && self.bit as usize == self.radius)
    }

    /// Get the next signature.
    #[verifier::spinoff_prover]
    #[verifier::rlimit(50)]
    pub fn next(&mut self) -> (r: u64)
        requires
            old(self).wf(),
            old(self).spec_has_next(),
        ensures
            final(self).wf(),
            final(self).spec_base() == old(self).spec_base(),
            final(self).spec_radius() == old(self).spec_radius(),
            final(self).spec_dim() == old(self).spec_dim(),
            r == word_of(old(self).comb()) ^ old(self).spec_base(),
            final(self).remaining() < old(self).remaining(),
            final(self).spec_has_next() ==> word_of(old(self).comb()) < word_of(final(self).comb()),
            final(self).spec_has_next() ==> colex_lt(old(self).comb(), final(self).comb()),
            final(self).spec_has_next() ==> forall|t: Seq<int>|
                is_comb(t, old(self).spec_radius(), old(self).spec_dim() as nat) && colex_lt(old(self).comb(), t)
                    ==> !colex_lt(t, final(self).comb()),
            !final(self).spec_has_next() ==> forall|t: Seq<int>|
                is_comb(t, old(self).spec_radius(), old(self).spec_dim() as nat) ==> !colex_lt(old(self).comb(), t),
    {
        let ghost c0 = self.comb();
        let ghost dim = self.spec_dim();
        let ghost r = self.radius as int;
        while self.bit != -1
            invariant
                self.radius == r,
                0 <= r < 64,
                self.power@[r] == dim + 1,
                r <= dim <= 64,
                is_comb(c0, r as nat, dim as nat),
                -1 <= self.bit < r,
                forall|i: int| 0 <= i < self.bit ==> #[trigger] self.power@[i] == i && c0[i] == i,
                self.bit >= 0 ==> self.power@[self.bit as int] == c0[self.bit as int],
                self.bit >= 0 ==> self.power@[self.bit as int] >= self.bit,
                forall|i: int| self.bit < i < r ==> #[trigger] self.power@[i] == c0[i] + 1,
                self.sig_ok(c0),
                self.base == old(self).base,
            decreases self.bit + 1,
        {
            let idx = self.bit as usize;
            let ghost old_sig = self.sig;
            let ghost old_bit = self.bit;
            let ghost old_pb = self.power@[idx as int];
            if self.power[idx] == idx {
                self.sig = self.sig ^ (1u64 << idx as u64);
                proof {
                    assert forall|k: u64| k < 64 implies (bit(self.sig, k) <==> ((exists|i: int|
                        idx - 1 < i < r && #[trigger] c0[i] == k as int))) by {
                        lemma_bit_xor1(old_sig, idx as u64, k);
                        if k == idx as u64 {
                            if exists|i: int| idx < i < r && #[trigger] c0[i] == k as int {
                                let i = choose|i: int| idx < i < r && #[trigger] c0[i] == k as int;
                                assert(c0[idx as int] < c0[i]);
                            }
                            assert(c0[idx as int] == k as int);
                        } else {
                            if exists|i: int| idx - 1 < i < r && #[trigger] c0[i] == k as int {
                                let i = choose|i: int| idx - 1 < i < r && #[trigger] c0[i] == k as int;
                                assert(i != idx);
                            }
                        }
                    }
                }
            } else {
                let p = self.power[idx];
                self.sig = self.sig ^ (3u64 << (p - 1) as u64);
                proof {
                    assert forall|k: u64| k < 64 implies (bit(self.sig, k) <==> ((exists|i: int|
                        idx - 1 < i < r && #[trigger] c0[i] == k as int))) by {
                        lemma_bit_xor3(old_sig, (p - 1) as u64, k);
                        if k == p as u64 {
                            if exists|i: int| idx < i < r && #[trigger] c0[i] == k as int {
                                let i = choose|i: int| idx < i < r && #[trigger] c0[i] == k as int;
                                assert(c0[idx as int] < c0[i]);
                            }
                            assert(c0[idx as int] == k as int);
                        } else if k == (p - 1) as u64 {
                            if exists|i: int| idx - 1 < i < r && #[trigger] c0[i] == k as int {
                                let i = choose|i: int| idx - 1 < i < r && #[trigger] c0[i] == k as int;
                                if i > idx {
                                    assert(c0[idx as int] < c0[i]);
                                }
                            }
                        } else {
                            if exists|i: int| idx - 1 < i < r && #[trigger] c0[i] == k as int {
                                let i = choose|i: int| idx - 1 < i < r && #[trigger] c0[i] == k as int;
                                assert(i != idx);
                            }
                        }
                    }
                }
            }
            let ghost pw = self.power@;
            self.power[idx] = self.power[idx] + 1;
            self.bit = self.bit - 1;
            proof {
                assert forall|i: int| 0 <= i < self.bit implies #[trigger] self.power@[i] == i && c0[i] == i by {
                    assert(self.power@[i] == pw[i]);
                }
            }
        }
        let tmp = self.sig;
        proof {
            assert forall|k: u64| k < 64 implies bit(tmp, k) == bit(word_of(c0), k) by {
                lemma_word_bits(c0, k);
                if c0.contains(k as int) {
                    let i = choose|i: int| 0 <= i < c0.len() && c0[i] == k as int;
                    assert(-1 < i < r && c0[i] == k as int);
                }
            }
            lemma_bit_ext(tmp, word_of(c0));
        }
        loop
            invariant_except_break
                self.radius == r,
                0 <= r < 64,
                self.power@[r] == dim + 1,
                r <= dim <= 64,
                is_comb(c0, r as nat, dim as nat),
                -1 <= self.bit < r,
                forall|i: int| 0 <= i <= self.bit ==> #[trigger] self.power@[i] == i,
                forall|i: int| self.bit < i < r ==> #[trigger] self.power@[i] == c0[i] + 1,
                forall|i: int| 0 <= i <= self.bit ==> #[trigger] c0[i] + 1 == if i + 1 < r {
                    c0[i + 1]
                } else {
                    dim
                },
                forall|k: u64|
                    k < 64 ==> (bit(self.sig, k) <==> (exists|i: int|
                        self.bit < i < r && #[trigger] c0[i] == k as int)),
                self.base == old(self).base,
            ensures
                self.radius == r,
                self.power@[r] == dim + 1,
                0 <= self.bit <= r,
                forall|i: int| 0 <= i < self.bit ==> #[trigger] self.power@[i] == i,
                forall|i: int| self.bit <= i < r ==> #[trigger] self.power@[i] == c0[i] + 1,
                forall|i: int| 0 <= i < self.bit ==> #[trigger] c0[i] + 1 == if i + 1 < r {
                    c0[i + 1]
                } else {
                    dim
                },
                self.bit < r ==> c0[self.bit as int] + 1 != if self.bit + 1 < r {
                    c0[self.bit + 1]
                } else {
                    dim
                },
                forall|k: u64|
                    k < 64 ==> (bit(self.sig, k) <==> (exists|i: int|
                        self.bit <= i < r && #[trigger] c0[i] == k as int)),
                self.base == old(self).base,
            decreases r - self.bit,
        {
            self.bit = self.bit + 1;
            let idx = self.bit as usize;
            if idx >= self.radius || self.power[idx] + 1 != self.power[idx + 1] {
                break;
            }
            let ghost old_sig = self.sig;
            self.sig = self.sig ^ (1u64 << (self.power[idx] - 1) as u64);
            self.power[idx] = idx;
            proof {
                assert forall|k: u64| k < 64 implies (bit(self.sig, k) <==> (exists|i: int|
                    idx < i < r && #[trigger] c0[i] == k as int)) by {
                    lemma_bit_xor1(old_sig, c0[idx as int] as u64, k);
                    if exists|i: int| idx - 1 < i < r && #[trigger] c0[i] == k as int {
                        let i = choose|i: int| idx - 1 < i < r && #[trigger] c0[i] == k as int;
                        if i != idx {
                            assert(c0[idx as int] < c0[i]);
                        }
                    }
                }
            }
        }
        proof {
            self.lemma_advance(c0, dim, tmp);
            lemma_successor(c0, r as nat, dim as nat, self.bit as int);
        }
        tmp ^ self.base
    }

    proof fn lemma_advance(&self, c0: Seq<int>, dim: int, w: u64)
        requires
            0 <= self.radius < 64,
            self.power@[self.radius as int] == dim + 1,
            self.radius <= dim <= 64,
            is_comb(c0, self.radius as nat, dim as nat),
            w == word_of(c0),
            0 <= self.bit <= self.radius,
            forall|i: int| 0 <= i < self.bit ==> #[trigger] self.power@[i] == i,
            forall|i: int| self.bit <= i < self.radius ==> #[trigger] self.power@[i] == c0[i] + 1,
            forall|i: int| 0 <= i < self.bit ==> #[trigger] c0[i] + 1 == if i + 1 < self.radius {
                c0[i + 1]
            } else {
                dim
            },
            self.bit < self.radius ==> c0[self.bit as int] + 1 != if self.bit + 1 < self.radius {
                c0[self.bit + 1]
            } else {
                dim
            },
            forall|k: u64|
                k < 64 ==> (bit(self.sig, k) <==> (exists|i: int|
                    self.bit <= i < self.radius && #[trigger] c0[i] == k as int)),
        ensures
            self.wf(),
            self.remaining() < (u64::MAX - w + 1),
            self.bit < self.radius ==> self.comb() == next_comb(c0, self.bit as int),
    {
        let r = self.radius as int;
        let j = self.bit as int;
        if j < r {
            let c = self.comb();
            // positions below j are consecutive, so c0[i] >= i and c0[j] >= j
            assert forall|i: int| 0 <= i < r implies c0[i] >= i by {
                if i > 0 {
                    assert(c0[i - 1] < c0[i]);
                }
                lemma_comb_lower(c0, r as nat, dim as nat, i);
            }
            assert(c[j] == c0[j] + 1);
            assert forall|i: int| j < i < r implies #[trigger] c[i] == c0[i] by {}
            assert forall|i: int| 0 <= i < j implies #[trigger] c[i] == i by {}
            assert(c =~= next_comb(c0, j));
            assert(c0[j] + 1 < if j + 1 < r { c0[j + 1] } else { dim }) by {
                if j + 1 < r {
                    assert(c0[j] < c0[j + 1]);
                }
            }
            assert(is_comb(c, r as nat, dim as nat)) by {
                assert forall|a: int, b: int| 0 <= a < b < r implies #[trigger] c[a] < #[trigger] c[b] by {
                    if b < j {
                    } else if b == j {
                        assert(c0[j] >= j);
                    } else if a < j {
                        assert(c0[j] < c0[b]);
                        assert(c0[j] >= j);
                    } else if a == j {
                        if j + 1 < b {
                            assert(c0[j + 1] < c0[b]);
                        }
                    } else {
                        assert(c0[a] < c0[b]);
                    }
                }
                assert forall|i: int| 0 <= i < r implies 0 <= #[trigger] c[i] < dim by {
                    if i > j {
                        assert(c0[j] < c0[i]);
                    }
                    if j + 1 < r && i <= j {
                        assert(c0[j + 1] < dim);
                    }
                }
            }
            assert(self.sig_ok(c)) by {
                assert forall|k: u64| k < 64 implies (bit(self.sig, k) <==> ((exists|i: int|
                    j < i < r && #[trigger] c[i] == k as int) || (j >= 0 && self.power@[j] != j
                    && self.power@[j] - 1 == k as int))) by {
                    if exists|i: int| j <= i < r && #[trigger] c0[i] == k as int {
                        let i = choose|i: int| j <= i < r && #[trigger] c0[i] == k as int;
                        if i > j {
                            assert(c[i] == k as int);
                        }
                    }
                    if exists|i: int| j < i < r && #[trigger] c[i] == k as int {
                        let i = choose|i: int| j < i < r && #[trigger] c[i] == k as int;
                        assert(c0[i] == k as int);
                    }
                }
            }
            // the new pattern is the larger word
            let p = c0[j] + 1;
            assert forall|i: int| 0 <= i < r implies 0 <= #[trigger] c0[i] < 64 by {}
            assert forall|i: int| 0 <= i < r implies 0 <= #[trigger] c[i] < 64 by {}
            assert forall|k: u64| p < k < 64 implies bit(w, k) == bit(word_of(c), k) by {
                lemma_word_bits(c0, k);
                lemma_word_bits(c, k);
                if c0.contains(k as int) {
                    let i = choose|i: int| 0 <= i < c0.len() && c0[i] == k as int;
                    if i <= j {
                        if i < j {
                            assert(c0[i] < c0[j]);
                        }
                    }
                    assert(c[i] == k as int);
                }
                if c.contains(k as int) {
                    let i = choose|i: int| 0 <= i < c.len() && c[i] == k as int;
                    if i < j {
                        assert(c0[j] >= j);
                    }
                    assert(c0[i] == k as int);
                }
            }
            lemma_word_bits(c0, p as u64);
            lemma_word_bits(c, p as u64);
            if c0.contains(p) {
                let i = choose|i: int| 0 <= i < c0.len() && c0[i] == p;
                if i < j {
                    assert(c0[i] < c0[j]);
                } else if i > j {
                    if i > j + 1 {
                        assert(c0[j + 1] < c0[i]);
                    }
                }
            }
            assert(c[j] == p);
            lemma_bit_order(w, word_of(c), p as u64);
        }
    }
}

proof fn lemma_comb_lower(c: Seq<int>, r: nat, dim: nat, i: int)
    requires
        is_comb(c, r, dim),
        0 <= i < r,
    ensures
        c[i] >= i,
    decreases i,
{
    if i > 0 {
        lemma_comb_lower(c, r, dim, i - 1);
        assert(c[i - 1] < c[i]);
    }
}

} // verus!

verus! {

/// A pattern over positions below `dim` is a `dim`-bit word.
pub proof fn lemma_word_fits(c: Seq<int>, dim: nat)
    requires
        forall|i: int| 0 <= i < c.len() ==> 0 <= #[trigger] c[i] < dim,
        dim <= 64,
    ensures
        crate::bits::fits(word_of(c), dim),
{
    if dim < 64 {
        let d = dim as u64;
        assert forall|k: u64| d <= k < 64 implies bit(word_of(c), k) == bit(0u64, k) by {
            lemma_word_bits(c, k);
            crate::bits::lemma_zero_bits();
            if c.contains(k as int) {
                let i = choose|i: int| 0 <= i < c.len() && c[i] == k as int;
            }
        }
        crate::bits::lemma_shift_ext(word_of(c), 0u64, d);
        crate::bits::lemma_zero_bits();
    }
}

} // verus!

verus! {

/// `a` comes before `b` in colexicographic order: at the highest position where they
/// differ, `a` is smaller.
pub open spec fn colex_lt(a: Seq<int>, b: Seq<int>) -> bool {
    &&& a.len() == b.len()
    &&& exists|i: int|
        0 <= i < a.len() && #[trigger] a[i] < b[i] && forall|l: int| i < l < a.len() ==> a[l] == b[l]
}

proof fn lemma_comb_gap(t: Seq<int>, r: nat, dim: nat, i: int, j: int)
    requires
        is_comb(t, r, dim),
        0 <= i <= j < r,
    ensures
        t[i] + (j - i) <= t[j],
    decreases j - i,
{
    if i < j {
        lemma_comb_gap(t, r, dim, i, j - 1);
        assert(t[j - 1] < t[j]);
    }
}

/// Colexicographic order is asymmetric.
pub proof fn lemma_colex_asym(a: Seq<int>, b: Seq<int>)
    requires
        colex_lt(a, b),
    ensures
        !colex_lt(b, a),
{
    let i = choose|i: int|
        0 <= i < a.len() && #[trigger] a[i] < b[i] && forall|l: int| i < l < a.len() ==> a[l] == b[l];
    if colex_lt(b, a) {
        let i2 = choose|i2: int|
            0 <= i2 < b.len() && #[trigger] b[i2] < a[i2] && forall|l: int| i2 < l < b.len() ==> b[l] == a[l];
        if i < i2 {
        } else if i2 < i {
        }
    }
}

proof fn lemma_colex_total_from(a: Seq<int>, b: Seq<int>, k: int)
    requires
        a.len() == b.len(),
        0 <= k <= a.len(),
        forall|l: int| k <= l < a.len() ==> a[l] == b[l],
        exists|l: int| 0 <= l < k && a[l] != b[l],
    ensures
        colex_lt(a, b) || colex_lt(b, a),
    decreases k,
{
    if a[k - 1] != b[k - 1] {
        if a[k - 1] < b[k - 1] {
            assert(0 <= k - 1 < a.len() && a[k - 1] < b[k - 1] && forall|l: int| k - 1 < l < a.len() ==> a[l] == b[l]);
        } else {
            assert(0 <= k - 1 < b.len() && b[k - 1] < a[k - 1] && forall|l: int| k - 1 < l < b.len() ==> b[l] == a[l]);
        }
    } else {
        lemma_colex_total_from(a, b, k - 1);
    }
}

/// Two different sequences of one length are ordered one way or the other.
pub proof fn lemma_colex_total(a: Seq<int>, b: Seq<int>)
    requires
        a.len() == b.len(),
        a != b,
    ensures
        colex_lt(a, b) || colex_lt(b, a),
{
    if forall|l: int| 0 <= l < a.len() ==> a[l] == b[l] {
        assert(a =~= b);
    }
    lemma_colex_total_from(a, b, a.len() as int);
}

/// No combination comes before the lowest one, `0, 1, ..., r - 1`.
pub proof fn lemma_first_comb(t: Seq<int>, r: nat, dim: nat)
    requires
        is_comb(t, r, dim),
    ensures
        !colex_lt(t, Seq::new(r, |i: int| i)),
{
    let f = Seq::new(r, |i: int| i);
    if colex_lt(t, f) {
        let i = choose|i: int|
            0 <= i < t.len() && #[trigger] t[i] < f[i] && forall|l: int| i < l < t.len() ==> t[l] == f[l];
        lemma_comb_lower(t, r, dim, i);
    }
}

/// Moving the lowest movable position up by one, and resetting the ones below it, gives
/// the next combination; when no position can move, there is no next one.
pub proof fn lemma_successor(c0: Seq<int>, r: nat, dim: nat, j: int)
    requires
        is_comb(c0, r, dim),
        0 <= j <= r,
        forall|l: int| 0 <= l < j ==> #[trigger] c0[l] + 1 == if l + 1 < r {
            c0[l + 1]
        } else {
            dim as int
        },
        j < r ==> c0[j] + 1 != if j + 1 < r {
            c0[j + 1]
        } else {
            dim as int
        },
    ensures
        j < r ==> colex_lt(c0, next_comb(c0, j)),
        j < r ==> forall|t: Seq<int>| is_comb(t, r, dim) && colex_lt(c0, t) ==> !colex_lt(t, next_comb(c0, j)),
        j == r ==> forall|t: Seq<int>| is_comb(t, r, dim) ==> !colex_lt(c0, t),
{
    // below j the positions run consecutively up to c0[j]
    assert forall|l: int| 0 <= l <= j && l < r implies #[trigger] c0[l] == c0[j] - (j - l) || j == r by {
        lemma_run(c0, r, dim, j, l);
    }
    if j < r {
        let nw = next_comb(c0, j);
        lemma_comb_lower(c0, r, dim, j);
        assert(0 <= j < c0.len() && c0[j] < nw[j] && forall|l: int| j < l < c0.len() ==> c0[l] == nw[l]);
        assert forall|t: Seq<int>| is_comb(t, r, dim) && colex_lt(c0, t) implies !colex_lt(t, nw) by {
            let i = choose|i: int|
                0 <= i < c0.len() && #[trigger] c0[i] < t[i] && forall|l: int| i < l < c0.len() ==> c0[l] == t[l];
            if i > j {
                assert(0 <= i < nw.len() && nw[i] < t[i] && forall|l: int| i < l < nw.len() ==> nw[l] == t[l]);
                lemma_colex_asym(nw, t);
            } else if i == j {
                if t[j] > nw[j] {
                    assert(0 <= j < nw.len() && nw[j] < t[j] && forall|l: int| j < l < nw.len() ==> nw[l] == t[l]);
                    lemma_colex_asym(nw, t);
                } else if colex_lt(t, nw) {
                    let i2 = choose|i2: int|
                        0 <= i2 < t.len() && #[trigger] t[i2] < nw[i2] && forall|l: int| i2 < l < t.len() ==> t[l] == nw[l];
                    lemma_comb_lower(t, r, dim, i2);
                }
            } else {
                lemma_comb_gap(t, r, dim, i, j);
                lemma_run(c0, r, dim, j, i);
            }
        }
    } else {
        assert forall|t: Seq<int>| is_comb(t, r, dim) implies !colex_lt(c0, t) by {
            if colex_lt(c0, t) {
                let i = choose|i: int|
                    0 <= i < c0.len() && #[trigger] c0[i] < t[i] && forall|l: int| i < l < c0.len() ==> c0[l] == t[l];
                lemma_comb_gap(t, r, dim, i, r - 1);
                lemma_run(c0, r, dim, r as int, i);
            }
        }
    }
}

/// The combination after `c0` when position `j` moves.
pub open spec fn next_comb(c0: Seq<int>, j: int) -> Seq<int> {
    Seq::new(c0.len(), |l: int| if l < j { l } else if l == j { c0[j] + 1 } else { c0[l] })
}

proof fn lemma_run(c0: Seq<int>, r: nat, dim: nat, j: int, l: int)
    requires
        is_comb(c0, r, dim),
        0 <= l <= j <= r,
        l < r,
        forall|x: int| 0 <= x < j ==> #[trigger] c0[x] + 1 == if x + 1 < r {
            c0[x + 1]
        } else {
            dim as int
        },
    ensures
        j < r ==> c0[l] == c0[j] - (j - l),
        j == r ==> c0[l] == dim - (r - l),
    decreases j - l,
{
    if l < j {
        assert(c0[l] + 1 == if l + 1 < r { c0[l + 1] } else { dim as int });
        if l + 1 < r {
            lemma_run(c0, r, dim, j, l + 1);
        }
    }
}

} // verus!

verus! {

/// The set positions of `x` below `j`, ascending.
pub open spec fn positions(x: u64, j: nat) -> Seq<int>
    decreases j,
{
    if j == 0 {
        Seq::empty()
    } else {
        let p = positions(x, (j - 1) as nat);
        if bit(x, (j - 1) as u64) {
            p.push(j - 1)
        } else {
            p
        }
    }
}

proof fn lemma_positions(x: u64, j: nat)
    requires
        j <= 64,
    ensures
        positions(x, j).len() == crate::bits::rank(x, j),
        forall|i: int| 0 <= i < positions(x, j).len() ==> 0 <= #[trigger] positions(x, j)[i] < j,
        forall|a: int, b: int|
            0 <= a < b < positions(x, j).len() ==> #[trigger] positions(x, j)[a] < #[trigger] positions(x, j)[b],
        forall|k: u64| k < 64 ==> #[trigger] bit(word_of(positions(x, j)), k) == (k < j && bit(x, k)),
    decreases j,
{
    if j == 0 {
        crate::bits::lemma_zero_bits();
        assert(word_of(positions(x, j)) == 0u64);
        assert forall|k: u64| k < 64 implies #[trigger] bit(word_of(positions(x, j)), k) == (k < j && bit(x, k)) by {
            assert(!bit(0u64, k));
        }
    } else {
        lemma_positions(x, (j - 1) as nat);
        let p = positions(x, (j - 1) as nat);
        if bit(x, (j - 1) as u64) {
            let q = p.push(j - 1);
            assert(q.drop_last() =~= p);
            assert(q.last() == j - 1);
            assert(word_of(q) == word_of(p) | (1u64 << ((j - 1) as u64)));
            assert(positions(x, j) == q);
            assert forall|k: u64| k < 64 implies #[trigger] bit(word_of(positions(x, j)), k) == (k < j && bit(x, k)) by {
                crate::bits::lemma_bit_or(word_of(p), (j - 1) as u64, k);
                assert(bit(word_of(p), k) == (k < j - 1 && bit(x, k)));
            }
        } else {
            assert(positions(x, j) == p);
            assert forall|k: u64| k < 64 implies #[trigger] bit(word_of(positions(x, j)), k) == (k < j && bit(x, k)) by {
                assert(bit(word_of(p), k) == (k < j - 1 && bit(x, k)));
                if k == j - 1 {
                    assert(!bit(x, k));
                }
            }
        }
    }
}

/// A `dim`-bit word with `r` set bits is the word of a combination.
pub proof fn lemma_comb_of(x: u64, dim: nat)
    requires
        dim <= 64,
        crate::bits::fits(x, dim),
    ensures
        is_comb(positions(x, dim), crate::bits::popcount(x), dim),
        word_of(positions(x, dim)) == x,
{
    lemma_positions(x, dim);
    crate::bits::lemma_popcount_fits(x, dim);
    assert forall|k: u64| k < 64 implies bit(word_of(positions(x, dim)), k) == bit(x, k) by {
        if dim < 64 && k >= dim {
            let d = dim as u64;
            assert((x >> d) == 0 && d <= k && k < 64 ==> !bit(x, k)) by (bit_vector);
        }
    }
    crate::bits::lemma_bit_ext(word_of(positions(x, dim)), x);
}

} // verus!

verus! {

proof fn lemma_sorted_same_elements(a: Seq<int>, b: Seq<int>)
    requires
        forall|i: int, j: int| 0 <= i < j < a.len() ==> #[trigger] a[i] < #[trigger] a[j],
        forall|i: int, j: int| 0 <= i < j < b.len() ==> #[trigger] b[i] < #[trigger] b[j],
        forall|x: int| a.contains(x) <==> b.contains(x),
    ensures
        a == b,
    decreases a.len() + b.len(),
{
    if a.len() == 0 || b.len() == 0 {
        if a.len() > 0 {
            assert(a.contains(a[0]));
        }
        if b.len() > 0 {
            assert(b.contains(b[0]));
        }
        assert(a =~= b);
    } else {
        let la = a.last();
        let lb = b.last();
        assert(a.contains(la));
        assert(b.contains(lb));
        let ia = choose|i: int| 0 <= i < a.len() && a[i] == lb;
        let ib = choose|i: int| 0 <= i < b.len() && b[i] == la;
        if ia < a.len() - 1 {
            assert(a[ia] < la);
        }
        if ib < b.len() - 1 {
            assert(b[ib] < lb);
        }
        assert(la == lb);
        let da = a.drop_last();
        let db = b.drop_last();
        assert forall|x: int| da.contains(x) <==> db.contains(x) by {
            if da.contains(x) {
                let i = choose|i: int| 0 <= i < da.len() && da[i] == x;
                assert(a[i] < la);
                assert(b.contains(x));
                let j = choose|j: int| 0 <= j < b.len() && b[j] == x;
                assert(j != b.len() - 1);
                assert(db[j] == x);
            }
            if db.contains(x) {
                let i = choose|i: int| 0 <= i < db.len() && db[i] == x;
                assert(b[i] < lb);
                assert(a.contains(x));
                let j = choose|j: int| 0 <= j < a.len() && a[j] == x;
                assert(j != a.len() - 1);
                assert(da[j] == x);
            }
        }
        lemma_sorted_same_elements(da, db);
        assert(a =~= da.push(la));
        assert(b =~= db.push(lb));
    }
}

/// The words of the combinations of `r` positions below `d` are exactly the `d`-bit
/// words with `r` set bits, and different combinations give different words. So the
/// generator, which goes through every combination once in increasing order and yields
/// `base ^ word`, yields each `d`-bit pattern of weight `r` once, XOR'd with the base.
pub proof fn lemma_pattern_words(c: Seq<int>, r: nat, d: nat)
    requires
        d <= 64,
        is_comb(c, r, d),
    ensures
        crate::bits::fits(word_of(c), d),
        crate::bits::popcount(word_of(c)) == r,
        positions(word_of(c), d) == c,
        forall|c2: Seq<int>| is_comb(c2, r, d) && word_of(c2) == word_of(c) ==> c2 == c,
{
    lemma_word_fits(c, d);
    lemma_pattern_positions(c, r, d);
    lemma_comb_of(word_of(c), d);
    assert forall|c2: Seq<int>| is_comb(c2, r, d) && word_of(c2) == word_of(c) implies c2 == c by {
        lemma_pattern_positions(c2, r, d);
    }
}

proof fn lemma_pattern_positions(c: Seq<int>, r: nat, d: nat)
    requires
        d <= 64,
        is_comb(c, r, d),
    ensures
        positions(word_of(c), d) == c,
{
    lemma_word_fits(c, d);
    let x = word_of(c);
    lemma_positions(x, d);
    let p = positions(x, d);
    assert forall|v: int| p.contains(v) <==> c.contains(v) by {
        if p.contains(v) {
            let i = choose|i: int| 0 <= i < p.len() && p[i] == v;
            assert(0 <= v < d);
            lemma_word_bits(p, v as u64);
            assert(bit(word_of(p), v as u64) == (v < d && bit(x, v as u64)));
            lemma_word_bits(c, v as u64);
        }
        if c.contains(v) {
            let i = choose|i: int| 0 <= i < c.len() && c[i] == v;
            lemma_word_bits(c, v as u64);
            assert(bit(word_of(p), v as u64) == (v < d && bit(x, v as u64)));
            lemma_word_bits(p, v as u64);
        }
    }
    lemma_sorted_same_elements(p, c);
}

} // verus!
