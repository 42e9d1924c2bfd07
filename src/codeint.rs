//! Binary codes: fixed-width unsigned integers read as bit vectors.
use crate::bits::{fits, lemma_popcount_fits, popcnt_64, popcount, rank};
use vstd::prelude::*;

verus! {

/// A word fits in 8, 16 or 32 bits exactly when it is below the matching power of two.
proof fn lemma_narrow()
    by (bit_vector)
    ensures
        forall|w: u64| #![auto] (w >> 8u64) == 0 <==> w < 256,
        forall|w: u64| #![auto] (w >> 16u64) == 0 <==> w < 0x10000,
        forall|w: u64| #![auto] (w >> 32u64) == 0 <==> w < 0x1_0000_0000,
{
}

/// Integers whose set bits can be counted.
pub trait Popcnt {
    /// Number of set bits of the value.
    spec fn ones(&self) -> nat;

    fn popcnt(&self) -> (r: u32)
        ensures
            r == self.ones(),
    ;
}

impl Popcnt for u8 {
    open spec fn ones(&self) -> nat {
        popcount(*self as u64)
    }

    fn popcnt(&self) -> (r: u32) {
        popcnt_64(*self as u64)
    }
}

impl Popcnt for u16 {
    open spec fn ones(&self) -> nat {
        popcount(*self as u64)
    }

    fn popcnt(&self) -> (r: u32) {
        popcnt_64(*self as u64)
    }
}

impl Popcnt for u32 {
    open spec fn ones(&self) -> nat {
        popcount(*self as u64)
    }

    fn popcnt(&self) -> (r: u32) {
        popcnt_64(*self as u64)
    }
}

impl Popcnt for u64 {
    open spec fn ones(&self) -> nat {
        popcount(*self)
    }

    fn popcnt(&self) -> (r: u32) {
        popcnt_64(*self)
    }
}

impl Popcnt for u128 {
    open spec fn ones(&self) -> nat {
        popcount(*self as u64) + popcount((*self >> 64u128) as u64)
    }

    fn popcnt(&self) -> (r: u32) {
        let lo = popcnt_64(*self as u64);
        let hi = popcnt_64((*self >> 64u32) as u64);
        proof {
            crate::bits::lemma_rank_le(*self as u64, 64);
            crate::bits::lemma_rank_le((*self >> 64u128) as u64, 64);
        }
        lo + hi
    }
}

/// A binary code: an unsigned integer of a fixed number of bits.
pub trait CodeInt: Popcnt + Copy + Sized {
    /// The number of bits of a code.
    spec fn spec_dimensions() -> nat;

    /// The code as a 64-bit word (zero above its width).
    spec fn spec_word(self) -> u64;

    fn dimensions() -> (r: usize)
        ensures
            r == Self::spec_dimensions(),
            r == 8 || r == 16 || r == 32 || r == 64,
    ;

    fn to_word(self) -> (r: u64)
        ensures
            r == self.spec_word(),
    ;

    fn from_word(w: u64) -> (r: Self)
        requires
            fits(w, Self::spec_dimensions()),
        ensures
            r.spec_word() == w,
    ;

    /// Codes with the same word are the same code.
    proof fn lemma_word_inj(a: Self, b: Self)
        ensures
            a.spec_word() == b.spec_word() ==> a == b,
    ;

    proof fn lemma_word_fits(c: Self)
        ensures
            fits(c.spec_word(), Self::spec_dimensions()),
            Self::spec_dimensions() == 8 || Self::spec_dimensions() == 16
                || Self::spec_dimensions() == 32 || Self::spec_dimensions() == 64,
    ;
}

impl CodeInt for u8 {
    open spec fn spec_dimensions() -> nat {
        8
    }

    open spec fn spec_word(self) -> u64 {
        self as u64
    }

    fn dimensions() -> (r: usize) {
        8
    }

    fn to_word(self) -> (r: u64) {
        self as u64
    }

    fn from_word(w: u64) -> (r: Self) {
        proof {
            lemma_narrow();
        }
        w as u8
    }

    proof fn lemma_word_inj(a: Self, b: Self) {
    }

    proof fn lemma_word_fits(c: Self) {
        let w = c as u64;
        lemma_narrow();
    }
}

impl CodeInt for u16 {
    open spec fn spec_dimensions() -> nat {
        16
    }

    open spec fn spec_word(self) -> u64 {
        self as u64
    }

    fn dimensions() -> (r: usize) {
        16
    }

    fn to_word(self) -> (r: u64) {
        self as u64
    }

    fn from_word(w: u64) -> (r: Self) {
        proof {
            lemma_narrow();
        }
        w as u16
    }

    proof fn lemma_word_inj(a: Self, b: Self) {
    }

    proof fn lemma_word_fits(c: Self) {
        let w = c as u64;
        lemma_narrow();
    }
}

impl CodeInt for u32 {
    open spec fn spec_dimensions() -> nat {
        32
    }

    open spec fn spec_word(self) -> u64 {
        self as u64
    }

    fn dimensions() -> (r: usize) {
        32
    }

    fn to_word(self) -> (r: u64) {
        self as u64
    }

    fn from_word(w: u64) -> (r: Self) {
        proof {
            lemma_narrow();
        }
        w as u32
    }

    proof fn lemma_word_inj(a: Self, b: Self) {
    }

    proof fn lemma_word_fits(c: Self) {
        let w = c as u64;
        lemma_narrow();
    }
}

impl CodeInt for u64 {
    open spec fn spec_dimensions() -> nat {
        64
    }

    open spec fn spec_word(self) -> u64 {
        self
    }

    fn dimensions() -> (r: usize) {
        64
    }

    fn to_word(self) -> (r: u64) {
        self
    }

    fn from_word(w: u64) -> (r: Self) {
        w
    }

    proof fn lemma_word_inj(a: Self, b: Self) {
    }

    proof fn lemma_word_fits(c: Self) {
    }
}

/// The Hamming distance between two codes: the number of bits in which they differ.
pub open spec fn spec_hamdist<T: CodeInt>(x: T, y: T) -> nat {
    popcount(x.spec_word() ^ y.spec_word())
}

/// The differing bits of two codes lie within the codes' width.
pub proof fn lemma_hamdist_bound<T: CodeInt>(x: T, y: T)
    ensures
        spec_hamdist(x, y) <= T::spec_dimensions(),
        spec_hamdist(x, y) == spec_hamdist(y, x),
{
    T::lemma_word_fits(x);
    T::lemma_word_fits(y);
    let a = x.spec_word();
    let b = y.spec_word();
    let d = T::spec_dimensions();
    if d < 64 {
        let w = d as u64;
        assert((a >> w) == 0 && (b >> w) == 0 ==> ((a ^ b) >> w) == 0) by (bit_vector);
    }
    lemma_popcount_fits(a ^ b, d);
    assert(a ^ b == b ^ a) by (bit_vector);
}

/// Gets the Hamming distance between two binary codes.
pub fn hamdist<T: CodeInt>(x: T, y: T) -> (r: usize)
    ensures
        r == spec_hamdist(x, y),
        r == popcount(x.spec_word() ^ y.spec_word()),
        r <= T::spec_dimensions(),
{
    proof {
        lemma_hamdist_bound(x, y);
    }
    popcnt_64(x.to_word() ^ y.to_word()) as usize
}

} // verus!
