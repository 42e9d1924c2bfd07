//! Exhaustive (linear-scan) search, the reference answer for the index.
use crate::codeint::{hamdist, spec_hamdist, CodeInt};
use vstd::prelude::*;

verus! {

/// Ids among the first `n` codes whose Hamming distance to `q` is at most `radius`,
/// in ascending order.
pub open spec fn ids_within<T: CodeInt>(codes: Seq<T>, q: T, radius: nat, n: nat) -> Seq<u32>
    decreases n,
{
    if n == 0 {
        Seq::empty()
    } else {
        let rest = ids_within(codes, q, radius, (n - 1) as nat);
        if spec_hamdist(codes[n - 1], q) <= radius {
            rest.push((n - 1) as u32)
        } else {
            rest
        }
    }
}

/// The ids of all codes within `radius` of `q`, ascending.
pub open spec fn spec_range_search<T: CodeInt>(codes: Seq<T>, q: T, radius: nat) -> Seq<u32> {
    ids_within(codes, q, radius, codes.len())
}

/// Finds the neighbors in codes, whose Hamming distances to qcode are within radius.
/// Returns the ids of the neighbor codes.
pub fn range_search<T: CodeInt>(codes: &[T], qcode: T, radius: usize) -> (r: Vec<u32>)
    requires
        codes@.len() <= u32::MAX + 1,
    ensures
        r@ == spec_range_search(codes@, qcode, radius as nat),
{
    let mut answers: Vec<u32> = Vec::new();
    range_search_with_buf(codes, qcode, radius, &mut answers);
    answers
}

/// Finds the neighbors in codes, whose Hamming distances to qcode are within radius.
/// The ids of the neighbor codes are stored in answers.
pub fn range_search_with_buf<T: CodeInt>(
    codes: &[T],
    qcode: T,
    radius: usize,
    answers: &mut Vec<u32>,
)
    requires
        codes@.len() <= u32::MAX + 1,
    ensures
        final(answers)@ == spec_range_search(codes@, qcode, radius as nat),
{
    answers.clear();
    let n = codes.len();
    let mut i: usize = 0;
    while i < n
        invariant
            n == codes@.len(),
            n <= u32::MAX + 1,
            i <= n,
            answers@ == ids_within(codes@, qcode, radius as nat, i as nat),
        decreases n - i,
    {
        let dist = hamdist(codes[i], qcode);
        if dist <= radius {
            answers.push(i as u32);
        }
        i += 1;
    }
}

/// Computes all the Hamming distances between codes and qcode.
/// Returns the tuples of code id and the distance.
pub fn exhaustive_search<T: CodeInt>(codes: &[T], qcode: T) -> (r: Vec<(u32, u32)>)
    requires
        codes@.len() <= u32::MAX + 1,
    ensures
        r@.len() == codes@.len(),
        forall|i: int|
            0 <= i < codes@.len() ==> #[trigger] r@[i] == (i as u32, spec_hamdist(codes@[i], qcode) as u32),
{
    let mut answers: Vec<(u32, u32)> = Vec::new();
    exhaustive_search_with_buf(codes, qcode, &mut answers);
    answers
}

/// Computes all the Hamming distances between codes and qcode.
/// The tuples of code id and the distance are stored in answers.
pub fn exhaustive_search_with_buf<T: CodeInt>(
    codes: &[T],
    qcode: T,
    answers: &mut Vec<(u32, u32)>,
)
    requires
        codes@.len() <= u32::MAX + 1,
    ensures
        final(answers)@.len() == codes@.len(),
        forall|i: int|
            0 <= i < codes@.len() ==> #[trigger] final(answers)@[i] == (i as u32, spec_hamdist(codes@[i], qcode) as u32),
{
    answers.clear();
    let n = codes.len();
    let mut i: usize = 0;
    while i < n
        invariant
            n == codes@.len(),
            n <= u32::MAX + 1,
            i <= n,
            answers@.len() == i,
            forall|j: int|
                0 <= j < i ==> #[trigger] answers@[j] == (j as u32, spec_hamdist(codes@[j], qcode) as u32),
        decreases n - i,
    {
        let dist = hamdist(codes[i], qcode);
        proof {
            crate::codeint::lemma_hamdist_bound(codes@[i as int], qcode);
        }
        answers.push((i as u32, dist as u32));
        i += 1;
    }
}

} // verus!
