//! In-place ordering of scored cells by score.

use std::cmp::Ordering;
use vstd::prelude::*;

verus! {

/// A sequence of `(index, score)` pairs whose scores never decrease.
pub open spec fn scores_ascend(v: Seq<(usize, i32)>) -> bool {
    forall|i: int, j: int| 0 <= i <= j < v.len() ==> v[i].1 <= v[j].1
}

/// Orders two scored cells by score alone: the lower score comes first, and
/// cells of equal score compare equal whatever their index.
pub fn compare_scores(a: &(usize, i32), b: &(usize, i32)) -> (o: Ordering)
    ensures
        o == Ordering::Less <==> a.1 < b.1,
        o == Ordering::Equal <==> a.1 == b.1,
        o == Ordering::Greater <==> a.1 > b.1,
{
    if a.1 < b.1 {
        Ordering::Less
    } else if a.1 > b.1 {
        Ordering::Greater
    } else {
        Ordering::Equal
    }
}

/// Sorts scored cells in place with `quicksort::quicksort_by`, comparing by
/// `compare_scores`. Trusted: afterwards the vector holds the same pairs as
/// before, each as often as before, and their scores ascend. The order among
/// pairs of equal score is left open, as the three-way partition of that
/// sort leaves it open. The sort recurses once per partition, so its depth
/// can grow with the length on inputs that are already ordered.
#[verifier::external_body]
pub(crate) fn sort_by_score(v: &mut Vec<(usize, i32)>)
    ensures
        final(v)@.to_multiset() == old(v)@.to_multiset(),
        scores_ascend(final(v)@),
{
    quicksort::quicksort_by(v.as_mut_slice(), |a, b| compare_scores(a, b));
}

} // verus!
