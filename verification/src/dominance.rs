//! The dominance relation between objective vectors, under minimization:
//! a lower value is better on every objective.

use vstd::prelude::*;

verus! {

/// `a` dominates `b`: `a` is no worse than `b` on every objective and
/// strictly better on at least one. Vectors of different lengths are
/// not comparable, so neither dominates the other.
pub open spec fn dominates(a: Seq<i32>, b: Seq<i32>) -> bool {
    &&& a.len() == b.len()
    &&& forall|k: int| 0 <= k < a.len() ==> a[k] <= b[k]
    &&& exists|k: int| 0 <= k < a.len() && a[k] < b[k]
}

/// No vector dominates itself: identical vectors are mutually
/// non-dominating.
pub proof fn lemma_dominates_irreflexive(a: Seq<i32>)
    ensures
        !dominates(a, a),
{
}

} // verus!
