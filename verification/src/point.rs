//! A candidate point: a caller's tag, its objective vector, and the rank
//! that solving gives it.

use vstd::prelude::*;
use crate::dominance::dominates;

verus! {

/// One candidate. `v` holds its score on each objective, lower being
/// better; `rank` is its layer, meaningful once the problem is solved.
pub struct ParetoPoint {
    pub v: Vec<i32>,
    pub tag: i32,
    pub rank: usize,
}

impl ParetoPoint {
    /// Decides whether this point dominates `other`.
    pub fn dominates(&self, other: &ParetoPoint) -> (r: bool)
        ensures
            r == dominates(self.v@, other.v@),
    {
        let a = &self.v;
        let b = &other.v;
        if a.len() != b.len() {
            return false;
        }
        let mut strict: bool = false;
        let mut k: usize = 0;
        while k < a.len()
            invariant
                k <= a.len(),
                a.len() == b.len(),
                a@ == self.v@,
                b@ == other.v@,
                forall|m: int| 0 <= m < k ==> a@[m] <= b@[m],
                strict == exists|m: int| 0 <= m < k && a@[m] < b@[m],
            decreases a.len() - k,
        {
            if a[k] > b[k] {
                return false;
            }
            if a[k] < b[k] {
                strict = true;
            }
            k += 1;
        }
        strict
    }
}

/// The objective vectors of `points`, in order.
pub open spec fn objectives(points: Seq<ParetoPoint>) -> Seq<Seq<i32>> {
    Seq::new(points.len(), |i: int| points[i].v@)
}

/// The ranks of `points`, in order.
pub open spec fn ranks(points: Seq<ParetoPoint>) -> Seq<usize> {
    Seq::new(points.len(), |i: int| points[i].rank)
}

} // verus!
