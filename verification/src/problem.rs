//! A ranking problem: a fixed number of objectives and the points that
//! are scored on them.

use vstd::prelude::*;
use crate::dominance::dominates;
use crate::layers::is_ranking;
use crate::layers::lemma_ranking_laws;
use crate::point::ParetoPoint;
use crate::point::objectives;
use crate::point::ranks;
use crate::ranker::layer_ranks;

verus! {

/// The points to rank and the number of objectives each is scored on.
pub struct ParetoProblem {
    pub points: Vec<ParetoPoint>,
    pub dimensions: usize,
}

/// A point was offered whose objective vector has `found` entries where
/// the problem has `expected` objectives.
#[derive(Debug, Clone, Copy, PartialEq, Eq)]
pub struct DimensionMismatch {
    pub expected: usize,
    pub found: usize,
}

/// `after` is `before` with its points ranked: nothing but the ranks has
/// changed, and each rank is the index of the point's layer.
pub open spec fn solved(before: ParetoProblem, after: ParetoProblem) -> bool {
    &&& after.dimensions == before.dimensions
    &&& after.points@.len() == before.points@.len()
    &&& forall|i: int|
        0 <= i < before.points@.len() ==> (#[trigger] after.points@[i]).tag
            == before.points@[i].tag && after.points@[i].v == before.points@[i].v
    &&& is_ranking(objectives(before.points@), ranks(after.points@))
}

impl ParetoProblem {
    /// Every point has one score for each objective.
    pub open spec fn wf(&self) -> bool {
        forall|i: int|
            0 <= i < self.points@.len() ==> (#[trigger] self.points@[i]).v@.len()
                == self.dimensions
    }

    /// A problem with `dimensions` objectives and no points.
    pub fn new(dimensions: usize) -> (problem: ParetoProblem)
        ensures
            problem.dimensions == dimensions,
            problem.points@.len() == 0,
            problem.wf(),
    {
        ParetoProblem { points: Vec::new(), dimensions }
    }

    /// Adds a point with rank 0 at the end, if `values` has one entry for
    /// each objective. Otherwise the problem stays as it is and the
    /// mismatch is reported.
    pub fn add_point(&mut self, tag: i32, values: Vec<i32>) -> (outcome: Result<
        (),
        DimensionMismatch,
    >)
        ensures
            values@.len() == old(self).dimensions ==> outcome is Ok && final(self).dimensions
                == old(self).dimensions && final(self).points@ == old(self).points@.push(
                (ParetoPoint { v: values, tag: tag, rank: 0 }),
            ),
            values@.len() != old(self).dimensions ==> outcome == Err::<(), DimensionMismatch>(
                (DimensionMismatch { expected: old(self).dimensions, found: values.len() }),
            ) && *final(self) == *old(self),
            old(self).wf() ==> final(self).wf(),
    {
        if values.len() != self.dimensions {
            return Err(DimensionMismatch { expected: self.dimensions, found: values.len() });
        }
        self.points.push(ParetoPoint { v: values, tag, rank: 0 });
        Ok(())
    }

    /// Ranks every point by its non-domination layer, lower being better
    /// on every objective: rank 0 for the points that nothing dominates,
    /// rank `k + 1` for those that nothing dominates once the ranks up to
    /// `k` are set aside. Tags and objectives stay as they are.
    ///
    /// So every rank is below the number of points; a point that
    /// dominates another has the lower rank, and points of one rank do
    /// not dominate each other; rank 0 is the Pareto front; and a point
    /// of rank `k + 1` is dominated by a point of rank `k`.
    pub fn solve(&mut self)
        ensures
            solved(*old(self), *final(self)),
            old(self).wf() ==> final(self).wf(),
            forall|i: int|
                0 <= i < final(self).points@.len()
                    ==> (#[trigger] final(self).points@[i]).rank < final(self).points@.len(),
            forall|i: int, j: int|
                0 <= i < final(self).points@.len() && 0 <= j < final(self).points@.len()
                    && dominates(
                    (#[trigger] final(self).points@[i]).v@,
                    (#[trigger] final(self).points@[j]).v@,
                ) ==> final(self).points@[i].rank < final(self).points@[j].rank,
            forall|j: int|
                0 <= j < final(self).points@.len()
                    ==> ((#[trigger] final(self).points@[j]).rank == 0
                    <==> forall|i: int|
                    0 <= i < final(self).points@.len() ==> !dominates(
                        final(self).points@[i].v@,
                        final(self).points@[j].v@,
                    )),
            forall|j: int|
                0 <= j < final(self).points@.len()
                    && (#[trigger] final(self).points@[j]).rank > 0
                    ==> exists|i: int|
                    0 <= i < final(self).points@.len() && dominates(
                        final(self).points@[i].v@,
                        final(self).points@[j].v@,
                    ) && final(self).points@[i].rank + 1 == final(self).points@[j].rank,
    {
        let layers = layer_ranks(&self.points);
        let n: usize = self.points.len();
        let mut i: usize = 0;
        while i < n
            invariant
                i <= n,
                n == old(self).points@.len(),
                self.points@.len() == n,
                layers@.len() == n,
                self.dimensions == old(self).dimensions,
                forall|k: int|
                    0 <= k < n ==> (#[trigger] self.points@[k]).tag == old(self).points@[k].tag
                        && self.points@[k].v == old(self).points@[k].v,
                forall|k: int| 0 <= k < i ==> (#[trigger] self.points@[k]).rank == layers@[k],
            decreases n - i,
        {
            self.points[i].rank = layers[i];
            i += 1;
        }
        proof {
            assert(objectives(self.points@) =~= objectives(old(self).points@));
            assert(ranks(self.points@) =~= layers@);
            lemma_ranking_laws(objectives(self.points@), ranks(self.points@));
            let pts = objectives(self.points@);
            let rk = ranks(self.points@);
            assert forall|j: int|
                0 <= j < self.points@.len() && (#[trigger] self.points@[j]).rank
                    > 0 implies exists|i: int|
                0 <= i < self.points@.len() && dominates(self.points@[i].v@, self.points@[j].v@)
                    && self.points@[i].rank + 1 == self.points@[j].rank by {
                assert(rk[j] > 0);
                let i = choose|i: int|
                    0 <= i < pts.len() && dominates(pts[i], pts[j]) && rk[i] + 1 == rk[j];
                assert(dominates(self.points@[i].v@, self.points@[j].v@));
            }
            assert forall|j: int| 0 <= j < self.points@.len() implies ((
            #[trigger] self.points@[j]).rank == 0 <==> forall|i: int|
                0 <= i < self.points@.len() ==> !dominates(
                    self.points@[i].v@,
                    self.points@[j].v@,
                )) by {
                assert(rk[j] == 0 <==> forall|i: int|
                    0 <= i < pts.len() ==> !dominates(pts[i], pts[j]));
                if rk[j] == 0 {
                    assert forall|i: int| 0 <= i < self.points@.len() implies !dominates(
                        self.points@[i].v@,
                        self.points@[j].v@,
                    ) by {
                        assert(!dominates(pts[i], pts[j]));
                    }
                } else {
                    let i = choose|i: int| 0 <= i < pts.len() && dominates(pts[i], pts[j]);
                    assert(dominates(self.points@[i].v@, self.points@[j].v@));
                }
            }
            assert forall|i: int, j: int|
                0 <= i < self.points@.len() && 0 <= j < self.points@.len() && dominates(
                    (#[trigger] self.points@[i]).v@,
                    (#[trigger] self.points@[j]).v@,
                ) implies self.points@[i].rank < self.points@[j].rank by {
                assert(dominates(pts[i], pts[j]));
                assert(rk[i] < rk[j]);
            }
        }
    }

    /// The greeting of this interface.
    pub fn hello(&self) -> (greeting: String)
        ensures
            greeting@ == "Hello from a RUST interface Pareto problem."@,
    {
        "Hello from a RUST interface Pareto problem.".to_owned()
    }
}

} // verus!
