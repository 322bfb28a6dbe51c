//! What holds of solving across calls: it is repeatable, and blind to
//! the order in which the points were added.

use vstd::prelude::*;
use vstd::seq_lib::group_to_multiset_ensures;
use crate::layers::in_layer;
use crate::layers::same_vectors;
use crate::layers::lemma_layer_same_vectors;
use crate::layers::lemma_layer_unique;
use crate::point::ParetoPoint;
use crate::point::objectives;
use crate::point::ranks;
use crate::problem::ParetoProblem;
use crate::problem::solved;

verus! {

/// The tag and the objective vector of each point, in order.
pub open spec fn entries(points: Seq<ParetoPoint>) -> Seq<(i32, Seq<i32>)> {
    Seq::new(points.len(), |i: int| (points[i].tag, points[i].v@))
}

/// The tag and the rank of each point, in order.
pub open spec fn outcomes(points: Seq<ParetoPoint>) -> Seq<(i32, usize)> {
    Seq::new(points.len(), |i: int| (points[i].tag, points[i].rank))
}

/// The layer in which `v` lies among `pts`.
spec fn layer_of(pts: Seq<Seq<i32>>, v: Seq<i32>) -> nat {
    choose|k: nat| in_layer(pts, v, k)
}

/// Solving a solved problem again changes nothing.
pub proof fn lemma_solve_idempotent(start: ParetoProblem, once: ParetoProblem, twice: ParetoProblem)
    requires
        solved(start, once),
        solved(once, twice),
    ensures
        twice.dimensions == once.dimensions,
        twice.points@ == once.points@,
{
    let pts = objectives(start.points@);
    assert(objectives(once.points@) =~= pts);
    assert forall|i: int| 0 <= i < once.points@.len() implies twice.points@[i]
        == once.points@[i] by {
        assert(in_layer(pts, pts[i], ranks(once.points@)[i] as nat));
        assert(in_layer(pts, pts[i], ranks(twice.points@)[i] as nat));
        lemma_layer_unique(
            pts,
            pts[i],
            once.points@[i].rank as nat,
            twice.points@[i].rank as nat,
        );
    }
    assert(twice.points@ =~= once.points@);
}

/// Two points with the same objective vector get the same rank.
pub proof fn lemma_equal_vectors_equal_ranks(
    before: ParetoProblem,
    after: ParetoProblem,
    i: int,
    j: int,
)
    requires
        solved(before, after),
        0 <= i < after.points@.len(),
        0 <= j < after.points@.len(),
        after.points@[i].v@ == after.points@[j].v@,
    ensures
        after.points@[i].rank == after.points@[j].rank,
{
    let pts = objectives(before.points@);
    assert(in_layer(pts, pts[i], ranks(after.points@)[i] as nat));
    assert(in_layer(pts, pts[j], ranks(after.points@)[j] as nat));
    lemma_layer_unique(pts, pts[i], after.points@[i].rank as nat, after.points@[j].rank as nat);
}

/// Two sequences that hold the same items equally often still do so
/// after `f` has been applied to every item.
pub proof fn lemma_map_keeps_multiset<A, B>(a: Seq<A>, b: Seq<A>, f: spec_fn(A) -> B)
    requires
        a.to_multiset() == b.to_multiset(),
    ensures
        a.map_values(f).to_multiset() == b.map_values(f).to_multiset(),
    decreases a.len(),
{
    broadcast use group_to_multiset_ensures;

    vstd::seq_lib::to_multiset_len(a);
    vstd::seq_lib::to_multiset_len(b);
    if a.len() == 0 {
        assert(b.len() == 0);
        assert(a.map_values(f) =~= b.map_values(f));
    } else {
        let x = a.last();
        let a1 = a.drop_last();
        assert(a =~= a1.push(x));
        assert(a.to_multiset() == a1.to_multiset().insert(x));
        assert(a.to_multiset().count(x) > 0);
        vstd::seq_lib::to_multiset_contains(b, x);
        assert(b.contains(x));
        let p = choose|p: int| 0 <= p < b.len() && b[p] == x;
        let b1 = b.remove(p);
        assert(b1.to_multiset() == b.to_multiset().remove(x));
        assert(a1.to_multiset() =~= b1.to_multiset());
        lemma_map_keeps_multiset(a1, b1, f);
        assert(a.map_values(f) =~= a1.map_values(f).push(f(x)));
        assert(b1.map_values(f).len() == b.len() - 1);
        assert(b.map_values(f) =~= b1.map_values(f).insert(p, f(x)));
    }
}

/// The order in which the points were added does not matter: two
/// problems that hold the same tagged points, each as often as the other,
/// give after solving the same pairs of tag and rank, each as often.
pub proof fn lemma_solve_order_independent(
    a: ParetoProblem,
    a_solved: ParetoProblem,
    b: ParetoProblem,
    b_solved: ParetoProblem,
)
    requires
        solved(a, a_solved),
        solved(b, b_solved),
        entries(a.points@).to_multiset() == entries(b.points@).to_multiset(),
    ensures
        outcomes(a_solved.points@).to_multiset() == outcomes(b_solved.points@).to_multiset(),
{
    broadcast use group_to_multiset_ensures;

    let ea = entries(a.points@);
    let eb = entries(b.points@);
    let pa = objectives(a.points@);
    let pb = objectives(b.points@);
    assert forall|i: int| 0 <= i < pa.len() implies pb.contains(#[trigger] pa[i]) by {
        assert(ea.contains(ea[i]));
        assert(eb.to_multiset().count(ea[i]) > 0);
        assert(eb.contains(ea[i]));
        let k = choose|k: int| 0 <= k < eb.len() && eb[k] == ea[i];
        assert(pb[k] == pa[i]);
    }
    assert forall|i: int| 0 <= i < pb.len() implies pa.contains(#[trigger] pb[i]) by {
        assert(eb.contains(eb[i]));
        assert(ea.to_multiset().count(eb[i]) > 0);
        assert(ea.contains(eb[i]));
        let k = choose|k: int| 0 <= k < ea.len() && ea[k] == eb[i];
        assert(pa[k] == pb[i]);
    }
    assert(same_vectors(pa, pb));
    let f = |e: (i32, Seq<i32>)| (e.0, layer_of(pa, e.1) as usize);
    assert forall|i: int| 0 <= i < ea.len() implies outcomes(a_solved.points@)[i] == f(ea[i]) by {
        let r = a_solved.points@[i].rank;
        assert(in_layer(pa, pa[i], ranks(a_solved.points@)[i] as nat));
        lemma_layer_unique(pa, pa[i], r as nat, layer_of(pa, pa[i]));
    }
    assert forall|i: int| 0 <= i < eb.len() implies outcomes(b_solved.points@)[i] == f(eb[i]) by {
        let r = b_solved.points@[i].rank;
        assert(in_layer(pb, pb[i], ranks(b_solved.points@)[i] as nat));
        lemma_layer_same_vectors(pa, pb, pb[i], r as nat);
        lemma_layer_unique(pa, pb[i], r as nat, layer_of(pa, pb[i]));
    }
    assert(outcomes(a_solved.points@) =~= ea.map_values(f));
    assert(outcomes(b_solved.points@) =~= eb.map_values(f));
    lemma_map_keeps_multiset(ea, eb, f);
}

} // verus!
