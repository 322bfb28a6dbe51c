//! Non-domination layers: what the rank of a point is.
//!
//! Layer 0 is the Pareto front, the points that nothing dominates. Layer
//! `k + 1` is the front of what is left once layers `0..=k` are taken away.

use vstd::prelude::*;
use crate::dominance::dominates;

verus! {

/// `v` is reached within `k` peelings of `pts`: every point of `pts` that
/// dominates `v` is reached within `k - 1` peelings, and for `k == 0`
/// nothing dominates `v`.
pub open spec fn within(pts: Seq<Seq<i32>>, v: Seq<i32>, k: nat) -> bool
    decreases k,
{
    forall|j: int|
        0 <= j < pts.len() && #[trigger] dominates(pts[j], v) ==> k > 0 && within(
            pts,
            pts[j],
            (k - 1) as nat,
        )
}

/// `v` lies in layer `k` of `pts`: `k` is the least number of peelings
/// within which `v` is reached.
pub open spec fn in_layer(pts: Seq<Seq<i32>>, v: Seq<i32>, k: nat) -> bool {
    within(pts, v, k) && (k > 0 ==> !within(pts, v, (k - 1) as nat))
}

/// `ranks` gives each point of `pts` the index of its layer.
pub open spec fn is_ranking(pts: Seq<Seq<i32>>, ranks: Seq<usize>) -> bool {
    &&& ranks.len() == pts.len()
    &&& forall|i: int| 0 <= i < pts.len() ==> in_layer(pts, pts[i], #[trigger] ranks[i] as nat)
}

/// `a` and `b` hold the same vectors, in any order and any number of times.
pub open spec fn same_vectors(a: Seq<Seq<i32>>, b: Seq<Seq<i32>>) -> bool {
    &&& forall|i: int| 0 <= i < a.len() ==> b.contains(#[trigger] a[i])
    &&& forall|i: int| 0 <= i < b.len() ==> a.contains(#[trigger] b[i])
}

/// What is reached within `k` peelings is reached within any more.
pub proof fn lemma_within_monotone(pts: Seq<Seq<i32>>, v: Seq<i32>, k: nat, m: nat)
    requires
        within(pts, v, k),
        k <= m,
    ensures
        within(pts, v, m),
    decreases k,
{
    assert forall|j: int| 0 <= j < pts.len() && #[trigger] dominates(pts[j], v) implies m > 0
        && within(pts, pts[j], (m - 1) as nat) by {
        lemma_within_monotone(pts, pts[j], (k - 1) as nat, (m - 1) as nat);
    }
}

/// A vector lies in at most one layer.
pub proof fn lemma_layer_unique(pts: Seq<Seq<i32>>, v: Seq<i32>, a: nat, b: nat)
    requires
        in_layer(pts, v, a),
        in_layer(pts, v, b),
    ensures
        a == b,
{
    if a < b {
        lemma_within_monotone(pts, v, a, (b - 1) as nat);
    }
    if b < a {
        lemma_within_monotone(pts, v, b, (a - 1) as nat);
    }
}

/// A point that dominates another lies in a strictly earlier layer.
pub proof fn lemma_dominator_is_earlier(
    pts: Seq<Seq<i32>>,
    i: int,
    v: Seq<i32>,
    ri: nat,
    rv: nat,
)
    requires
        0 <= i < pts.len(),
        dominates(pts[i], v),
        in_layer(pts, pts[i], ri),
        in_layer(pts, v, rv),
    ensures
        ri < rv,
{
    assert(rv > 0 && within(pts, pts[i], (rv - 1) as nat));
    if ri >= rv {
        lemma_within_monotone(pts, pts[i], (rv - 1) as nat, (ri - 1) as nat);
    }
}

/// Layer 0 holds exactly the vectors that no point dominates.
pub proof fn lemma_front_is_nondominated(pts: Seq<Seq<i32>>, v: Seq<i32>)
    ensures
        in_layer(pts, v, 0) <==> forall|j: int| 0 <= j < pts.len() ==> !dominates(pts[j], v),
{
    if forall|j: int| 0 <= j < pts.len() ==> !dominates(pts[j], v) {
        assert(within(pts, v, 0));
    }
}

/// A vector in layer `k + 1` is dominated by a point of layer `k`.
pub proof fn lemma_layer_has_parent(pts: Seq<Seq<i32>>, v: Seq<i32>, k: nat) -> (j: int)
    requires
        in_layer(pts, v, k),
        k > 0,
    ensures
        0 <= j < pts.len(),
        dominates(pts[j], v),
        in_layer(pts, pts[j], (k - 1) as nat),
{
    let k1 = (k - 1) as nat;
    let j = choose|j: int|
        0 <= j < pts.len() && #[trigger] dominates(pts[j], v) && !(k1 > 0 && within(
            pts,
            pts[j],
            (k1 - 1) as nat,
        ));
    assert(within(pts, pts[j], k1));
    j
}

/// Layers depend on which vectors are present, not on their order or
/// on how often each occurs.
pub proof fn lemma_within_same_vectors(a: Seq<Seq<i32>>, b: Seq<Seq<i32>>, v: Seq<i32>, k: nat)
    requires
        same_vectors(a, b),
    ensures
        within(a, v, k) == within(b, v, k),
    decreases k,
{
    if within(a, v, k) {
        assert forall|j: int| 0 <= j < b.len() && #[trigger] dominates(b[j], v) implies k > 0
            && within(b, b[j], (k - 1) as nat) by {
            let i = choose|i: int| 0 <= i < a.len() && a[i] == b[j];
            assert(dominates(a[i], v));
            lemma_within_same_vectors(a, b, b[j], (k - 1) as nat);
        }
    }
    if within(b, v, k) {
        assert forall|j: int| 0 <= j < a.len() && #[trigger] dominates(a[j], v) implies k > 0
            && within(a, a[j], (k - 1) as nat) by {
            let i = choose|i: int| 0 <= i < b.len() && b[i] == a[j];
            assert(dominates(b[i], v));
            lemma_within_same_vectors(a, b, a[j], (k - 1) as nat);
        }
    }
}

/// The layer of a vector is the same in any two collections that hold
/// the same vectors.
pub proof fn lemma_layer_same_vectors(a: Seq<Seq<i32>>, b: Seq<Seq<i32>>, v: Seq<i32>, k: nat)
    requires
        same_vectors(a, b),
    ensures
        in_layer(a, v, k) == in_layer(b, v, k),
{
    lemma_within_same_vectors(a, b, v, k);
    if k > 0 {
        lemma_within_same_vectors(a, b, v, (k - 1) as nat);
    }
}

/// What holds of any ranking by layers: a dominating point has the lower
/// rank; rank 0 belongs to exactly the points that nothing dominates; a
/// point of rank `k + 1` is dominated by one of rank `k`.
pub proof fn lemma_ranking_laws(pts: Seq<Seq<i32>>, rk: Seq<usize>)
    requires
        is_ranking(pts, rk),
    ensures
        forall|i: int, j: int|
            0 <= i < pts.len() && 0 <= j < pts.len() && #[trigger] dominates(pts[i], pts[j])
                ==> rk[i] < rk[j],
        forall|j: int|
            0 <= j < pts.len() ==> ((#[trigger] rk[j]) == 0 <==> forall|i: int|
                0 <= i < pts.len() ==> !dominates(pts[i], pts[j])),
        forall|j: int|
            0 <= j < pts.len() && (#[trigger] rk[j]) > 0 ==> exists|i: int|
                0 <= i < pts.len() && dominates(pts[i], pts[j]) && rk[i] + 1 == rk[j],
{
    assert forall|i: int, j: int|
        0 <= i < pts.len() && 0 <= j < pts.len() && #[trigger] dominates(
            pts[i],
            pts[j],
        ) implies rk[i] < rk[j] by {
        lemma_dominator_is_earlier(pts, i, pts[j], rk[i] as nat, rk[j] as nat);
    }
    assert forall|j: int| 0 <= j < pts.len() implies ((#[trigger] rk[j]) == 0 <==> forall|i: int|
        0 <= i < pts.len() ==> !dominates(pts[i], pts[j])) by {
        lemma_front_is_nondominated(pts, pts[j]);
        if forall|i: int| 0 <= i < pts.len() ==> !dominates(pts[i], pts[j]) {
            lemma_layer_unique(pts, pts[j], rk[j] as nat, 0);
        }
    }
    assert forall|j: int| 0 <= j < pts.len() && (#[trigger] rk[j]) > 0 implies exists|i: int|
        0 <= i < pts.len() && dominates(pts[i], pts[j]) && rk[i] + 1 == rk[j] by {
        let i = lemma_layer_has_parent(pts, pts[j], rk[j] as nat);
        lemma_layer_unique(pts, pts[i], rk[i] as nat, (rk[j] - 1) as nat);
    }
}

} // verus!
