//! The fast non-dominated sort: one pass of pairwise comparisons, then a
//! peeling of the layers that never compares two points again.

use vstd::prelude::*;
use vstd::set_lib::lemma_int_range;
use vstd::set_lib::lemma_len_subset;
use crate::dominance::dominates;
use crate::layers::in_layer;
use crate::layers::is_ranking;
use crate::layers::within;
use crate::layers::lemma_within_monotone;
use crate::point::ParetoPoint;
use crate::point::objectives;

verus! {

/// The indices below `m` of the points that dominate point `j`.
pub open spec fn dominators_below(pts: Seq<Seq<i32>>, j: int, m: int) -> Set<int> {
    Set::new(|i: int| 0 <= i < m && dominates(pts[i], pts[j]))
}

/// `list` names, in rising order, exactly the points that point `i`
/// dominates.
pub open spec fn lists_dominated(pts: Seq<Seq<i32>>, i: int, list: Seq<usize>) -> bool {
    &&& forall|s: int|
        0 <= s < list.len() ==> #[trigger] list[s] < pts.len() && dominates(
            pts[i],
            pts[list[s] as int],
        )
    &&& forall|s: int, t: int| 0 <= s < t < list.len() ==> list[s] < list[t]
    &&& forall|j: int|
        0 <= j < pts.len() && #[trigger] dominates(pts[i], pts[j]) ==> exists|s: int|
            0 <= s < list.len() && list[s] == j
}

/// The dominators of a point below `m` are finitely many, at most `m`.
pub proof fn lemma_dominators_below_finite(pts: Seq<Seq<i32>>, j: int, m: int)
    requires
        0 <= m,
    ensures
        dominators_below(pts, j, m).finite(),
        dominators_below(pts, j, m).len() <= m,
{
    lemma_int_range(0, m);
    let range = Set::new(|i: int| 0 <= i < m);
    assert(range =~= vstd::set_lib::set_int_range(0, m));
    assert(dominators_below(pts, j, m).subset_of(range));
    lemma_len_subset(dominators_below(pts, j, m), range);
}

/// Taking index `m` into account adds it to the dominators of `j` where
/// point `m` dominates point `j`, and changes nothing where it does not.
proof fn lemma_dominators_below_step(pts: Seq<Seq<i32>>, j: int, m: int)
    requires
        0 <= m,
    ensures
        dominators_below(pts, j, m + 1).len() == dominators_below(pts, j, m).len() + (if dominates(
            pts[m],
            pts[j],
        ) {
            1int
        } else {
            0
        }),
{
    lemma_dominators_below_finite(pts, j, m);
    if dominates(pts[m], pts[j]) {
        assert(dominators_below(pts, j, m + 1) =~= dominators_below(pts, j, m).insert(m));
    } else {
        assert(dominators_below(pts, j, m + 1) =~= dominators_below(pts, j, m));
    }
}

/// The sum of the distances of the objectives from the least `i32`: a
/// measure that dominance strictly lowers.
spec fn weight(a: Seq<i32>) -> nat
    decreases a.len(),
{
    if a.len() == 0 {
        0
    } else {
        (weight(a.drop_last()) + (a.last() - i32::MIN)) as nat
    }
}

/// Where `a` is no worse than `b` on every objective, it weighs no more.
proof fn lemma_weight_le(a: Seq<i32>, b: Seq<i32>)
    requires
        a.len() == b.len(),
        forall|k: int| 0 <= k < a.len() ==> a[k] <= b[k],
    ensures
        weight(a) <= weight(b),
    decreases a.len(),
{
    if a.len() > 0 {
        lemma_weight_le(a.drop_last(), b.drop_last());
    }
}

/// Where `a` is moreover better on objective `k`, it weighs less.
proof fn lemma_weight_lt(a: Seq<i32>, b: Seq<i32>, k: int)
    requires
        a.len() == b.len(),
        forall|m: int| 0 <= m < a.len() ==> a[m] <= b[m],
        0 <= k < a.len(),
        a[k] < b[k],
    ensures
        weight(a) < weight(b),
    decreases a.len(),
{
    if k == a.len() - 1 {
        lemma_weight_le(a.drop_last(), b.drop_last());
    } else {
        lemma_weight_lt(a.drop_last(), b.drop_last(), k);
    }
}

/// A vector that dominates another weighs strictly less.
proof fn lemma_dominates_lowers_weight(a: Seq<i32>, b: Seq<i32>)
    requires
        dominates(a, b),
    ensures
        weight(a) < weight(b),
{
    let k = choose|k: int| 0 <= k < a.len() && a[k] < b[k];
    lemma_weight_lt(a, b, k);
}

/// Point `x` stands among the first `upto` entries of `q`.
spec fn listed(q: Seq<usize>, upto: int, x: int) -> bool {
    exists|t: int| 0 <= t < upto && t < q.len() && q[t] == x
}

/// The dominators of point `j` that are not in `done`.
spec fn pending(pts: Seq<Seq<i32>>, done: Set<int>, j: int) -> Set<int> {
    Set::new(|i: int| 0 <= i < pts.len() && dominates(pts[i], pts[j]) && !done.contains(i))
}

/// The state of the peeling. `q` holds the points whose layer is known,
/// layer by layer; those before `head`, which make up `done`, have been
/// taken away from the points they dominate. `rk` holds the layer of each
/// point of `q`.
spec fn peeling(
    pts: Seq<Seq<i32>>,
    q: Seq<usize>,
    head: int,
    done: Set<int>,
    rk: Seq<usize>,
) -> bool {
    &&& rk.len() == pts.len()
    &&& 0 <= head <= q.len()
    &&& forall|t: int| 0 <= t < q.len() ==> #[trigger] q[t] < pts.len()
    &&& forall|s: int, t: int| 0 <= s < t < q.len() ==> q[s] != q[t]
    &&& forall|t: int| 0 <= t < head ==> done.contains(#[trigger] q[t] as int)
    &&& forall|x: int| #[trigger] done.contains(x) ==> listed(q, head, x)
    &&& forall|t: int|
        0 <= t < q.len() ==> in_layer(pts, pts[#[trigger] q[t] as int], rk[q[t] as int] as nat)
    &&& forall|s: int, t: int| 0 <= s <= t < q.len() ==> rk[q[s] as int] <= rk[q[t] as int]
    &&& forall|t: int| head <= t < q.len() ==> rk[#[trigger] q[t] as int] <= rk[q[head] as int] + 1
    &&& forall|t: int| 0 <= t < q.len() ==> rk[#[trigger] q[t] as int] <= t
}

/// Each count is the number of pending dominators, less one for a point
/// among the first `upto` of `list`, which has been discounted already.
spec fn counts_pending(
    pts: Seq<Seq<i32>>,
    done: Set<int>,
    cnt: Seq<usize>,
    list: Seq<usize>,
    upto: int,
) -> bool {
    &&& cnt.len() == pts.len()
    &&& forall|j: int|
        0 <= j < pts.len() ==> (#[trigger] cnt[j]) + (if listed(list, upto, j) {
            1int
        } else {
            0
        }) == pending(pts, done, j).len()
}

/// The queue holds exactly the points whose count has reached zero.
spec fn zero_is_queued(cnt: Seq<usize>, q: Seq<usize>) -> bool {
    forall|j: int| 0 <= j < cnt.len() ==> ((#[trigger] cnt[j]) == 0 <==> listed(q, q.len() as int, j))
}

/// The pending dominators of a point are finitely many.
proof fn lemma_pending_finite(pts: Seq<Seq<i32>>, done: Set<int>, j: int)
    ensures
        pending(pts, done, j).finite(),
        pending(pts, done, j).len() <= pts.len(),
{
    lemma_int_range(0, pts.len() as int);
    let range = Set::new(|i: int| 0 <= i < pts.len());
    assert(range =~= vstd::set_lib::set_int_range(0, pts.len() as int));
    assert(pending(pts, done, j).subset_of(range));
    lemma_len_subset(pending(pts, done, j), range);
}

/// Distinct indices below `n` are at most `n`.
proof fn lemma_distinct_bounded(q: Seq<usize>, n: nat)
    requires
        forall|t: int| 0 <= t < q.len() ==> #[trigger] q[t] < n,
        forall|s: int, t: int| 0 <= s < t < q.len() ==> q[s] != q[t],
    ensures
        q.len() <= n,
    decreases n,
{
    if q.len() > 0 {
        if n == 0 {
            assert(q[0] < n);
        } else if exists|p: int| 0 <= p < q.len() && q[p] == n - 1 {
            let p = choose|p: int| 0 <= p < q.len() && q[p] == n - 1;
            let r = q.remove(p);
            assert forall|t: int| 0 <= t < r.len() implies #[trigger] r[t] < n - 1 by {
                if t < p {
                    assert(r[t] == q[t]);
                } else {
                    assert(r[t] == q[t + 1]);
                }
            }
            assert forall|s: int, t: int| 0 <= s < t < r.len() implies r[s] != r[t] by {
                assert(r[s] == q[if s < p { s } else { s + 1 }]);
                assert(r[t] == q[if t < p { t } else { t + 1 }]);
            }
            lemma_distinct_bounded(r, (n - 1) as nat);
        } else {
            assert forall|t: int| 0 <= t < q.len() implies #[trigger] q[t] < n - 1 by {
                assert(q[t] < n);
            }
            lemma_distinct_bounded(q, (n - 1) as nat);
        }
    }
}

/// At the start every point that nothing dominates is queued, in layer 0.
proof fn lemma_peeling_start(pts: Seq<Seq<i32>>, q: Seq<usize>, cnt: Seq<usize>, rk: Seq<usize>)
    requires
        cnt.len() == pts.len(),
        rk.len() == pts.len(),
        forall|j: int| 0 <= j < pts.len() ==> #[trigger] rk[j] == 0,
        forall|j: int|
            0 <= j < pts.len() ==> (#[trigger] cnt[j]) == dominators_below(
                pts,
                j,
                pts.len() as int,
            ).len(),
        forall|t: int| 0 <= t < q.len() ==> #[trigger] q[t] < pts.len() && cnt[q[t] as int] == 0,
        forall|s: int, t: int| 0 <= s < t < q.len() ==> q[s] < q[t],
        forall|x: int|
            0 <= x < pts.len() && (#[trigger] cnt[x]) == 0 ==> listed(q, q.len() as int, x),
    ensures
        peeling(pts, q, 0, Set::<int>::empty(), rk),
        counts_pending(pts, Set::<int>::empty(), cnt, Seq::<usize>::empty(), 0),
        zero_is_queued(cnt, q),
{
    let none = Set::<int>::empty();
    assert forall|j: int| 0 <= j < pts.len() implies pending(pts, none, j) =~= dominators_below(
        pts,
        j,
        pts.len() as int,
    ) by {}
    assert forall|t: int| 0 <= t < q.len() implies in_layer(
        pts,
        pts[#[trigger] q[t] as int],
        rk[q[t] as int] as nat,
    ) by {
        let j = q[t] as int;
        lemma_dominators_below_finite(pts, j, pts.len() as int);
        dominators_below(pts, j, pts.len() as int).lemma_len0_is_empty();
        assert forall|i: int| 0 <= i < pts.len() implies !#[trigger] dominates(pts[i], pts[j]) by {
            assert(!dominators_below(pts, j, pts.len() as int).contains(i));
        }
        assert(within(pts, pts[j], 0));
    }
    assert forall|j: int| 0 <= j < pts.len() implies (#[trigger] cnt[j]) + (if listed(
        Seq::<usize>::empty(),
        0,
        j,
    ) {
        1int
    } else {
        0
    }) == pending(pts, none, j).len() by {
        assert(pending(pts, none, j) =~= dominators_below(pts, j, pts.len() as int));
    }
}

/// Once the last pending dominator of point `j` is the point at the head
/// of the queue, `j` lies in the layer after that point's.
proof fn lemma_last_dominator(
    pts: Seq<Seq<i32>>,
    q: Seq<usize>,
    head: int,
    done: Set<int>,
    rk: Seq<usize>,
    j: int,
)
    requires
        peeling(pts, q, head, done, rk),
        head < q.len(),
        0 <= j < pts.len(),
        pending(pts, done, j).contains(q[head] as int),
        pending(pts, done, j).len() == 1,
    ensures
        in_layer(pts, pts[j], (rk[q[head] as int] + 1) as nat),
{
    let i = q[head] as int;
    let k = rk[i] as nat;
    let p = pending(pts, done, j);
    lemma_pending_finite(pts, done, j);
    assert(in_layer(pts, pts[q[head] as int], rk[q[head] as int] as nat));
    assert forall|x: int| 0 <= x < pts.len() && #[trigger] dominates(pts[x], pts[j]) implies k + 1
        > 0 && within(pts, pts[x], k) by {
        if x != i {
            if !done.contains(x) {
                assert(p.contains(x));
                assert(p.remove(i).contains(x));
                assert(p.remove(i).len() == 0);
                assert(false);
            }
            assert(listed(q, head, x));
            let t = choose|t: int| 0 <= t < head && t < q.len() && q[t] == x;
            assert(in_layer(pts, pts[q[t] as int], rk[q[t] as int] as nat));
            assert(rk[q[t] as int] <= rk[q[head] as int]);
            lemma_within_monotone(pts, pts[x], rk[x] as nat, k);
        }
    }
    assert(within(pts, pts[j], k + 1));
    if within(pts, pts[j], k) {
        assert(dominates(pts[i], pts[j]));
        assert(k > 0 && within(pts, pts[i], (k - 1) as nat));
    }
}

/// Discounting the point at the head of the queue from the next point
/// `list[t]` that it dominates: the count was positive, and where it
/// falls to zero the point joins the queue in the next layer.
proof fn lemma_discount(
    pts: Seq<Seq<i32>>,
    q: Seq<usize>,
    head: int,
    done: Set<int>,
    rk: Seq<usize>,
    cnt: Seq<usize>,
    list: Seq<usize>,
    t: int,
)
    requires
        peeling(pts, q, head, done, rk),
        head < q.len(),
        lists_dominated(pts, q[head] as int, list),
        0 <= t < list.len(),
        counts_pending(pts, done, cnt, list, t),
        zero_is_queued(cnt, q),
        rk[q[head] as int] < usize::MAX,
    ensures
        list[t] < pts.len(),
        cnt[list[t] as int] > 0,
        counts_pending(
            pts,
            done,
            cnt.update(list[t] as int, (cnt[list[t] as int] - 1) as usize),
            list,
            t + 1,
        ),
        cnt[list[t] as int] > 1 ==> zero_is_queued(
            cnt.update(list[t] as int, (cnt[list[t] as int] - 1) as usize),
            q,
        ),
        cnt[list[t] as int] == 1 ==> peeling(
            pts,
            q.push(list[t]),
            head,
            done,
            rk.update(list[t] as int, (rk[q[head] as int] + 1) as usize),
        ) && zero_is_queued(
            cnt.update(list[t] as int, (cnt[list[t] as int] - 1) as usize),
            q.push(list[t]),
        ),
{
    let i = q[head] as int;
    let j = list[t] as int;
    let cnt2 = cnt.update(j, (cnt[j] - 1) as usize);
    assert(list[t] < pts.len() && dominates(pts[i], pts[j]));
    assert(!listed(list, t, j));
    if done.contains(i) {
        assert(listed(q, head, i));
    }
    lemma_pending_finite(pts, done, j);
    assert(pending(pts, done, j).contains(i));
    assert(cnt[j] > 0);
    assert forall|x: int| 0 <= x < pts.len() implies (#[trigger] cnt2[x]) + (if listed(
        list,
        t + 1,
        x,
    ) {
        1int
    } else {
        0
    }) == pending(pts, done, x).len() by {
        if x == j {
            assert(list[t] == x);
            assert(listed(list, t + 1, x));
        } else {
            if listed(list, t + 1, x) {
                let s = choose|s: int| 0 <= s < t + 1 && s < list.len() && list[s] == x;
                assert(s < t);
                assert(listed(list, t, x));
            }
            if listed(list, t, x) {
                let s = choose|s: int| 0 <= s < t && s < list.len() && list[s] == x;
                assert(listed(list, t + 1, x));
            }
        }
    }
    assert(cnt[j] != 0);
    assert(!listed(q, q.len() as int, j));
    if cnt[j] > 1 {
        assert forall|x: int| 0 <= x < cnt2.len() implies ((#[trigger] cnt2[x]) == 0 <==> listed(
            q,
            q.len() as int,
            x,
        )) by {
            if x != j {
                assert(cnt2[x] == cnt[x]);
            }
        }
    } else {
        let q2 = q.push(list[t]);
        let r = (rk[i] + 1) as usize;
        let rk2 = rk.update(j, r);
        lemma_last_dominator(pts, q, head, done, rk, j);
        assert forall|s: int| 0 <= s < q.len() implies q[s] != j && #[trigger] q2[s] == q[s] && rk2[q[s] as int] == rk[q[s] as int] by {
            if q[s] == j {
                assert(listed(q, q.len() as int, j));
            }
        }
        assert(q2[q.len() as int] == j);
        assert(rk2[j] == r);
        assert forall|x: int| #[trigger] done.contains(x) implies listed(q2, head, x) by {
            assert(listed(q, head, x));
            let s = choose|s: int| 0 <= s < head && s < q.len() && q[s] == x;
            assert(q2[s] == x);
        }
        assert forall|s: int| 0 <= s < q2.len() implies in_layer(
            pts,
            pts[#[trigger] q2[s] as int],
            rk2[q2[s] as int] as nat,
        ) by {
            if s < q.len() {
                assert(q2[s] == q[s]);
                assert(in_layer(pts, pts[q[s] as int], rk[q[s] as int] as nat));
            }
        }
        assert forall|s: int| head <= s < q2.len() implies rk2[#[trigger] q2[s] as int] <= rk2[q2[head] as int] + 1 by {
            assert(q2[head] == q[head]);
            if s < q.len() {
                assert(q2[s] == q[s]);
                assert(rk[q[s] as int] <= rk[q[head] as int] + 1);
            }
        }
        assert forall|a: int, b: int| 0 <= a <= b < q2.len() implies rk2[q2[a] as int] <= rk2[q2[b] as int] by {
            if b < q.len() {
                assert(q2[a] == q[a] && q2[b] == q[b]);
            } else if a < q.len() {
                assert(q2[a] == q[a]);
                if a < head {
                    assert(rk[q[a] as int] <= rk[q[head] as int]);
                } else {
                    assert(rk[q[a] as int] <= rk[q[head] as int] + 1);
                }
            }
        }
        assert forall|s: int| 0 <= s < q2.len() implies rk2[#[trigger] q2[s] as int] <= s by {
            if s < q.len() {
                assert(q2[s] == q[s]);
                assert(rk[q[s] as int] <= s);
            } else {
                assert(rk[q[head] as int] <= head);
            }
        }
        assert forall|a: int, b: int| 0 <= a < b < q2.len() implies q2[a] != q2[b] by {
            assert(q2[a] == q[a]);
            if b < q.len() {
                assert(q2[b] == q[b]);
            }
        }
        assert forall|s: int| 0 <= s < q2.len() implies #[trigger] q2[s] < pts.len() by {
            if s < q.len() {
                assert(q2[s] == q[s]);
            }
        }
        assert forall|s: int| 0 <= s < head implies done.contains(#[trigger] q2[s] as int) by {
            assert(q2[s] == q[s]);
        }
        assert(peeling(pts, q2, head, done, rk2));
        assert forall|x: int| 0 <= x < cnt2.len() implies ((#[trigger] cnt2[x]) == 0 <==> listed(
            q2,
            q2.len() as int,
            x,
        )) by {
            if x == j {
                assert(listed(q2, q2.len() as int, x));
            } else {
                assert(cnt2[x] == cnt[x]);
                if listed(q, q.len() as int, x) {
                    let s = choose|s: int| 0 <= s < q.len() && s < q.len() && q[s] == x;
                    assert(q2[s] == x);
                    assert(listed(q2, q2.len() as int, x));
                }
                if listed(q2, q2.len() as int, x) {
                    let s = choose|s: int| 0 <= s < q2.len() && s < q2.len() && q2[s] == x;
                    assert(s < q.len());
                    assert(q[s] == x);
                    assert(listed(q, q.len() as int, x));
                }
            }
        }
    }
}

/// Once the point at the head of the queue has been discounted from every
/// point that it dominates, it is done and the head moves on.
proof fn lemma_advance(
    pts: Seq<Seq<i32>>,
    q: Seq<usize>,
    head: int,
    done: Set<int>,
    rk: Seq<usize>,
    cnt: Seq<usize>,
    list: Seq<usize>,
)
    requires
        peeling(pts, q, head, done, rk),
        head < q.len(),
        lists_dominated(pts, q[head] as int, list),
        counts_pending(pts, done, cnt, list, list.len() as int),
    ensures
        peeling(pts, q, head + 1, done.insert(q[head] as int), rk),
        counts_pending(pts, done.insert(q[head] as int), cnt, Seq::<usize>::empty(), 0),
{
    let i = q[head] as int;
    let done2 = done.insert(i);
    if done.contains(i) {
        assert(listed(q, head, i));
    }
    assert forall|x: int| #[trigger] done2.contains(x) implies listed(q, head + 1, x) by {
        if x == i {
            assert(q[head] == x);
        } else {
            assert(listed(q, head, x));
            let s = choose|s: int| 0 <= s < head && s < q.len() && q[s] == x;
            assert(q[s] == x);
        }
    }
    assert forall|t: int| head + 1 <= t < q.len() implies rk[#[trigger] q[t] as int] <= rk[q[head
        + 1] as int] + 1 by {
        assert(rk[q[t] as int] <= rk[q[head] as int] + 1);
        assert(rk[q[head] as int] <= rk[q[head + 1] as int]);
    }
    assert(peeling(pts, q, head + 1, done2, rk));
    assert forall|j: int| 0 <= j < pts.len() implies (#[trigger] cnt[j]) + (if listed(
        Seq::<usize>::empty(),
        0,
        j,
    ) {
        1int
    } else {
        0
    }) == pending(pts, done2, j).len() by {
        lemma_pending_finite(pts, done, j);
        assert(pending(pts, done2, j) =~= pending(pts, done, j).remove(i));
        if dominates(pts[i], pts[j]) {
            let s = choose|s: int| 0 <= s < list.len() && list[s] == j;
            assert(listed(list, list.len() as int, j));
            assert(pending(pts, done, j).contains(i));
        } else {
            if listed(list, list.len() as int, j) {
                let s = choose|s: int| 0 <= s < list.len() && s < list.len() && list[s] == j;
                assert(dominates(pts[i], pts[list[s] as int]));
            }
            assert(!pending(pts, done, j).contains(i));
        }
    }
}

/// Among points that are not queued, starting from `j`, one is found that
/// no point outside the queue dominates.
proof fn lemma_unqueued_minimal(pts: Seq<Seq<i32>>, q: Seq<usize>, j: int) -> (m: int)
    requires
        0 <= j < pts.len(),
        !listed(q, q.len() as int, j),
    ensures
        0 <= m < pts.len(),
        !listed(q, q.len() as int, m),
        forall|i: int|
            0 <= i < pts.len() && #[trigger] dominates(pts[i], pts[m]) ==> listed(
                q,
                q.len() as int,
                i,
            ),
    decreases weight(pts[j]),
{
    if exists|i: int|
        0 <= i < pts.len() && #[trigger] dominates(pts[i], pts[j]) && !listed(
            q,
            q.len() as int,
            i,
        ) {
        let i = choose|i: int|
            0 <= i < pts.len() && #[trigger] dominates(pts[i], pts[j]) && !listed(
                q,
                q.len() as int,
                i,
            );
        lemma_dominates_lowers_weight(pts[i], pts[j]);
        lemma_unqueued_minimal(pts, q, i)
    } else {
        j
    }
}

/// When the queue is used up every point has its layer.
proof fn lemma_peeling_complete(
    pts: Seq<Seq<i32>>,
    q: Seq<usize>,
    done: Set<int>,
    rk: Seq<usize>,
    cnt: Seq<usize>,
)
    requires
        peeling(pts, q, q.len() as int, done, rk),
        counts_pending(pts, done, cnt, Seq::<usize>::empty(), 0),
        zero_is_queued(cnt, q),
    ensures
        is_ranking(pts, rk),
        forall|j: int| 0 <= j < pts.len() ==> #[trigger] rk[j] < pts.len(),
{
    lemma_distinct_bounded(q, pts.len());
    assert forall|j: int| 0 <= j < pts.len() implies listed(q, q.len() as int, j) by {
        if !listed(q, q.len() as int, j) {
            let m = lemma_unqueued_minimal(pts, q, j);
            lemma_pending_finite(pts, done, m);
            assert(cnt[m] != 0);
            assert(!listed(Seq::<usize>::empty(), 0, m));
            let p = pending(pts, done, m);
            assert(p.len() != 0);
            let i = p.choose();
            assert(p.contains(i));
            assert(dominates(pts[i], pts[m]));
            assert(listed(q, q.len() as int, i));
            let t = choose|t: int| 0 <= t < q.len() && t < q.len() && q[t] == i;
            assert(done.contains(q[t] as int));
            assert(false);
        }
    }
    assert forall|j: int| 0 <= j < pts.len() implies in_layer(pts, pts[j], #[trigger] rk[j] as nat)
        && rk[j] < pts.len() by {
        assert(listed(q, q.len() as int, j));
        let t = choose|t: int| 0 <= t < q.len() && t < q.len() && q[t] == j;
        assert(in_layer(pts, pts[q[t] as int], rk[q[t] as int] as nat));
        assert(rk[q[t] as int] <= t);
    }
}

/// Compares every pair of points once. Returns, for each point, the list
/// of the points it dominates, and for each point the number of points
/// that dominate it.
pub fn dominance_table(points: &Vec<ParetoPoint>) -> (table: (Vec<Vec<usize>>, Vec<usize>))
    ensures
        table.0@.len() == points@.len(),
        table.1@.len() == points@.len(),
        forall|i: int|
            0 <= i < points@.len() ==> lists_dominated(
                objectives(points@),
                i,
                (#[trigger] table.0@[i])@,
            ),
        forall|j: int|
            0 <= j < points@.len() ==> (#[trigger] table.1@[j]) == dominators_below(
                objectives(points@),
                j,
                points@.len() as int,
            ).len(),
{
    let n: usize = points.len();
    let ghost pts = objectives(points@);
    let mut below: Vec<Vec<usize>> = Vec::new();
    let mut count: Vec<usize> = Vec::new();
    let mut z: usize = 0;
    while z < n
        invariant
            z <= n,
            count@.len() == z,
            forall|j: int| 0 <= j < z ==> count@[j] == 0,
        decreases n - z,
    {
        count.push(0);
        z += 1;
    }
    proof {
        assert forall|j: int| 0 <= j < n implies (#[trigger] count@[j]) == dominators_below(
            pts,
            j,
            0,
        ).len() by {
            assert(dominators_below(pts, j, 0) =~= Set::<int>::empty());
        }
    }
    let mut i: usize = 0;
    while i < n
        invariant
            i <= n,
            n == points@.len(),
            pts == objectives(points@),
            below@.len() == i,
            count@.len() == n,
            forall|a: int| 0 <= a < i ==> lists_dominated(pts, a, (#[trigger] below@[a])@),
            forall|j: int|
                0 <= j < n ==> (#[trigger] count@[j]) == dominators_below(pts, j, i as int).len(),
        decreases n - i,
    {
        let mut list: Vec<usize> = Vec::new();
        let mut j: usize = 0;
        while j < n
            invariant
                j <= n,
                i < n,
                n == points@.len(),
                pts == objectives(points@),
                count@.len() == n,
                forall|s: int|
                    0 <= s < list@.len() ==> #[trigger] list@[s] < j && dominates(
                        pts[i as int],
                        pts[list@[s] as int],
                    ),
                forall|s: int, t: int| 0 <= s < t < list@.len() ==> list@[s] < list@[t],
                forall|x: int|
                    0 <= x < j && #[trigger] dominates(pts[i as int], pts[x]) ==> exists|s: int|
                        0 <= s < list@.len() && list@[s] == x,
                forall|x: int|
                    0 <= x < j ==> (#[trigger] count@[x]) == dominators_below(
                        pts,
                        x,
                        i as int + 1,
                    ).len(),
                forall|x: int|
                    j <= x < n ==> (#[trigger] count@[x]) == dominators_below(
                        pts,
                        x,
                        i as int,
                    ).len(),
            decreases n - j,
        {
            proof {
                lemma_dominators_below_step(pts, j as int, i as int);
                lemma_dominators_below_finite(pts, j as int, i as int);
            }
            if points[i].dominates(&points[j]) {
                let ghost before = list@;
                list.push(j);
                let c: usize = count[j];
                count.set(j, c + 1);
                proof {
                    assert forall|x: int|
                        0 <= x < j + 1 && #[trigger] dominates(
                            pts[i as int],
                            pts[x],
                        ) implies exists|s: int| 0 <= s < list@.len() && list@[s] == x by {
                        if x < j {
                            let s = choose|s: int| 0 <= s < before.len() && before[s] == x;
                            assert(list@[s] == x);
                        } else {
                            assert(list@[before.len() as int] == x);
                        }
                    }
                }
            }
            j += 1;
        }
        below.push(list);
        i += 1;
    }
    (below, count)
}

/// The layer of every point: position `i` of the result holds the index
/// of the layer in which point `i` lies. Lower is better on every
/// objective.
pub fn layer_ranks(points: &Vec<ParetoPoint>) -> (result: Vec<usize>)
    ensures
        is_ranking(objectives(points@), result@),
        forall|j: int| 0 <= j < points@.len() ==> #[trigger] result@[j] < points@.len(),
{
    let n: usize = points.len();
    let ghost pts = objectives(points@);
    let (below, mut count) = dominance_table(points);
    let mut result: Vec<usize> = Vec::new();
    let mut z: usize = 0;
    while z < n
        invariant
            z <= n,
            result@.len() == z,
            forall|j: int| 0 <= j < z ==> #[trigger] result@[j] == 0,
        decreases n - z,
    {
        result.push(0);
        z += 1;
    }
    let mut queue: Vec<usize> = Vec::new();
    let mut j: usize = 0;
    while j < n
        invariant
            j <= n,
            count@.len() == n,
            forall|t: int| 0 <= t < queue@.len() ==> #[trigger] queue@[t] < j && count@[queue@[t] as int] == 0,
            forall|s: int, t: int| 0 <= s < t < queue@.len() ==> queue@[s] < queue@[t],
            forall|x: int|
                0 <= x < j && (#[trigger] count@[x]) == 0 ==> listed(
                    queue@,
                    queue@.len() as int,
                    x,
                ),
        decreases n - j,
    {
        if count[j] == 0 {
            let ghost before = queue@;
            queue.push(j);
            proof {
                assert forall|x: int| 0 <= x < j + 1 && (#[trigger] count@[x]) == 0 implies listed(
                    queue@,
                    queue@.len() as int,
                    x,
                ) by {
                    if x < j {
                        assert(listed(before, before.len() as int, x));
                        let t = choose|t: int|
                            0 <= t < before.len() && t < before.len() && before[t] == x;
                        assert(queue@[t] == x);
                    } else {
                        assert(queue@[before.len() as int] == x);
                    }
                }
            }
        }
        j += 1;
    }
    let ghost mut done: Set<int> = Set::empty();
    proof {
        lemma_peeling_start(pts, queue@, count@, result@);
    }
    let mut head: usize = 0;
    while head < queue.len()
        invariant
            n == pts.len(),
            below@.len() == n,
            forall|a: int| 0 <= a < n ==> lists_dominated(pts, a, (#[trigger] below@[a])@),
            peeling(pts, queue@, head as int, done, result@),
            counts_pending(pts, done, count@, Seq::<usize>::empty(), 0),
            zero_is_queued(count@, queue@),
        decreases n - head,
    {
        proof {
            lemma_distinct_bounded(queue@, n as nat);
        }
        let i: usize = queue[head];
        let list = &below[i];
        let mut t: usize = 0;
        while t < list.len()
            invariant
                n == pts.len(),
                t <= list@.len(),
                head < queue@.len(),
                i == queue@[head as int],
                lists_dominated(pts, i as int, list@),
                peeling(pts, queue@, head as int, done, result@),
                counts_pending(pts, done, count@, list@, t as int),
                zero_is_queued(count@, queue@),
            decreases list@.len() - t,
        {
            let x: usize = list[t];
            let r: usize = result[i];
            proof {
                assert(result@[queue@[head as int] as int] <= head);
                assert(head < queue.len());
                lemma_discount(pts, queue@, head as int, done, result@, count@, list@, t as int);
            }
            let c: usize = count[x] - 1;
            count.set(x, c);
            if c == 0 {
                result.set(x, r + 1);
                queue.push(x);
            }
            t += 1;
        }
        proof {
            lemma_advance(pts, queue@, head as int, done, result@, count@, list@);
            done = done.insert(i as int);
        }
        head += 1;
    }
    proof {
        lemma_peeling_complete(pts, queue@, done, result@, count@);
    }
    result
}

} // verus!
