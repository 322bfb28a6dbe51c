//! The smallest upright rectangle around the positions added so far.

use vstd::prelude::*;

verus! {

/// A bounding box. Until the first position is added it is undefined and
/// its four bounds are zero.
#[derive(Debug, Clone, Copy, PartialEq, Eq)]
pub struct BoundingBox {
    pub defined: bool,
    pub min_x: i32,
    pub min_y: i32,
    pub max_x: i32,
    pub max_y: i32,
}

/// The lesser of two bounds.
pub open spec fn lesser(a: i32, b: i32) -> i32 {
    if a <= b {
        a
    } else {
        b
    }
}

/// The greater of two bounds.
pub open spec fn greater(a: i32, b: i32) -> i32 {
    if a >= b {
        a
    } else {
        b
    }
}

/// `after` is what adding `(x, y)` makes of `before`.
pub open spec fn added(before: BoundingBox, after: BoundingBox, x: i32, y: i32) -> bool {
    &&& after.defined
    &&& !before.defined ==> after.min_x == x && after.max_x == x && after.min_y == y && after.max_y
        == y
    &&& before.defined ==> after.min_x == lesser(before.min_x, x) && after.max_x == greater(
        before.max_x,
        x,
    ) && after.min_y == lesser(before.min_y, y) && after.max_y == greater(before.max_y, y)
}

impl BoundingBox {
    /// An undefined box has zero bounds; a defined one is not inside out.
    pub open spec fn wf(&self) -> bool {
        if self.defined {
            self.min_x <= self.max_x && self.min_y <= self.max_y
        } else {
            self.min_x == 0 && self.min_y == 0 && self.max_x == 0 && self.max_y == 0
        }
    }

    /// The position `(x, y)` lies in the box.
    pub open spec fn covers(&self, x: int, y: int) -> bool {
        self.defined && self.min_x <= x <= self.max_x && self.min_y <= y <= self.max_y
    }

    /// The box is the smallest one around `positions`: undefined where
    /// there are none, else around all of them with a position on each
    /// of its four sides.
    pub open spec fn bounds(&self, positions: Seq<(i32, i32)>) -> bool {
        &&& self.wf()
        &&& self.defined == (positions.len() > 0)
        &&& forall|k: int|
            0 <= k < positions.len() ==> self.covers(
                (#[trigger] positions[k]).0 as int,
                positions[k].1 as int,
            )
        &&& self.defined ==> {
            &&& exists|k: int| 0 <= k < positions.len() && positions[k].0 == self.min_x
            &&& exists|k: int| 0 <= k < positions.len() && positions[k].0 == self.max_x
            &&& exists|k: int| 0 <= k < positions.len() && positions[k].1 == self.min_y
            &&& exists|k: int| 0 <= k < positions.len() && positions[k].1 == self.max_y
        }
    }

    /// The undefined box.
    pub fn new() -> (b: BoundingBox)
        ensures
            !b.defined,
            b.wf(),
            b.bounds(Seq::<(i32, i32)>::empty()),
    {
        BoundingBox { defined: false, min_x: 0, min_y: 0, max_x: 0, max_y: 0 }
    }

    /// Whether a position has been added.
    pub fn is_defined(&self) -> (d: bool)
        ensures
            d == self.defined,
    {
        self.defined
    }

    /// The window that the box gives: its bounds as `(min_x, min_y, max_x,
    /// max_y)`, and for an undefined box the empty window at the origin.
    pub fn window(&self) -> (w: (i32, i32, i32, i32))
        ensures
            self.defined ==> w == (self.min_x, self.min_y, self.max_x, self.max_y),
            !self.defined ==> w == (0i32, 0i32, 0i32, 0i32),
    {
        if self.defined {
            (self.min_x, self.min_y, self.max_x, self.max_y)
        } else {
            (0, 0, 0, 0)
        }
    }

    /// Grows the box just enough to hold `(x, y)`. The first position
    /// defines the box as that single position.
    pub fn add_point(&mut self, x: i32, y: i32)
        ensures
            added(*old(self), *final(self), x, y),
    {
        if !self.defined {
            self.min_x = x;
            self.min_y = y;
            self.max_x = x;
            self.max_y = y;
            self.defined = true;
        } else {
            if x < self.min_x {
                self.min_x = x;
            }
            if y < self.min_y {
                self.min_y = y;
            }
            if x > self.max_x {
                self.max_x = x;
            }
            if y > self.max_y {
                self.max_y = y;
            }
        }
    }
}

/// A box never shrinks: what it held before a position was added it
/// holds after, and it holds the new position.
pub proof fn lemma_add_point_grows(before: BoundingBox, after: BoundingBox, x: i32, y: i32)
    requires
        added(before, after, x, y),
    ensures
        after.covers(x as int, y as int),
        forall|a: int, b: int| before.covers(a, b) ==> after.covers(a, b),
        before.wf() ==> after.wf(),
{
}

/// Adding a position to the smallest box around some positions gives the
/// smallest box around those and the new one.
pub proof fn lemma_add_point_bounds(
    before: BoundingBox,
    after: BoundingBox,
    x: i32,
    y: i32,
    positions: Seq<(i32, i32)>,
)
    requires
        added(before, after, x, y),
        before.bounds(positions),
    ensures
        after.bounds(positions.push((x, y))),
{
    let more = positions.push((x, y));
    let n = positions.len() as int;
    assert(more[n] == (x, y));
    assert forall|k: int| 0 <= k < more.len() implies after.covers(
        (#[trigger] more[k]).0 as int,
        more[k].1 as int,
    ) by {
        if k < n {
            assert(more[k] == positions[k]);
            assert(before.covers(positions[k].0 as int, positions[k].1 as int));
        }
    }
    if before.defined {
        let a = choose|k: int| 0 <= k < positions.len() && positions[k].0 == before.min_x;
        let b = choose|k: int| 0 <= k < positions.len() && positions[k].0 == before.max_x;
        let c = choose|k: int| 0 <= k < positions.len() && positions[k].1 == before.min_y;
        let d = choose|k: int| 0 <= k < positions.len() && positions[k].1 == before.max_y;
        assert(more[a] == positions[a] && more[b] == positions[b] && more[c] == positions[c]
            && more[d] == positions[d]);
        assert(more[if after.min_x == x { n } else { a }].0 == after.min_x);
        assert(more[if after.max_x == x { n } else { b }].0 == after.max_x);
        assert(more[if after.min_y == y { n } else { c }].1 == after.min_y);
        assert(more[if after.max_y == y { n } else { d }].1 == after.max_y);
    }
}

} // verus!
