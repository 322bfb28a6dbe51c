//! The drawing of a ranked problem: a unit box at each point, on the
//! point's first two objectives, and over the boxes a label at each point.

use vstd::prelude::*;
use crate::bbox::BoundingBox;
use crate::bbox::lemma_add_point_bounds;
use crate::label::label;
use crate::label::label_text;
use crate::point::ParetoPoint;
use crate::problem::ParetoProblem;

verus! {

/// Something to draw: a box from corner `(x0, y0)` to corner `(x1, y1)`,
/// or a text with its lower left end at `(x, y)`.
#[derive(Debug, PartialEq, Eq)]
pub enum Primitive {
    Box { x0: i64, y0: i64, x1: i64, y1: i64 },
    Text { x: i64, y: i64, label: String },
}

/// A primitive as a mathematical value.
pub enum Shape {
    Box { x0: int, y0: int, x1: int, y1: int },
    Text { x: int, y: int, label: Seq<char> },
}

impl View for Primitive {
    type V = Shape;

    open spec fn view(&self) -> Shape {
        match *self {
            Primitive::Box { x0, y0, x1, y1 } => Shape::Box {
                x0: x0 as int,
                y0: y0 as int,
                x1: x1 as int,
                y1: y1 as int,
            },
            Primitive::Text { x, y, label } => Shape::Text {
                x: x as int,
                y: y as int,
                label: label@,
            },
        }
    }
}

/// The primitives of a drawing, in the order in which they are painted,
/// and the smallest box around the points drawn.
pub struct Scene {
    pub primitives: Vec<Primitive>,
    pub bounds: BoundingBox,
}

/// The box of a point: one unit wide and high, its lower left corner on
/// the point's first two objectives.
pub open spec fn box_of(p: ParetoPoint) -> Shape {
    Shape::Box {
        x0: p.v@[0] as int,
        y0: p.v@[1] as int,
        x1: p.v@[0] + 1,
        y1: p.v@[1] + 1,
    }
}

/// The label of a point, at the same corner as its box.
pub open spec fn text_of(p: ParetoPoint) -> Shape {
    Shape::Text {
        x: p.v@[0] as int,
        y: p.v@[1] as int,
        label: label_text(p.tag as int, p.rank as int),
    }
}

/// The drawing of `points`: the boxes of all points in their order, then
/// the labels of all points in their order, so that no box hides a label.
pub open spec fn scene_of(points: Seq<ParetoPoint>) -> Seq<Shape> {
    Seq::new(
        2 * points.len(),
        |k: int|
            if k < points.len() {
                box_of(points[k])
            } else {
                text_of(points[k - points.len()])
            },
    )
}

/// The positions at which `points` are drawn.
pub open spec fn anchors(points: Seq<ParetoPoint>) -> Seq<(i32, i32)> {
    Seq::new(points.len(), |i: int| (points[i].v@[0], points[i].v@[1]))
}

/// The primitives as mathematical values, in order.
pub open spec fn shapes(primitives: Seq<Primitive>) -> Seq<Shape> {
    Seq::new(primitives.len(), |k: int| primitives[k]@)
}

impl ParetoProblem {
    /// Every point has the two objectives on which it is drawn.
    pub open spec fn drawable(&self) -> bool {
        forall|i: int| 0 <= i < self.points@.len() ==> (#[trigger] self.points@[i]).v@.len() >= 2
    }

    /// Decides whether the problem can be drawn.
    pub fn is_drawable(&self) -> (ok: bool)
        ensures
            ok == self.drawable(),
    {
        let mut i: usize = 0;
        while i < self.points.len()
            invariant
                i <= self.points@.len(),
                forall|k: int| 0 <= k < i ==> (#[trigger] self.points@[k]).v@.len() >= 2,
            decreases self.points@.len() - i,
        {
            if self.points[i].v.len() < 2 {
                return false;
            }
            i += 1;
        }
        true
    }

    /// Lays the problem out for a PostScript page: what to draw, in
    /// painting order, and the bounding box of the points. Objectives
    /// beyond the second are not drawn.
    pub fn generate_ps(&self) -> (scene: Scene)
        requires
            self.drawable(),
        ensures
            shapes(scene.primitives@) == scene_of(self.points@),
            scene.bounds.bounds(anchors(self.points@)),
    {
        let n: usize = self.points.len();
        let mut bounds = BoundingBox::new();
        let mut primitives: Vec<Primitive> = Vec::new();
        let mut i: usize = 0;
        while i < n
            invariant
                i <= n,
                n == self.points@.len(),
                self.drawable(),
                primitives@.len() == i,
                forall|k: int| 0 <= k < i ==> (#[trigger] primitives@[k])@ == box_of(self.points@[k]),
                bounds.bounds(anchors(self.points@).subrange(0, i as int)),
            decreases n - i,
        {
            let p = &self.points[i];
            let x: i32 = p.v[0];
            let y: i32 = p.v[1];
            let ghost before = bounds;
            bounds.add_point(x, y);
            proof {
                lemma_add_point_bounds(
                    before,
                    bounds,
                    x,
                    y,
                    anchors(self.points@).subrange(0, i as int),
                );
                assert(anchors(self.points@).subrange(0, i as int).push((x, y)) =~= anchors(
                    self.points@,
                ).subrange(0, i as int + 1));
            }
            primitives.push(
                Primitive::Box { x0: x as i64, y0: y as i64, x1: x as i64 + 1, y1: y as i64 + 1 },
            );
            i += 1;
        }
        proof {
            assert(anchors(self.points@).subrange(0, n as int) =~= anchors(self.points@));
        }
        let mut j: usize = 0;
        while j < n
            invariant
                j <= n,
                n == self.points@.len(),
                self.drawable(),
                primitives@.len() == n + j,
                forall|k: int| 0 <= k < n ==> (#[trigger] primitives@[k])@ == box_of(self.points@[k]),
                forall|k: int|
                    0 <= k < j ==> (#[trigger] primitives@[n + k])@ == text_of(self.points@[k]),
                bounds.bounds(anchors(self.points@)),
            decreases n - j,
        {
            let p = &self.points[j];
            let text = label(p.tag, p.rank);
            primitives.push(Primitive::Text { x: p.v[0] as i64, y: p.v[1] as i64, label: text });
            j += 1;
        }
        proof {
            assert forall|k: int| 0 <= k < 2 * n implies shapes(primitives@)[k] == scene_of(
                self.points@,
            )[k] by {
                if k >= n {
                    assert(primitives@[n + (k - n)]@ == text_of(self.points@[k - n]));
                }
            }
            assert(shapes(primitives@) =~= scene_of(self.points@));
        }
        Scene { primitives, bounds }
    }
}

} // verus!
