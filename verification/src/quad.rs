//! Quads: a greedy rectangle placed back into 3D space.
//!
//! A quad records the face direction, color and rectangle it came from;
//! its four corners are a function of those. The plane coordinate is
//! offset by one when the direction points toward positive coordinates,
//! because such a face sits on the far side of its unit cube. The corner
//! order differs by axis and sign so that the winding matches the outward
//! normal, which is the direction's unit step vector.

use crate::greedy::{rect_covers, Cell, Rect};
use crate::pos::{is_positive_spec, step_spec, Axis, BlockPos, Direction};
use vstd::prelude::*;

verus! {

/// One greedy-meshed face rectangle with its placement in space.
#[derive(Clone, Copy, PartialEq, Eq, Structural, Debug)]
pub struct Quad {
    pub dir: Direction,
    pub color: u32,
    pub plane: i32,
    pub rect: Rect,
}

/// Whether a quad's rectangle is nonempty and all its corners fit the
/// packed coordinate range.
pub open spec fn quad_in_bounds(q: Quad) -> bool {
    &&& crate::greedy::rect_in_bounds(q.rect)
    &&& -0x2000000 <= q.plane < 0x2000000
}

/// The cells of the quad's plane that the quad covers.
pub open spec fn quad_covers(q: Quad, c: Cell) -> bool {
    rect_covers(q.rect, c)
}

/// The plane coordinate of the quad's corners: faces of positive
/// directions sit one unit further along their axis.
pub open spec fn plane_coord(q: Quad) -> int {
    if is_positive_spec(q.dir) {
        q.plane + 1
    } else {
        q.plane as int
    }
}

/// The four corners of a quad, in winding order, as coordinate triples.
pub open spec fn corners_spec(q: Quad) -> Seq<(int, int, int)> {
    let p = plane_coord(q);
    let u = q.rect.u as int;
    let v = q.rect.v as int;
    let uw = q.rect.u + q.rect.w;
    let vh = q.rect.v + q.rect.h;
    match axis_of(q) {
        Axis::X => if is_positive_spec(q.dir) {
            seq![(p, v, u), (p, vh, u), (p, vh, uw), (p, v, uw)]
        } else {
            seq![(p, v, u), (p, v, uw), (p, vh, uw), (p, vh, u)]
        },
        Axis::Y => if is_positive_spec(q.dir) {
            seq![(u, p, v), (u, p, vh), (uw, p, vh), (uw, p, v)]
        } else {
            seq![(u, p, v), (uw, p, v), (uw, p, vh), (u, p, vh)]
        },
        Axis::Z => if is_positive_spec(q.dir) {
            seq![(u, v, p), (uw, v, p), (uw, vh, p), (u, vh, p)]
        } else {
            seq![(u, v, p), (u, vh, p), (uw, vh, p), (uw, v, p)]
        },
    }
}

/// The axis of the quad's direction.
pub open spec fn axis_of(q: Quad) -> Axis {
    crate::pos::axis_spec(q.dir)
}

impl Quad {
    /// The four corners of this quad, in winding order.
    pub fn corners(&self) -> (r: [BlockPos; 4])
        requires
            quad_in_bounds(*self),
        ensures
            r@.len() == 4,
            forall|i: int|
                0 <= i < 4 ==> ((#[trigger] r@[i]).x as int, r@[i].y as int, r@[i].z as int)
                    == corners_spec(*self)[i],
    {
        let p: i32 = if matches!(self.dir.axis_direction(), crate::pos::AxisDirection::Positive) {
            self.plane + 1
        } else {
            self.plane
        };
        let u = self.rect.u;
        let v = self.rect.v;
        let uw = self.rect.u + self.rect.w;
        let vh = self.rect.v + self.rect.h;
        let (a, b, c, d): (
            (i32, i32, i32),
            (i32, i32, i32),
            (i32, i32, i32),
            (i32, i32, i32),
        ) = match self.dir.axis() {
            Axis::X => if matches!(
                self.dir.axis_direction(),
                crate::pos::AxisDirection::Positive,
            ) {
                ((p, v, u), (p, vh, u), (p, vh, uw), (p, v, uw))
            } else {
                ((p, v, u), (p, v, uw), (p, vh, uw), (p, vh, u))
            },
            Axis::Y => if matches!(
                self.dir.axis_direction(),
                crate::pos::AxisDirection::Positive,
            ) {
                ((u, p, v), (u, p, vh), (uw, p, vh), (uw, p, v))
            } else {
                ((u, p, v), (uw, p, v), (uw, p, vh), (u, p, vh))
            },
            Axis::Z => if matches!(
                self.dir.axis_direction(),
                crate::pos::AxisDirection::Positive,
            ) {
                ((u, v, p), (uw, v, p), (uw, vh, p), (u, vh, p))
            } else {
                ((u, v, p), (u, vh, p), (uw, vh, p), (uw, v, p))
            },
        };
        [
            BlockPos { x: a.0, y: a.1, z: a.2 },
            BlockPos { x: b.0, y: b.1, z: b.2 },
            BlockPos { x: c.0, y: c.1, z: c.2 },
            BlockPos { x: d.0, y: d.1, z: d.2 },
        ]
    }

    /// The outward unit normal of this quad: the direction's step vector.
    pub fn normal(&self) -> (r: (i32, i32, i32))
        ensures
            (r.0 as int, r.1 as int, r.2 as int) == step_spec(self.dir),
    {
        self.dir.step()
    }
}

} // verus!
