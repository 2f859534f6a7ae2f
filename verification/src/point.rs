use vstd::prelude::*;

verus! {

/// Largest coordinate magnitude the solver accepts.  Coordinates are
/// fixed-point numbers: an external loader scales real-valued inputs to
/// integers before handing them to the solver, so that all geometry is exact.
pub const MAX_COORD: i64 = 1_000_000_000;

/// Largest number of points one solve accepts; keeps every distance sum
/// comfortably inside `u64`.
pub const MAX_POINTS: usize = 1_000_000;

/// A single labeled point.  `id` is the stable index used by every other
/// component; the coordinates are only read by distance computation.
#[derive(Clone, Copy, Debug)]
pub struct Point {
    pub x: i64,
    pub y: i64,
    pub id: u32,
}

/// An ordered, read-only sequence of points; its length is the problem size.
pub struct Points {
    pub points: Vec<Point>,
}

pub open spec fn point_in_range(p: Point) -> bool {
    &&& -MAX_COORD <= p.x <= MAX_COORD
    &&& -MAX_COORD <= p.y <= MAX_COORD
}

pub open spec fn points_in_range(ps: Seq<Point>) -> bool {
    forall|k: int| 0 <= k < ps.len() ==> point_in_range(#[trigger] ps[k])
}

pub open spec fn ids_contiguous(ps: Seq<Point>) -> bool {
    forall|k: int| 0 <= k < ps.len() ==> (#[trigger] ps[k].id) == k
}

/// What the solver demands of its input: at least two points, a size small
/// enough for exact arithmetic, coordinates in range, and ids that are
/// contiguous from zero.
pub open spec fn valid_point_set(ps: Seq<Point>) -> bool {
    &&& 2 <= ps.len() <= MAX_POINTS
    &&& points_in_range(ps)
    &&& ids_contiguous(ps)
}

} // verus!
