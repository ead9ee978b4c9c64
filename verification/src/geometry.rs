//! The plane geometry of the quadtree: coordinates, the quadrant rule that
//! routes a point past a node's center, and the layout of child centers
//! produced by a subdivision.

use vstd::prelude::*;

verus! {

/// A point of the plane, as a pair of fixed-point coordinates.
///
/// Callers pick the scale: a coordinate is an integer number of whatever
/// unit the region widths are measured in.
pub type Point = (i64, i64);

/// The quadrant of `p` relative to the center `c`: 0 is lower-left,
/// 1 lower-right, 2 upper-left, 3 upper-right. A coordinate equal to the
/// center's routes to the upper/right side.
pub open spec fn spec_quadrant(c: Point, p: Point) -> int {
    if p.0 < c.0 && p.1 < c.1 {
        0
    } else if p.0 >= c.0 && p.1 < c.1 {
        1
    } else if p.0 < c.0 {
        2
    } else {
        3
    }
}

/// The center of the `q`-th child of a node centered at `c`, when the child
/// centers are offset by `dx` horizontally and `dy` vertically: quadrant `q`
/// of the parent region is covered by the child laid out on that side.
pub open spec fn spec_child_center(c: Point, dx: int, dy: int, q: int) -> (int, int) {
    (
        if q % 2 == 0 {
            c.0 - dx
        } else {
            c.0 + dx
        },
        if q < 2 {
            c.1 - dy
        } else {
            c.1 + dy
        },
    )
}

/// Selects the entries whose point the quadrant rule sends to quadrant `q`
/// of a node centered at `c`.
pub open spec fn quadrant_pred<T>(c: Point, q: int) -> spec_fn((Point, T)) -> bool {
    |ent: (Point, T)| spec_quadrant(c, ent.0) == q
}

/// Classifies `p` against the center `c` by the quadrant rule.
pub fn quadrant(c: Point, p: Point) -> (q: usize)
    ensures
        q == spec_quadrant(c, p),
{
    match (p.0 < c.0, p.1 < c.1) {
        (true, true) => 0,
        (false, true) => 1,
        (true, false) => 2,
        (false, false) => 3,
    }
}

} // verus!
