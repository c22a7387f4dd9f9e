use vstd::prelude::*;

verus! {

/// A point of the image plane with integer pixel coordinates (`y` grows downwards).
#[derive(Clone, Copy, Debug, PartialEq, Eq, Structural)]
pub struct Point {
    pub x: i64,
    pub y: i64,
}

/// Bound on the coordinates that the geometry computes with; products of
/// coordinate differences then stay far inside `i64`.
pub open spec fn coord_bound() -> int {
    16777216
}

/// Both coordinates of `p` lie within the coordinate bound.
pub open spec fn coord_ok(p: Point) -> bool {
    -coord_bound() <= p.x <= coord_bound() && -coord_bound() <= p.y <= coord_bound()
}

/// All points of `s` lie within the coordinate bound.
pub open spec fn all_coords_ok(s: Seq<Point>) -> bool {
    forall|i: int| 0 <= i < s.len() ==> coord_ok(#[trigger] s[i])
}

/// A product of two values bounded by `a` and `b` in absolute value is bounded by `a * b`.
pub proof fn lemma_mul_bound(u: int, v: int, a: int, b: int)
    requires
        -a <= u <= a,
        -b <= v <= b,
    ensures
        -(a * b) <= u * v <= a * b,
{
    assert(-(a * b) <= u * v <= a * b) by (nonlinear_arith)
        requires -a <= u <= a, -b <= v <= b;
}

impl Point {
    /// Creates a point.
    pub fn new(x: i64, y: i64) -> (p: Point)
        ensures
            p.x == x,
            p.y == y,
    {
        Point { x, y }
    }
}

} // verus!
