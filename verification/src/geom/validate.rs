use vstd::prelude::*;
use crate::geom::point::{Point, coord_ok, all_coords_ok, coord_bound, lemma_mul_bound};
use crate::geom::simplify::abs;

verus! {

/// Checks of simplified quadrilaterals.
pub struct GeometryValidator;

/// The turn at `p1` on the path `p0 -> p1 -> p2`: the cross product of
/// `p1 - p0` and `p2 - p1` (zero when the three points are collinear).
pub open spec fn turn(p0: Point, p1: Point, p2: Point) -> int {
    (p1.x - p0.x) * (p2.y - p1.y) - (p1.y - p0.y) * (p2.x - p1.x)
}

/// The cross product term of the shoelace formula for the edge `a -> b`.
pub open spec fn shoelace_term(a: Point, b: Point) -> int {
    a.x * b.y - b.x * a.y
}

/// Twice the signed area of the quadrilateral `q[0], q[1], q[2], q[3]`.
pub open spec fn shoelace2(q: Seq<Point>) -> int {
    shoelace_term(q[0], q[1]) + shoelace_term(q[1], q[2]) + shoelace_term(q[2], q[3])
        + shoelace_term(q[3], q[0])
}

/// The four turns of the quadrilateral `q` are all non-zero and of one sign:
/// `q` is convex and not degenerate.
pub open spec fn strictly_convex(q: Seq<Point>) -> bool {
    let t0 = turn(q[0], q[1], q[2]);
    let t1 = turn(q[1], q[2], q[3]);
    let t2 = turn(q[2], q[3], q[0]);
    let t3 = turn(q[3], q[0], q[1]);
    (t0 > 0 && t1 > 0 && t2 > 0 && t3 > 0) || (t0 < 0 && t1 < 0 && t2 < 0 && t3 < 0)
}

/// The verdict on a simplified polygon: for a closed polygon of five points
/// (the last repeating the first) whose quadrilateral is strictly convex,
/// twice its area and its four vertices; `None` otherwise.
pub open spec fn validate_spec(pts: Seq<Point>, closed: bool) -> Option<(int, Seq<Point>)> {
    if !closed || pts.len() != 5 {
        None
    } else {
        let q = pts.take(4);
        if strictly_convex(q) { Some((abs(shoelace2(q)), q)) } else { None }
    }
}

proof fn lemma_turn_bound(p0: Point, p1: Point, p2: Point)
    requires
        coord_ok(p0),
        coord_ok(p1),
        coord_ok(p2),
    ensures
        -4503599627370496 <= (p1.x - p0.x) * (p2.y - p1.y) <= 4503599627370496,
        -4503599627370496 <= (p1.y - p0.y) * (p2.x - p1.x) <= 4503599627370496,
{
    lemma_mul_bound((p1.x - p0.x) as int, (p2.y - p1.y) as int, 33554432, 33554432);
    lemma_mul_bound((p1.y - p0.y) as int, (p2.x - p1.x) as int, 33554432, 33554432);
}

impl GeometryValidator {
    /// The turn at `p1` on the path `p0 -> p1 -> p2`, computed exactly.
    pub fn cross_product(p0: Point, p1: Point, p2: Point) -> (c: i64)
        requires
            coord_ok(p0),
            coord_ok(p1),
            coord_ok(p2),
        ensures
            c == turn(p0, p1, p2),
    {
        proof {
            lemma_turn_bound(p0, p1, p2);
        }
        (p1.x - p0.x) * (p2.y - p1.y) - (p1.y - p0.y) * (p2.x - p1.x)
    }

    /// Twice the area of the quadrilateral `pts`, by the shoelace formula.
    pub fn polygon_area(pts: &[Point; 4]) -> (area2: u64)
        requires
            all_coords_ok(pts@),
        ensures
            area2 == abs(shoelace2(pts@)),
    {
        let mut sum: i64 = 0;
        let mut i: usize = 0;
        let ghost q = pts@;
        proof {
            assert(coord_ok(q[0]) && coord_ok(q[1]) && coord_ok(q[2]) && coord_ok(q[3]));
        }
        while i < 4
            invariant
                q == pts@,
                q.len() == 4,
                all_coords_ok(q),
                0 <= i <= 4,
                sum == (if i >= 1 { shoelace_term(q[0], q[1]) } else { 0 })
                    + (if i >= 2 { shoelace_term(q[1], q[2]) } else { 0 })
                    + (if i >= 3 { shoelace_term(q[2], q[3]) } else { 0 })
                    + (if i >= 4 { shoelace_term(q[3], q[0]) } else { 0 }),
                -i * 562949953421312 <= sum <= i * 562949953421312,
            decreases 4 - i,
        {
            let j = (i + 1) % 4;
            let a = pts[i];
            let b = pts[j];
            proof {
                assert(coord_ok(a) && coord_ok(b));
                lemma_mul_bound(a.x as int, b.y as int, coord_bound(), coord_bound());
                lemma_mul_bound(b.x as int, a.y as int, coord_bound(), coord_bound());
            }
            sum = sum + (a.x * b.y - b.x * a.y);
            i += 1;
        }
        if sum < 0 { (-sum) as u64 } else { sum as u64 }
    }

    /// Accepts a closed five-point polygon whose quadrilateral is strictly
    /// convex (no collinear corner, all turns of one sign); returns twice its
    /// area and its four vertices.
    pub fn validate_and_score(simplified: &(Vec<Point>, bool)) -> (res: Option<(u64, [Point; 4])>)
        requires
            all_coords_ok(simplified.0@),
        ensures
            res is Some <==> validate_spec(simplified.0@, simplified.1) is Some,
            res matches Some((area2, q)) ==> validate_spec(simplified.0@, simplified.1)
                == Some((area2 as int, q@)),
    {
        let pts = &simplified.0;
        let is_closed = simplified.1;
        if !is_closed || pts.len() != 5 {
            return None;
        }
        let p = [pts[0], pts[1], pts[2], pts[3]];
        assert(p@ =~= pts@.take(4));
        proof {
            assert(coord_ok(p@[0]) && coord_ok(p@[1]) && coord_ok(p@[2]) && coord_ok(p@[3]));
        }
        let c0 = Self::cross_product(p[0], p[1], p[2]);
        let c1 = Self::cross_product(p[1], p[2], p[3]);
        let c2 = Self::cross_product(p[2], p[3], p[0]);
        let c3 = Self::cross_product(p[3], p[0], p[1]);
        if c0 == 0 || c1 == 0 || c2 == 0 || c3 == 0 {
            return None;
        }
        let positive = (c0 > 0) as u8 + (c1 > 0) as u8 + (c2 > 0) as u8 + (c3 > 0) as u8;
        if positive != 0 && positive != 4 {
            return None;
        }
        let area2 = Self::polygon_area(&p);
        Some((area2, p))
    }
}

/// The shoelace sum of a quadrilateral splits into the turns at two opposite corners.
proof fn lemma_shoelace_split(ax: int, ay: int, bx: int, by: int, cx: int, cy: int, dx: int, dy: int)
    ensures
        (ax * by - bx * ay) + (bx * cy - cx * by) + (cx * dy - dx * cy) + (dx * ay - ax * dy)
            == ((bx - ax) * (cy - by) - (by - ay) * (cx - bx)) + ((dx - cx) * (ay - dy) - (dy - cy) * (ax - dx)),
{
    assert((bx - ax) * (cy - by) == bx * cy - bx * by - ax * cy + ax * by) by (nonlinear_arith);
    assert((by - ay) * (cx - bx) == by * cx - by * bx - ay * cx + ay * bx) by (nonlinear_arith);
    assert((dx - cx) * (ay - dy) == dx * ay - dx * dy - cx * ay + cx * dy) by (nonlinear_arith);
    assert((dy - cy) * (ax - dx) == dy * ax - dy * dx - cy * ax + cy * dx) by (nonlinear_arith);
    assert(bx * by == by * bx && dx * dy == dy * dx && ax * cy == cy * ax && cx * ay == ay * cx
        && by * cx == cx * by && ay * bx == bx * ay && dy * ax == ax * dy && cy * dx == dx * cy) by (nonlinear_arith);
}

/// An accepted quadrilateral has positive area, and twice its area is the sum
/// of the sizes of the turns at two opposite corners.
pub proof fn lemma_accepted_area(pts: Seq<Point>, closed: bool)
    ensures
        validate_spec(pts, closed) matches Some((area2, q)) ==> {
            &&& q.len() == 4
            &&& area2 > 0
            &&& area2 == abs(turn(q[0], q[1], q[2])) + abs(turn(q[2], q[3], q[0]))
        },
{
    if let Some((area2, q)) = validate_spec(pts, closed) {
        let a = q[0];
        let b = q[1];
        let c = q[2];
        let d = q[3];
        lemma_shoelace_split(a.x as int, a.y as int, b.x as int, b.y as int, c.x as int, c.y as int,
            d.x as int, d.y as int);
    }
}

/// Twice the area of a quadrilateral within the coordinate bound is at most `2^51`.
pub proof fn lemma_accepted_area_bound(q: Seq<Point>)
    requires
        q.len() == 4,
        all_coords_ok(q),
    ensures
        abs(shoelace2(q)) <= 4 * 562949953421312,
{
    assert(coord_ok(q[0]) && coord_ok(q[1]) && coord_ok(q[2]) && coord_ok(q[3]));
    lemma_mul_bound(q[0].x as int, q[1].y as int, coord_bound(), coord_bound());
    lemma_mul_bound(q[1].x as int, q[0].y as int, coord_bound(), coord_bound());
    lemma_mul_bound(q[1].x as int, q[2].y as int, coord_bound(), coord_bound());
    lemma_mul_bound(q[2].x as int, q[1].y as int, coord_bound(), coord_bound());
    lemma_mul_bound(q[2].x as int, q[3].y as int, coord_bound(), coord_bound());
    lemma_mul_bound(q[3].x as int, q[2].y as int, coord_bound(), coord_bound());
    lemma_mul_bound(q[3].x as int, q[0].y as int, coord_bound(), coord_bound());
    lemma_mul_bound(q[0].x as int, q[3].y as int, coord_bound(), coord_bound());
}

} // verus!
