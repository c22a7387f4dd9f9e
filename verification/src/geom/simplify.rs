use vstd::prelude::*;
use crate::geom::point::{Point, coord_ok, all_coords_ok, coord_bound, lemma_mul_bound};

verus! {

/// Reduction of a contour to a quadrilateral.
pub struct GeometrySimplifier;

/// Absolute value.
pub open spec fn abs(v: int) -> int {
    if v < 0 { -v } else { v }
}

/// Twice the area of the triangle `abc`.
pub open spec fn tri_area2(a: Point, b: Point, c: Point) -> int {
    abs(a.x * (b.y - c.y) + b.x * (c.y - a.y) + c.x * (a.y - b.y))
}

/// Twice the area of the triangle that vertex `i` of the closed polygon `pts`
/// forms with its two neighbours.
pub open spec fn vertex_area2(pts: Seq<Point>, i: int) -> int {
    let n = pts.len() as int;
    tri_area2(pts[(i + n - 1) % n], pts[i], pts[(i + 1) % n])
}

/// The first of the vertices `0..k` of `pts` whose triangle is smallest.
pub open spec fn least_vertex(pts: Seq<Point>, k: int) -> int
    decreases k,
{
    if k <= 1 {
        0
    } else {
        let j = least_vertex(pts, k - 1);
        if vertex_area2(pts, k - 1) < vertex_area2(pts, j) { k - 1 } else { j }
    }
}

/// Visvalingam-Whyatt reduction: while more than four vertices remain, drop
/// the first vertex whose triangle with its neighbours is smallest.
pub open spec fn vw_reduce(pts: Seq<Point>) -> Seq<Point>
    decreases pts.len(),
{
    if pts.len() <= 4 {
        pts
    } else {
        proof {
            lemma_least_vertex_range(pts, pts.len() as int);
        }
        vw_reduce(pts.remove(least_vertex(pts, pts.len() as int)))
    }
}

/// `s` with each run of equal consecutive points kept once.
pub open spec fn dedup(s: Seq<Point>) -> Seq<Point>
    decreases s.len(),
{
    if s.len() == 0 {
        s
    } else {
        let d = dedup(s.drop_last());
        if d.len() > 0 && d.last() == s.last() { d } else { d.push(s.last()) }
    }
}

/// The open polygon that simplification reduces: the contour without repeated
/// points, and without its last point when that closes the contour.
pub open spec fn open_polygon(contour: Seq<Point>) -> Seq<Point> {
    let d = dedup(contour);
    if d.len() > 0 && d[0] == d.last() { d.drop_last() } else { d }
}

/// The simplified closed quadrilateral of a contour (four vertices, the first
/// repeated at the end), or `None` when the contour has fewer than four
/// distinct vertices.
pub open spec fn simplify_spec(contour: Seq<Point>) -> Option<Seq<Point>> {
    if contour.len() < 4 || dedup(contour).len() < 4 || open_polygon(contour).len() < 4 {
        None
    } else {
        let q = vw_reduce(open_polygon(contour));
        Some(q.push(q[0]))
    }
}

/// Every point of `a` occurs in `b`.
pub open spec fn points_from(a: Seq<Point>, b: Seq<Point>) -> bool {
    forall|i: int| 0 <= i < a.len() ==> b.contains(#[trigger] a[i])
}

proof fn lemma_dedup_from(s: Seq<Point>)
    ensures
        points_from(dedup(s), s),
        dedup(s).len() <= s.len(),
        s.len() > 0 ==> dedup(s).len() > 0 && dedup(s).last() == s.last(),
    decreases s.len(),
{
    if s.len() > 0 {
        lemma_dedup_from(s.drop_last());
        let d = dedup(s.drop_last());
        assert forall|i: int| 0 <= i < dedup(s).len() implies s.contains(#[trigger] dedup(s)[i]) by {
            if i < d.len() {
                assert(s.drop_last().contains(d[i]));
                let k = choose|k: int| 0 <= k < s.drop_last().len() && s.drop_last()[k] == d[i];
                assert(s[k] == d[i]);
            } else {
                assert(s[s.len() - 1] == s.last());
            }
        }
    }
}

proof fn lemma_vw_from(pts: Seq<Point>)
    ensures
        points_from(vw_reduce(pts), pts),
        pts.len() >= 4 ==> vw_reduce(pts).len() == 4,
        pts.len() < 4 ==> vw_reduce(pts) == pts,
    decreases pts.len(),
{
    if pts.len() > 4 {
        let k = least_vertex(pts, pts.len() as int);
        lemma_least_vertex_range(pts, pts.len() as int);
        let r = pts.remove(k);
        lemma_vw_from(r);
        assert forall|i: int| 0 <= i < vw_reduce(pts).len() implies pts.contains(#[trigger] vw_reduce(pts)[i]) by {
            let v = vw_reduce(pts)[i];
            assert(r.contains(v));
            let j = choose|j: int| 0 <= j < r.len() && r[j] == v;
            if j < k {
                assert(pts[j] == v);
            } else {
                assert(pts[j + 1] == v);
            }
        }
    } else {
        assert forall|i: int| 0 <= i < pts.len() implies pts.contains(#[trigger] pts[i]) by {}
    }
}

/// The least vertex among the first `k` is one of them.
pub proof fn lemma_least_vertex_range(pts: Seq<Point>, k: int)
    requires
        k >= 1,
    ensures
        0 <= least_vertex(pts, k) < k,
    decreases k,
{
    if k > 1 {
        lemma_least_vertex_range(pts, k - 1);
    }
}

/// A point that occurs in a subsequence-like selection keeps the coordinate bound.
proof fn lemma_from_coords(a: Seq<Point>, b: Seq<Point>)
    requires
        points_from(a, b),
        all_coords_ok(b),
    ensures
        all_coords_ok(a),
{
    assert forall|i: int| 0 <= i < a.len() implies coord_ok(#[trigger] a[i]) by {
        assert(b.contains(a[i]));
        let j = choose|j: int| 0 <= j < b.len() && b[j] == a[i];
        assert(coord_ok(b[j]));
    }
}

impl GeometrySimplifier {
    /// Twice the area of the triangle `abc`, computed exactly.
    pub fn double_triangle_area(a: Point, b: Point, c: Point) -> (area2: i64)
        requires
            coord_ok(a),
            coord_ok(b),
            coord_ok(c),
        ensures
            area2 == tri_area2(a, b, c),
    {
        proof {
            lemma_mul_bound(a.x as int, (b.y - c.y) as int, coord_bound(), 2 * coord_bound());
            lemma_mul_bound(b.x as int, (c.y - a.y) as int, coord_bound(), 2 * coord_bound());
            lemma_mul_bound(c.x as int, (a.y - b.y) as int, coord_bound(), 2 * coord_bound());
        }
        let s = a.x * (b.y - c.y) + b.x * (c.y - a.y) + c.x * (a.y - b.y);
        if s < 0 { -s } else { s }
    }

    /// Reduces a contour to a closed quadrilateral: drops repeated consecutive
    /// points and a closing point, then removes, one at a time, the vertex
    /// whose triangle with its neighbours is smallest (the first such vertex on
    /// ties) until four remain; returns the four vertices with the first
    /// repeated at the end, and `true` for a closed polygon.
    pub fn simplify_to_quad(contour: &[Point]) -> (res: Option<(Vec<Point>, bool)>)
        requires
            all_coords_ok(contour@),
        ensures
            res is Some <==> simplify_spec(contour@) is Some,
            res matches Some((q, closed)) ==> closed && simplify_spec(contour@) == Some(q@),
    {
        if contour.len() < 4 {
            return None;
        }
        let mut pts: Vec<Point> = Vec::new();
        let mut i: usize = 0;
        while i < contour.len()
            invariant
                i <= contour@.len(),
                pts@ == dedup(contour@.take(i as int)),
            decreases contour@.len() - i,
        {
            let v = contour[i];
            assert(contour@.take(i + 1).drop_last() =~= contour@.take(i as int));
            assert(contour@.take(i + 1).last() == v);
            if pts.len() == 0 || pts[pts.len() - 1] != v {
                pts.push(v);
            }
            i += 1;
        }
        assert(contour@.take(contour@.len() as int) =~= contour@);
        proof {
            lemma_dedup_from(contour@);
            lemma_from_coords(pts@, contour@);
        }
        if pts.len() < 4 {
            return None;
        }
        if pts[0] == pts[pts.len() - 1] {
            pts.pop();
        }
        assert(pts@ == open_polygon(contour@));
        proof {
            assert(points_from(pts@, dedup(contour@)));
            lemma_from_coords(pts@, dedup(contour@));
        }
        if pts.len() < 4 {
            return None;
        }
        let ghost start = pts@;
        while pts.len() > 4
            invariant
                vw_reduce(start) == vw_reduce(pts@),
                all_coords_ok(pts@),
                pts@.len() >= 4,
            decreases pts@.len(),
        {
            let n = pts.len();
            let mut min_idx: usize = 0;
            proof {
                vstd::arithmetic::div_mod::lemma_fundamental_div_mod_converse(n - 1, n as int, 0, n - 1);
                vstd::arithmetic::div_mod::lemma_fundamental_div_mod_converse(1, n as int, 0, 1);
            }
            let mut min_area = Self::double_triangle_area(pts[n - 1], pts[0], pts[1]);
            let mut i: usize = 1;
            while i < n
                invariant
                    n == pts@.len(),
                    n > 4,
                    all_coords_ok(pts@),
                    1 <= i <= n,
                    min_idx == least_vertex(pts@, i as int),
                    min_area == vertex_area2(pts@, min_idx as int),
                decreases n - i,
            {
                proof {
                    vstd::arithmetic::div_mod::lemma_fundamental_div_mod_converse(
                        i + n - 1, n as int, 1, i - 1);
                }
                let prev = pts[i - 1];
                let curr = pts[i];
                let next = pts[(i + 1) % n];
                let area = Self::double_triangle_area(prev, curr, next);
                if area < min_area {
                    min_area = area;
                    min_idx = i;
                }
                i += 1;
            }
            proof {
                lemma_least_vertex_range(pts@, n as int);
                let r = pts@.remove(min_idx as int);
                assert forall|k: int| 0 <= k < r.len() implies coord_ok(#[trigger] r[k]) by {
                    if k < min_idx {
                        assert(r[k] == pts@[k]);
                    } else {
                        assert(r[k] == pts@[k + 1]);
                    }
                }
            }
            pts.remove(min_idx);
        }
        let first = pts[0];
        pts.push(first);
        Some((pts, true))
    }
}

} // verus!
verus! {

/// A simplified contour is a closed quadrilateral: five points, the last
/// repeating the first, each of them a point of the contour.
pub proof fn lemma_simplify_shape(contour: Seq<Point>)
    ensures
        simplify_spec(contour) matches Some(q) ==> {
            &&& q.len() == 5
            &&& q[4] == q[0]
            &&& points_from(q, contour)
        },
{
    if let Some(q) = simplify_spec(contour) {
        let d = dedup(contour);
        let o = open_polygon(contour);
        lemma_dedup_from(contour);
        lemma_vw_from(o);
        let v = vw_reduce(o);
        assert forall|i: int| 0 <= i < q.len() implies contour.contains(#[trigger] q[i]) by {
            let p = if i < 4 { v[i] } else { v[0] };
            assert(q[i] == p);
            let k = if i < 4 { i } else { 0 };
            assert(o.contains(v[k]));
            let j = choose|j: int| 0 <= j < o.len() && o[j] == v[k];
            assert(d[j] == o[j]);
            assert(d.contains(d[j]));
            assert(contour.contains(d[j]));
        }
    }
}

/// Of the first `k` vertices, the chosen one has a triangle no larger than any
/// of theirs, and every vertex before it has a strictly larger one.
proof fn lemma_least_vertex_min(pts: Seq<Point>, k: int)
    requires
        k >= 1,
    ensures
        0 <= least_vertex(pts, k) < k,
        forall|j: int| 0 <= j < k ==> vertex_area2(pts, least_vertex(pts, k)) <= #[trigger] vertex_area2(pts, j),
        forall|j: int| 0 <= j < least_vertex(pts, k) ==> vertex_area2(pts, least_vertex(pts, k))
            < #[trigger] vertex_area2(pts, j),
    decreases k,
{
    if k > 1 {
        lemma_least_vertex_min(pts, k - 1);
    }
}

/// One step of the Visvalingam-Whyatt reduction of a polygon of more than
/// four vertices drops a vertex whose triangle with its two neighbours (taken
/// cyclically, so the first vertex competes like any other) is no larger than
/// that of any vertex of the polygon, the first such vertex on ties; the
/// reduction then goes on from what remains.
pub proof fn lemma_vw_drops_smallest_triangle(pts: Seq<Point>)
    requires
        pts.len() > 4,
    ensures
        ({
            let m = least_vertex(pts, pts.len() as int);
            &&& 0 <= m < pts.len()
            &&& forall|j: int| 0 <= j < pts.len() ==> vertex_area2(pts, m) <= #[trigger] vertex_area2(pts, j)
            &&& forall|j: int| 0 <= j < m ==> vertex_area2(pts, m) < #[trigger] vertex_area2(pts, j)
            &&& vw_reduce(pts) == vw_reduce(pts.remove(m))
        }),
{
    lemma_least_vertex_min(pts, pts.len() as int);
}

} // verus!
