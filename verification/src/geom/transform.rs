use vstd::prelude::*;
use crate::geom::point::{Point, coord_ok, all_coords_ok, lemma_mul_bound};
use crate::geom::validate::turn;

verus! {

/// Vertex ordering of quadrilaterals.
pub struct Transformer;

/// The sum of the `x` coordinates of `pts`.
pub open spec fn sum_x(pts: Seq<Point>) -> int
    decreases pts.len(),
{
    if pts.len() == 0 { 0 } else { sum_x(pts.drop_last()) + pts.last().x }
}

/// The sum of the `y` coordinates of `pts`.
pub open spec fn sum_y(pts: Seq<Point>) -> int
    decreases pts.len(),
{
    if pts.len() == 0 { 0 } else { sum_y(pts.drop_last()) + pts.last().y }
}

/// The offset of `p` from the centroid of four points whose coordinate sums
/// are `sx` and `sy`, scaled by four so that it stays integral.
pub open spec fn rel(p: Point, sx: int, sy: int) -> (int, int) {
    (4 * p.x - sx, 4 * p.y - sy)
}

/// Which part of the angle range `(-pi, pi]` (as `atan2(dy, dx)` gives it)
/// the direction `v` falls in: 0 for angles in `(-pi, 0)`, 1 for angle 0
/// (the zero offset included), 2 for `(0, pi)`, 3 for `pi`.
pub open spec fn half(v: (int, int)) -> int {
    if v.1 < 0 {
        0
    } else if v.1 == 0 && v.0 >= 0 {
        1
    } else if v.1 > 0 {
        2
    } else {
        3
    }
}

/// The direction `a` has a strictly smaller angle `atan2(a.1, a.0)` than `b`.
pub open spec fn angle_less(a: (int, int), b: (int, int)) -> bool {
    half(a) < half(b) || (half(a) == half(b) && (half(a) == 0 || half(a) == 2) && a.0 * b.1 - a.1 * b.0 > 0)
}

/// `p` comes strictly before `q` in the angular order around the centroid.
pub open spec fn before(p: Point, q: Point, sx: int, sy: int) -> bool {
    angle_less(rel(p, sx, sy), rel(q, sx, sy))
}

/// `p` inserted into `s` after every element that does not come strictly after it.
pub open spec fn insert_by_angle(s: Seq<Point>, p: Point, sx: int, sy: int) -> Seq<Point>
    decreases s.len(),
{
    if s.len() == 0 {
        seq![p]
    } else if before(p, s.last(), sx, sy) {
        insert_by_angle(s.drop_last(), p, sx, sy).push(s.last())
    } else {
        s.push(p)
    }
}

/// The stable sort of `s` by angle around the centroid.
pub open spec fn sort_by_angle(s: Seq<Point>, sx: int, sy: int) -> Seq<Point>
    decreases s.len(),
{
    if s.len() == 0 {
        s
    } else {
        insert_by_angle(sort_by_angle(s.drop_last(), sx, sy), s.last(), sx, sy)
    }
}

/// The first of the points `0..k` of `s` whose `x + y` is least.
pub open spec fn first_min_sum(s: Seq<Point>, k: int) -> int
    decreases k,
{
    if k <= 1 {
        0
    } else {
        let j = first_min_sum(s, k - 1);
        if s[k - 1].x + s[k - 1].y < s[j].x + s[j].y { k - 1 } else { j }
    }
}

/// The four points sorted by angle around their centroid (clockwise in image
/// coordinates), then rotated so that the first point of least `x + y` (the
/// top-left corner) comes first.
pub open spec fn sort_points_spec(pts: Seq<Point>) -> Seq<Point> {
    let s = sort_by_angle(pts, sum_x(pts), sum_y(pts));
    let t = first_min_sum(s, 4);
    Seq::new(4, |i: int| s[(i + t) % 4])
}

proof fn lemma_first_min_range(s: Seq<Point>, k: int)
    requires
        k >= 1,
    ensures
        0 <= first_min_sum(s, k) < k,
    decreases k,
{
    if k > 1 {
        lemma_first_min_range(s, k - 1);
    }
}

proof fn lemma_insert_len(s: Seq<Point>, p: Point, sx: int, sy: int)
    ensures
        insert_by_angle(s, p, sx, sy).len() == s.len() + 1,
        insert_by_angle(s, p, sx, sy).to_multiset() == s.to_multiset().insert(p),
    decreases s.len(),
{
    broadcast use vstd::seq_lib::group_to_multiset_ensures;
    if s.len() > 0 {
        lemma_insert_len(s.drop_last(), p, sx, sy);
        assert(s.drop_last().push(s.last()) =~= s);
        if before(p, s.last(), sx, sy) {
            assert(insert_by_angle(s, p, sx, sy).to_multiset()
                =~= s.drop_last().to_multiset().insert(p).insert(s.last()));
            assert(s.to_multiset() =~= s.drop_last().to_multiset().insert(s.last()));
        }
    } else {
        assert(seq![p] =~= Seq::<Point>::empty().push(p));
    }
}

proof fn lemma_sort_len(s: Seq<Point>, sx: int, sy: int)
    ensures
        sort_by_angle(s, sx, sy).len() == s.len(),
        sort_by_angle(s, sx, sy).to_multiset() == s.to_multiset(),
    decreases s.len(),
{
    broadcast use vstd::seq_lib::group_to_multiset_ensures;
    if s.len() > 0 {
        lemma_sort_len(s.drop_last(), sx, sy);
        lemma_insert_len(sort_by_angle(s.drop_last(), sx, sy), s.last(), sx, sy);
        assert(s.drop_last().push(s.last()) =~= s);
    }
}

/// Whether `p` comes strictly before `q` in the angular order around the centroid.
fn angle_before(p: Point, q: Point, sx: i64, sy: i64) -> (b: bool)
    requires
        coord_ok(p),
        coord_ok(q),
        -67108864 <= sx <= 67108864,
        -67108864 <= sy <= 67108864,
    ensures
        b == before(p, q, sx as int, sy as int),
{
    let ax = 4 * p.x - sx;
    let ay = 4 * p.y - sy;
    let bx = 4 * q.x - sx;
    let by = 4 * q.y - sy;
    let ha: u8 = if ay < 0 { 0 } else if ay == 0 && ax >= 0 { 1 } else if ay > 0 { 2 } else { 3 };
    let hb: u8 = if by < 0 { 0 } else if by == 0 && bx >= 0 { 1 } else if by > 0 { 2 } else { 3 };
    if ha < hb {
        true
    } else if ha == hb && (ha == 0 || ha == 2) {
        proof {
            lemma_mul_bound(ax as int, by as int, 134217728, 134217728);
            lemma_mul_bound(ay as int, bx as int, 134217728, 134217728);
        }
        ax * by - ay * bx > 0
    } else {
        false
    }
}

impl Transformer {
    /// Orders the four corners of a quadrilateral as top-left, top-right,
    /// bottom-right, bottom-left: a stable sort by the angle of each corner
    /// around the centroid (clockwise in image coordinates, starting from the
    /// angle just above `-pi`), then a rotation that brings the first corner
    /// of least `x + y` to the front.
    pub fn sort_points(pts: [Point; 4]) -> (sorted: [Point; 4])
        requires
            all_coords_ok(pts@),
        ensures
            sorted@ == sort_points_spec(pts@),
    {
        let ghost p = pts@;
        proof {
            assert(coord_ok(p[0]) && coord_ok(p[1]) && coord_ok(p[2]) && coord_ok(p[3]));
        }
        let sx = pts[0].x + pts[1].x + pts[2].x + pts[3].x;
        let sy = pts[0].y + pts[1].y + pts[2].y + pts[3].y;
        proof {
            assert(p.take(0) =~= Seq::<Point>::empty());
            lemma_sums_of_four(p);
        }
        let mut sorted: Vec<Point> = Vec::new();
        let mut i: usize = 0;
        while i < 4
            invariant
                0 <= i <= 4,
                p == pts@,
                all_coords_ok(p),
                sx == sum_x(p),
                sy == sum_y(p),
                -67108864 <= sx <= 67108864,
                -67108864 <= sy <= 67108864,
                sorted@ == sort_by_angle(p.take(i as int), sx as int, sy as int),
                all_coords_ok(sorted@),
            decreases 4 - i,
        {
            proof {
                assert(p.take(i + 1).drop_last() =~= p.take(i as int));
                assert(p.take(i + 1).last() == p[i as int]);
                assert(coord_ok(p[i as int]));
            }
            insert_by_angle_into(&mut sorted, pts[i], sx, sy);
            i += 1;
        }
        proof {
            assert(p.take(4) =~= p);
            lemma_sort_len(p, sx as int, sy as int);
        }
        let ghost s = sorted@;
        let mut t: usize = 0;
        let mut j: usize = 1;
        while j < 4
            invariant
                1 <= j <= 4,
                s == sorted@,
                s.len() == 4,
                all_coords_ok(s),
                t == first_min_sum(s, j as int),
            decreases 4 - j,
        {
            proof {
                lemma_first_min_range(s, j as int);
                assert(coord_ok(s[j as int]) && coord_ok(s[t as int]));
            }
            if sorted[j].x + sorted[j].y < sorted[t].x + sorted[t].y {
                t = j;
            }
            j += 1;
        }
        proof {
            lemma_first_min_range(s, 4);
        }
        let out = [sorted[t], sorted[(t + 1) % 4], sorted[(t + 2) % 4], sorted[(t + 3) % 4]];
        assert(out@ =~= sort_points_spec(p));
        out
    }
}

/// Inserts `p` into `s` after every point that does not come strictly after it.
fn insert_by_angle_into(s: &mut Vec<Point>, p: Point, sx: i64, sy: i64)
    requires
        all_coords_ok(old(s)@),
        coord_ok(p),
        -67108864 <= sx <= 67108864,
        -67108864 <= sy <= 67108864,
    ensures
        final(s)@ == insert_by_angle(old(s)@, p, sx as int, sy as int),
        all_coords_ok(final(s)@),
    decreases old(s)@.len(),
{
    if s.len() == 0 {
        s.push(p);
        assert(s@ =~= seq![p]);
    } else {
        let last = s[s.len() - 1];
        proof {
            assert(coord_ok(old(s)@[old(s)@.len() - 1]));
        }
        if angle_before(p, last, sx, sy) {
            let ghost before_pop = s@;
            let l = s.pop().unwrap();
            proof {
                assert(s@ =~= before_pop.drop_last());
                assert(all_coords_ok(s@)) by {
                    assert forall|m: int| 0 <= m < s@.len() implies coord_ok(#[trigger] s@[m]) by {
                        assert(s@[m] == before_pop[m]);
                    }
                }
            }
            insert_by_angle_into(s, p, sx, sy);
            s.push(l);
        } else {
            s.push(p);
        }
    }
}

/// No element of `s` comes strictly before its predecessor in the angular order.
pub open spec fn angle_sorted(s: Seq<Point>, sx: int, sy: int) -> bool {
    forall|i: int| 0 <= i < s.len() - 1 ==> !before(#[trigger] s[i + 1], s[i], sx, sy)
}

proof fn lemma_before_asym(p: Point, q: Point, sx: int, sy: int)
    requires
        before(p, q, sx, sy),
    ensures
        !before(q, p, sx, sy),
{
    let a = rel(p, sx, sy);
    let b = rel(q, sx, sy);
    vstd::arithmetic::mul::lemma_mul_is_commutative(a.0, b.1);
    vstd::arithmetic::mul::lemma_mul_is_commutative(a.1, b.0);
}

proof fn lemma_insert_sorted(s: Seq<Point>, p: Point, sx: int, sy: int)
    requires
        angle_sorted(s, sx, sy),
    ensures
        angle_sorted(insert_by_angle(s, p, sx, sy), sx, sy),
        insert_by_angle(s, p, sx, sy).len() == s.len() + 1,
        insert_by_angle(s, p, sx, sy).last() == (if s.len() == 0 || !before(p, s.last(), sx, sy) {
            p
        } else {
            s.last()
        }),
    decreases s.len(),
{
    lemma_insert_len(s, p, sx, sy);
    if s.len() > 0 {
        let d = s.drop_last();
        assert(angle_sorted(d, sx, sy)) by {
            assert forall|i: int| 0 <= i < d.len() - 1 implies !before(#[trigger] d[i + 1], d[i], sx, sy) by {
                assert(d[i + 1] == s[i + 1] && d[i] == s[i]);
            }
        }
        if before(p, s.last(), sx, sy) {
            lemma_insert_sorted(d, p, sx, sy);
            let r = insert_by_angle(d, p, sx, sy);
            let out = r.push(s.last());
            assert forall|i: int| 0 <= i < out.len() - 1 implies !before(#[trigger] out[i + 1], out[i], sx, sy) by {
                if i < r.len() - 1 {
                    assert(out[i + 1] == r[i + 1] && out[i] == r[i]);
                } else {
                    assert(out[i] == r.last());
                    if d.len() == 0 || !before(p, d.last(), sx, sy) {
                        lemma_before_asym(p, s.last(), sx, sy);
                    } else {
                        assert(d.last() == s[s.len() - 2]);
                        assert(!before(s[s.len() - 2 + 1], s[s.len() - 2], sx, sy));
                    }
                }
            }
        } else {
            let out = s.push(p);
            assert forall|i: int| 0 <= i < out.len() - 1 implies !before(#[trigger] out[i + 1], out[i], sx, sy) by {
                if i < s.len() - 1 {
                    assert(out[i + 1] == s[i + 1] && out[i] == s[i]);
                }
            }
        }
    }
}

proof fn lemma_sort_sorted(s: Seq<Point>, sx: int, sy: int)
    ensures
        angle_sorted(sort_by_angle(s, sx, sy), sx, sy),
    decreases s.len(),
{
    if s.len() > 0 {
        lemma_sort_sorted(s.drop_last(), sx, sy);
        lemma_insert_sorted(sort_by_angle(s.drop_last(), sx, sy), s.last(), sx, sy);
    }
}

/// Ordering the corners neither loses nor adds a point; the order is a
/// rotation of the stable angular sort around the centroid; and the first
/// corner has the least `x + y` of the four.
pub proof fn lemma_sort_points_laws(pts: Seq<Point>)
    requires
        pts.len() == 4,
    ensures
        sort_points_spec(pts).len() == 4,
        sort_points_spec(pts).to_multiset() == pts.to_multiset(),
        angle_sorted(sort_by_angle(pts, sum_x(pts), sum_y(pts)), sum_x(pts), sum_y(pts)),
        0 <= first_min_sum(sort_by_angle(pts, sum_x(pts), sum_y(pts)), 4) < 4,
        forall|i: int| 0 <= i < 4 ==> #[trigger] sort_points_spec(pts)[i]
            == sort_by_angle(pts, sum_x(pts), sum_y(pts))[(i + first_min_sum(
                sort_by_angle(pts, sum_x(pts), sum_y(pts)), 4)) % 4],
        forall|i: int| 0 <= i < 4 ==> sort_points_spec(pts)[0].x + sort_points_spec(pts)[0].y
            <= #[trigger] sort_points_spec(pts)[i].x + sort_points_spec(pts)[i].y,
{
    let sx = sum_x(pts);
    let sy = sum_y(pts);
    let s = sort_by_angle(pts, sx, sy);
    lemma_sort_len(pts, sx, sy);
    lemma_sort_sorted(pts, sx, sy);
    let t = first_min_sum(s, 4);
    lemma_first_min_range(s, 4);
    lemma_first_min_least(s, 4);
    let out = sort_points_spec(pts);
    assert(out[0] == s[t]);
    assert(out[1] == s[(t + 1) % 4]);
    assert(out[2] == s[(t + 2) % 4]);
    assert(out[3] == s[(t + 3) % 4]);
    assert(forall|i: int| 0 <= i < 4 ==> #[trigger] out[i] == s[(i + t) % 4]);
    // The rotation is a permutation of s.
    lemma_rotated(s, t);
    assert(out =~= rotated(s, t));
}

proof fn lemma_rotate_multiset(a: Point, b: Point, c: Point, d: Point)
    ensures
        seq![b, c, d, a].to_multiset() == seq![a, b, c, d].to_multiset(),
{
    broadcast use vstd::seq_lib::group_to_multiset_ensures;
    assert(seq![b, c, d, a] =~= Seq::<Point>::empty().push(b).push(c).push(d).push(a));
    assert(seq![a, b, c, d] =~= Seq::<Point>::empty().push(a).push(b).push(c).push(d));
    assert(seq![b, c, d, a].to_multiset() =~= seq![a, b, c, d].to_multiset());
}

proof fn lemma_first_min_least(s: Seq<Point>, k: int)
    requires
        1 <= k <= s.len(),
    ensures
        forall|i: int| 0 <= i < k ==> s[first_min_sum(s, k)].x + s[first_min_sum(s, k)].y
            <= #[trigger] s[i].x + s[i].y,
    decreases k,
{
    if k > 1 {
        lemma_first_min_least(s, k - 1);
    }
}

/// The four points of `s` taken cyclically from the one at `m`.
spec fn rotated(s: Seq<Point>, m: int) -> Seq<Point> {
    Seq::new(4, |i: int| s[(i + m) % 4])
}

/// Each corner of the four turns the same way, to the right in image
/// coordinates (where `y` points down): the corners run clockwise.
pub open spec fn turns_clockwise(s: Seq<Point>) -> bool {
    &&& turn(s[0], s[1], s[2]) > 0
    &&& turn(s[1], s[2], s[3]) > 0
    &&& turn(s[2], s[3], s[0]) > 0
    &&& turn(s[3], s[0], s[1]) > 0
}

proof fn lemma_rotated(s: Seq<Point>, m: int)
    requires
        s.len() == 4,
        0 <= m < 4,
    ensures
        rotated(s, m).to_multiset() == s.to_multiset(),
        turns_clockwise(s) ==> turns_clockwise(rotated(s, m)),
{
    let r = rotated(s, m);
    assert(s =~= seq![s[0], s[1], s[2], s[3]]);
    if m == 0 {
        assert(r =~= s);
    } else if m == 1 {
        assert(r =~= seq![s[1], s[2], s[3], s[0]]);
        lemma_rotate_multiset(s[0], s[1], s[2], s[3]);
    } else if m == 2 {
        assert(r =~= seq![s[2], s[3], s[0], s[1]]);
        lemma_rotate_multiset(s[0], s[1], s[2], s[3]);
        lemma_rotate_multiset(s[1], s[2], s[3], s[0]);
    } else {
        assert(r =~= seq![s[3], s[0], s[1], s[2]]);
        lemma_rotate_multiset(s[0], s[1], s[2], s[3]);
        lemma_rotate_multiset(s[1], s[2], s[3], s[0]);
        lemma_rotate_multiset(s[2], s[3], s[0], s[1]);
    }
}

} // verus!

verus! {

proof fn lemma_sum_remove(s: Seq<Point>, k: int)
    requires
        0 <= k < s.len(),
    ensures
        sum_x(s) == sum_x(s.remove(k)) + s[k].x,
        sum_y(s) == sum_y(s.remove(k)) + s[k].y,
    decreases s.len(),
{
    if k == s.len() - 1 {
        assert(s.remove(k) =~= s.drop_last());
    } else {
        lemma_sum_remove(s.drop_last(), k);
        assert(s.remove(k).drop_last() =~= s.drop_last().remove(k));
        assert(s.remove(k).last() == s.last());
    }
}

/// The coordinate sums, and so the centroid, do not depend on the order of the points.
proof fn lemma_sum_perm(s: Seq<Point>, t: Seq<Point>)
    requires
        s.to_multiset() == t.to_multiset(),
    ensures
        sum_x(s) == sum_x(t),
        sum_y(s) == sum_y(t),
    decreases s.len(),
{
    broadcast use vstd::seq_lib::group_to_multiset_ensures;
    s.to_multiset_ensures();
    t.to_multiset_ensures();
    if s.len() == 0 {
        assert(t.len() == 0);
    } else {
        let e = s.last();
        assert(s.drop_last().push(e) =~= s);
        assert(s.to_multiset().count(e) > 0);
        assert(t.contains(e));
        let k = choose|k: int| 0 <= k < t.len() && t[k] == e;
        assert(t.remove(k).to_multiset() =~= t.to_multiset().remove(e));
        assert(s.drop_last().to_multiset() =~= s.to_multiset().remove(e));
        lemma_sum_perm(s.drop_last(), t.remove(k));
        lemma_sum_remove(t, k);
    }
}

/// The angular order of directions is transitive.
proof fn lemma_angle_trans(a: (int, int), b: (int, int), c: (int, int))
    requires
        angle_less(a, b),
        angle_less(b, c),
    ensures
        angle_less(a, c),
{
    if half(a) == half(b) && half(b) == half(c) {
        let (ax, ay, bx, by, cx, cy) = (a.0, a.1, b.0, b.1, c.0, c.1);
        if half(a) == 2 {
            assert(ax * cy - ay * cx > 0) by (nonlinear_arith)
                requires ay > 0, by > 0, cy > 0, ax * by - ay * bx > 0, bx * cy - by * cx > 0;
        } else {
            assert(ax * cy - ay * cx > 0) by (nonlinear_arith)
                requires ay < 0, by < 0, cy < 0, ax * by - ay * bx > 0, bx * cy - by * cx > 0;
        }
    }
}

/// The angular order is transitive.
proof fn lemma_before_trans(p: Point, q: Point, r: Point, sx: int, sy: int)
    requires
        before(p, q, sx, sy),
        before(q, r, sx, sy),
    ensures
        before(p, r, sx, sy),
{
    lemma_angle_trans(rel(p, sx, sy), rel(q, sx, sy), rel(r, sx, sy));
}

/// Points that coincide or lie at different angles around the centroid.
pub open spec fn angles_distinct(s: Seq<Point>, sx: int, sy: int) -> bool {
    forall|i: int, j: int| 0 <= i < s.len() && 0 <= j < s.len() ==>
        #[trigger] s[i] == #[trigger] s[j] || before(s[i], s[j], sx, sy) || before(s[j], s[i], sx, sy)
}

/// Ordered: each point equals or comes before every later one.
spec fn angle_ordered(s: Seq<Point>, sx: int, sy: int) -> bool {
    forall|i: int, j: int| 0 <= i < j < s.len() ==> #[trigger] s[i] == #[trigger] s[j] || before(s[i], s[j], sx, sy)
}

proof fn lemma_sorted_ordered(s: Seq<Point>, sx: int, sy: int)
    requires
        angle_sorted(s, sx, sy),
        angles_distinct(s, sx, sy),
    ensures
        angle_ordered(s, sx, sy),
{
    assert forall|i: int, j: int| 0 <= i < j < s.len() implies #[trigger] s[i] == #[trigger] s[j]
        || before(s[i], s[j], sx, sy) by {
        lemma_sorted_ordered_gap(s, sx, sy, i, j);
    }
}

proof fn lemma_sorted_ordered_gap(s: Seq<Point>, sx: int, sy: int, i: int, j: int)
    requires
        angle_sorted(s, sx, sy),
        angles_distinct(s, sx, sy),
        0 <= i < j < s.len(),
    ensures
        s[i] == s[j] || before(s[i], s[j], sx, sy),
    decreases j - i,
{
    assert(!before(s[j], s[j - 1], sx, sy)) by {
        assert(!before(s[(j - 1) + 1], s[j - 1], sx, sy));
    }
    assert(s[j - 1] == s[j] || before(s[j - 1], s[j], sx, sy));
    if j - 1 > i {
        lemma_sorted_ordered_gap(s, sx, sy, i, j - 1);
        if s[i] != s[j - 1] && s[j - 1] != s[j] {
            lemma_before_trans(s[i], s[j - 1], s[j], sx, sy);
        }
    }
}

/// Two ordered rearrangements of the same points are equal.
proof fn lemma_ordered_unique(a: Seq<Point>, b: Seq<Point>, sx: int, sy: int)
    requires
        angle_ordered(a, sx, sy),
        angle_ordered(b, sx, sy),
        a.to_multiset() == b.to_multiset(),
    ensures
        a == b,
    decreases a.len(),
{
    broadcast use vstd::seq_lib::group_to_multiset_ensures;
    a.to_multiset_ensures();
    b.to_multiset_ensures();
    if a.len() == 0 {
        assert(b.len() == 0);
        assert(a =~= b);
    } else {
        assert(a.contains(a[0]));
        assert(a.to_multiset().count(a[0]) > 0);
        assert(b.to_multiset().count(a[0]) > 0);
        assert(b.contains(a[0]));
        let k = choose|k: int| 0 <= k < b.len() && b[k] == a[0];
        assert(b.contains(b[0]));
        assert(b.to_multiset().count(b[0]) > 0);
        assert(a.to_multiset().count(b[0]) > 0);
        assert(a.contains(b[0]));
        let m = choose|m: int| 0 <= m < a.len() && a[m] == b[0];
        if a[0] != b[0] {
            assert(k > 0 && m > 0);
            assert(before(b[0], b[k], sx, sy));
            assert(before(a[0], a[m], sx, sy));
            lemma_before_asym(a[0], b[0], sx, sy);
        }
        let a1 = a.remove(0);
        let b1 = b.remove(0);
        assert(a1.to_multiset() =~= a.to_multiset().remove(a[0]));
        assert(b1.to_multiset() =~= b.to_multiset().remove(b[0]));
        assert(angle_ordered(a1, sx, sy)) by {
            assert forall|i: int, j: int| 0 <= i < j < a1.len() implies #[trigger] a1[i] == #[trigger] a1[j]
                || before(a1[i], a1[j], sx, sy) by {
                assert(a1[i] == a[i + 1] && a1[j] == a[j + 1]);
            }
        }
        assert(angle_ordered(b1, sx, sy)) by {
            assert forall|i: int, j: int| 0 <= i < j < b1.len() implies #[trigger] b1[i] == #[trigger] b1[j]
                || before(b1[i], b1[j], sx, sy) by {
                assert(b1[i] == b[i + 1] && b1[j] == b[j + 1]);
            }
        }
        lemma_ordered_unique(a1, b1, sx, sy);
        assert(a =~= b) by {
            assert forall|i: int| 0 <= i < a.len() implies a[i] == b[i] by {
                if i > 0 {
                    assert(a1[i - 1] == b1[i - 1]);
                }
            }
        }
    }
}

/// A rearrangement of points at distinct angles has its points at distinct angles.
proof fn lemma_distinct_perm(p: Seq<Point>, s: Seq<Point>, sx: int, sy: int)
    requires
        angles_distinct(p, sx, sy),
        s.to_multiset() == p.to_multiset(),
    ensures
        angles_distinct(s, sx, sy),
{
    broadcast use vstd::seq_lib::group_to_multiset_ensures;
    p.to_multiset_ensures();
    s.to_multiset_ensures();
    assert forall|i: int, j: int| 0 <= i < s.len() && 0 <= j < s.len() implies #[trigger] s[i] == #[trigger] s[j]
        || before(s[i], s[j], sx, sy) || before(s[j], s[i], sx, sy) by {
        assert(s.contains(s[i]) && s.contains(s[j]));
        assert(s.to_multiset().count(s[i]) > 0 && s.to_multiset().count(s[j]) > 0);
        assert(p.to_multiset().count(s[i]) > 0 && p.to_multiset().count(s[j]) > 0);
        assert(p.contains(s[i]) && p.contains(s[j]));
        let k = choose|k: int| 0 <= k < p.len() && p[k] == s[i];
        let m = choose|m: int| 0 <= m < p.len() && p[m] == s[j];
        assert(p[k] == p[m] || before(p[k], p[m], sx, sy) || before(p[m], p[k], sx, sy));
    }
}

/// The corner order does not depend on the order in which the corners come,
/// when the corners coincide or lie at different angles around their centroid
/// (as the corners of a strictly convex quadrilateral do).
pub proof fn lemma_sort_points_order_independent(p: Seq<Point>, q: Seq<Point>)
    requires
        p.len() == 4,
        q.to_multiset() == p.to_multiset(),
        angles_distinct(p, sum_x(p), sum_y(p)),
    ensures
        sort_points_spec(q) == sort_points_spec(p),
{
    broadcast use vstd::seq_lib::group_to_multiset_ensures;
    p.to_multiset_ensures();
    q.to_multiset_ensures();
    lemma_sum_perm(q, p);
    let sx = sum_x(p);
    let sy = sum_y(p);
    let a = sort_by_angle(p, sx, sy);
    let b = sort_by_angle(q, sx, sy);
    lemma_sort_len(p, sx, sy);
    lemma_sort_len(q, sx, sy);
    lemma_sort_sorted(p, sx, sy);
    lemma_sort_sorted(q, sx, sy);
    a.to_multiset_ensures();
    b.to_multiset_ensures();
    lemma_distinct_perm(p, a, sx, sy);
    lemma_distinct_perm(p, b, sx, sy);
    lemma_sorted_ordered(a, sx, sy);
    lemma_sorted_ordered(b, sx, sy);
    lemma_ordered_unique(a, b, sx, sy);
}

} // verus!

verus! {

proof fn lemma_centroid_cross_identity(
    ax: int, ay: int, bx: int, by: int, dx: int, dy: int, ex: int, ey: int,
)
    ensures
        ({
            let sx = ax + bx + dx + ex;
            let sy = ay + by + dy + ey;
            (4 * ax - sx) * (4 * by - sy) - (4 * ay - sy) * (4 * bx - sx)
                == 4 * (((bx - ax) * (dy - by) - (by - ay) * (dx - bx)) + ((ax - ex) * (by - ay) - (ay - ey) * (bx - ax)))
        }),
{
    let (px, py, qx, qy, rx, ry) = (bx - ax, by - ay, dx - ax, dy - ay, ex - ax, ey - ay);
    assert((-(px + qx + rx)) * (3 * py - qy - ry) - (-(py + qy + ry)) * (3 * px - qx - rx)
        == 4 * ((px * qy - py * qx) + (px * ry - py * rx))) by (nonlinear_arith);
    assert(px * (qy - py) - py * (qx - px) == px * qy - py * qx) by (nonlinear_arith);
    assert((-rx) * py - (-ry) * px == px * ry - py * rx) by (nonlinear_arith);
    assert(4 * ax - (ax + bx + dx + ex) == -(px + qx + rx));
    assert(4 * ay - (ay + by + dy + ey) == -(py + qy + ry));
    assert(4 * bx - (ax + bx + dx + ex) == 3 * px - qx - rx);
    assert(4 * by - (ay + by + dy + ey) == 3 * py - qy - ry);
    assert(dy - by == qy - py && dx - bx == qx - px);
    assert(ax - ex == -rx && ay - ey == -ry);
}

proof fn lemma_sums_of_four(q: Seq<Point>)
    requires
        q.len() == 4,
    ensures
        sum_x(q) == q[0].x + q[1].x + q[2].x + q[3].x,
        sum_y(q) == q[0].y + q[1].y + q[2].y + q[3].y,
{
    assert(q.take(1).drop_last() =~= q.take(0));
    assert(q.take(2).drop_last() =~= q.take(1));
    assert(q.take(3).drop_last() =~= q.take(2));
    assert(q.drop_last() =~= q.take(3));
    assert(sum_x(q.take(0)) == 0 && sum_y(q.take(0)) == 0);
    assert(q.take(1).last() == q[0] && q.take(2).last() == q[1] && q.take(3).last() == q[2]);
    assert(q.last() == q[3]);
    assert(sum_x(q.take(1)) == q[0].x && sum_y(q.take(1)) == q[0].y);
    assert(sum_x(q.take(2)) == q[0].x + q[1].x && sum_y(q.take(2)) == q[0].y + q[1].y);
    assert(sum_x(q.take(3)) == q[0].x + q[1].x + q[2].x);
    assert(sum_y(q.take(3)) == q[0].y + q[1].y + q[2].y);
}

/// The centroid of a strictly convex quadrilateral lies strictly inside it:
/// seen from the centroid, each corner is followed by the next in the
/// direction of the quadrilateral's turns (the cross product of their offsets
/// has the sign of the turns).
pub proof fn lemma_centroid_inside(q: Seq<Point>)
    requires
        q.len() == 4,
        crate::geom::validate::strictly_convex(q),
    ensures
        forall|i: int| 0 <= i < 4 ==> {
            let a = rel(#[trigger] q[i], sum_x(q), sum_y(q));
            let b = rel(q[(i + 1) % 4], sum_x(q), sum_y(q));
            &&& crate::geom::validate::turn(q[0], q[1], q[2]) > 0 ==> a.0 * b.1 - a.1 * b.0 > 0
            &&& crate::geom::validate::turn(q[0], q[1], q[2]) < 0 ==> a.0 * b.1 - a.1 * b.0 < 0
        },
{
    lemma_sums_of_four(q);
    let sx = sum_x(q);
    let sy = sum_y(q);
    assert forall|i: int| 0 <= i < 4 implies {
        let a = rel(#[trigger] q[i], sx, sy);
        let b = rel(q[(i + 1) % 4], sx, sy);
        &&& turn(q[0], q[1], q[2]) > 0 ==> a.0 * b.1 - a.1 * b.0 > 0
        &&& turn(q[0], q[1], q[2]) < 0 ==> a.0 * b.1 - a.1 * b.0 < 0
    } by {
        let (ia, ib, id, ie) = (i, (i + 1) % 4, (i + 2) % 4, (i + 3) % 4);
        let (a, b, d, e) = (q[ia], q[ib], q[id], q[ie]);
        assert(sx == a.x + b.x + d.x + e.x && sy == a.y + b.y + d.y + e.y);
        lemma_centroid_cross_identity(a.x as int, a.y as int, b.x as int, b.y as int, d.x as int, d.y as int,
            e.x as int, e.y as int);
        assert(turn(a, b, d) == (b.x - a.x) * (d.y - b.y) - (b.y - a.y) * (d.x - b.x));
        assert(turn(e, a, b) == (a.x - e.x) * (b.y - a.y) - (a.y - e.y) * (b.x - a.x));
    }
}

/// Stepping from direction `u` to direction `v` turns left (a positive cross
/// product): either `v` lies at a larger angle than `u`, or the step crosses
/// the cut of the angle range at `pi`, from the upper half (angles in
/// `(0, pi]`) into the lower one (angles in `(-pi, 0)`).
proof fn lemma_angle_step(u: (int, int), v: (int, int))
    requires
        u.0 * v.1 - u.1 * v.0 > 0,
    ensures
        angle_less(u, v) || (angle_less(v, u) && half(v) == 0 && half(u) >= 2),
        !(angle_less(u, v) && angle_less(v, u)),
{
    assert(v.0 * u.1 - v.1 * u.0 == -(u.0 * v.1 - u.1 * v.0)) by (nonlinear_arith);
    if half(u) == half(v) && (half(u) == 1 || half(u) == 3) {
        assert(u.0 * v.1 - u.1 * v.0 == 0) by (nonlinear_arith)
            requires u.1 == 0, v.1 == 0;
    }
    if half(u) == 1 && half(v) == 0 {
        assert(u.0 * v.1 - u.1 * v.0 <= 0) by (nonlinear_arith)
            requires u.1 == 0, u.0 >= 0, v.1 < 0;
    }
    if half(u) >= 2 && half(v) == 1 {
        assert(u.0 * v.1 - u.1 * v.0 <= 0) by (nonlinear_arith)
            requires v.1 == 0, v.0 >= 0, u.1 >= 0;
    }
    if half(u) == 3 && half(v) == 2 {
        assert(u.0 * v.1 - u.1 * v.0 < 0) by (nonlinear_arith)
            requires u.1 == 0, u.0 < 0, v.1 > 0;
    }
}

/// Two directions of the lower half, one turned left from a direction `u` of
/// the upper half and one turned right from it, are in angular order.
proof fn lemma_split_by_upper(u: (int, int), w1: (int, int), w2: (int, int))
    requires
        half(u) >= 2,
        half(w1) == 0,
        half(w2) == 0,
        u.0 * w1.1 - u.1 * w1.0 > 0,
        w2.0 * u.1 - w2.1 * u.0 > 0,
    ensures
        w1.0 * w2.1 - w1.1 * w2.0 > 0,
{
    if u.1 == 0 {
        assert(w2.0 * u.1 - w2.1 * u.0 < 0) by (nonlinear_arith)
            requires u.1 == 0, u.0 < 0, w2.1 < 0;
    } else {
        let c1 = u.0 * w1.1 - u.1 * w1.0;
        let c2 = w2.0 * u.1 - w2.1 * u.0;
        let c = w1.0 * w2.1 - w1.1 * w2.0;
        assert(c * u.1 == -c1 * w2.1 - c2 * w1.1) by (nonlinear_arith)
            requires
                c1 == u.0 * w1.1 - u.1 * w1.0,
                c2 == w2.0 * u.1 - w2.1 * u.0,
                c == w1.0 * w2.1 - w1.1 * w2.0;
        assert(c > 0) by (nonlinear_arith)
            requires c * u.1 == -c1 * w2.1 - c2 * w1.1, c1 > 0, c2 > 0, w1.1 < 0, w2.1 < 0, u.1 > 0;
    }
}

/// Four directions, each turned left from the one before it (the first from
/// the last included), come in strictly increasing angular order once the
/// cycle is started at the right one: the cycle crosses the cut of the angle
/// range exactly once.
#[verifier::spinoff_prover]
#[verifier::rlimit(40)]
proof fn lemma_cyclic_start(a0: (int, int), a1: (int, int), a2: (int, int), a3: (int, int)) -> (k: int)
    requires
        a0.0 * a1.1 - a0.1 * a1.0 > 0,
        a1.0 * a2.1 - a1.1 * a2.0 > 0,
        a2.0 * a3.1 - a2.1 * a3.0 > 0,
        a3.0 * a0.1 - a3.1 * a0.0 > 0,
    ensures
        0 <= k < 4,
        k == 0 ==> angle_less(a0, a1) && angle_less(a1, a2) && angle_less(a2, a3),
        k == 1 ==> angle_less(a1, a2) && angle_less(a2, a3) && angle_less(a3, a0),
        k == 2 ==> angle_less(a2, a3) && angle_less(a3, a0) && angle_less(a0, a1),
        k == 3 ==> angle_less(a3, a0) && angle_less(a0, a1) && angle_less(a1, a2),
{
    lemma_angle_step(a0, a1);
    lemma_angle_step(a1, a2);
    lemma_angle_step(a2, a3);
    lemma_angle_step(a3, a0);
    // Two crossings of the cut at opposite steps would order two directions both ways.
    if !angle_less(a0, a1) && !angle_less(a2, a3) {
        lemma_split_by_upper(a0, a1, a3);
        lemma_split_by_upper(a2, a3, a1);
        assert(false) by (nonlinear_arith)
            requires a1.0 * a3.1 - a1.1 * a3.0 > 0, a3.0 * a1.1 - a3.1 * a1.0 > 0;
    }
    if !angle_less(a1, a2) && !angle_less(a3, a0) {
        lemma_split_by_upper(a1, a2, a0);
        lemma_split_by_upper(a3, a0, a2);
        assert(false) by (nonlinear_arith)
            requires a2.0 * a0.1 - a2.1 * a0.0 > 0, a0.0 * a2.1 - a0.1 * a2.0 > 0;
    }
    // No crossing at all would put a direction before itself.
    if angle_less(a0, a1) && angle_less(a1, a2) && angle_less(a2, a3) && angle_less(a3, a0) {
        lemma_angle_trans(a0, a1, a2);
        lemma_angle_trans(a0, a2, a3);
        lemma_angle_trans(a0, a3, a0);
        assert(a0.0 * a0.1 - a0.1 * a0.0 == 0) by (nonlinear_arith);
    }
    if !angle_less(a0, a1) {
        1
    } else if !angle_less(a1, a2) {
        2
    } else if !angle_less(a2, a3) {
        3
    } else {
        0
    }
}

proof fn lemma_reverse_multiset(a: Point, b: Point, c: Point, d: Point)
    ensures
        seq![d, c, b, a].to_multiset() == seq![a, b, c, d].to_multiset(),
{
    broadcast use vstd::seq_lib::group_to_multiset_ensures;
    assert(seq![d, c, b, a] =~= Seq::<Point>::empty().push(d).push(c).push(b).push(a));
    assert(seq![a, b, c, d] =~= Seq::<Point>::empty().push(a).push(b).push(c).push(d));
    assert(seq![d, c, b, a].to_multiset() =~= seq![a, b, c, d].to_multiset());
}

proof fn lemma_turn_reverse(a: Point, b: Point, c: Point)
    ensures
        turn(c, b, a) == -turn(a, b, c),
{
    let (ax, ay, bx, by, cx, cy) = (a.x as int, a.y as int, b.x as int, b.y as int, c.x as int, c.y as int);
    assert((bx - cx) * (ay - by) - (by - cy) * (ax - bx) == -((bx - ax) * (cy - by) - (by - ay) * (cx - bx)))
        by (nonlinear_arith);
}

/// The corners of a strictly convex quadrilateral listed so that they turn
/// clockwise: as they come, or reversed.
proof fn lemma_clockwise_listing(q: Seq<Point>) -> (p: Seq<Point>)
    requires
        q.len() == 4,
        crate::geom::validate::strictly_convex(q),
    ensures
        p.len() == 4,
        p.to_multiset() == q.to_multiset(),
        turns_clockwise(p),
        sum_x(p) == sum_x(q),
        sum_y(p) == sum_y(q),
{
    let p = if turn(q[0], q[1], q[2]) > 0 { q } else { seq![q[3], q[2], q[1], q[0]] };
    if turn(q[0], q[1], q[2]) <= 0 {
        assert(q =~= seq![q[0], q[1], q[2], q[3]]);
        lemma_reverse_multiset(q[0], q[1], q[2], q[3]);
        lemma_turn_reverse(q[1], q[2], q[3]);
        lemma_turn_reverse(q[0], q[1], q[2]);
        lemma_turn_reverse(q[3], q[0], q[1]);
        lemma_turn_reverse(q[2], q[3], q[0]);
    }
    lemma_sum_perm(p, q);
    p
}

/// Four points, each strictly before the next in angular order, are ordered
/// and at distinct angles.
proof fn lemma_strict_chain(w: Seq<Point>, sx: int, sy: int)
    requires
        w.len() == 4,
        before(w[0], w[1], sx, sy),
        before(w[1], w[2], sx, sy),
        before(w[2], w[3], sx, sy),
    ensures
        angle_ordered(w, sx, sy),
        angles_distinct(w, sx, sy),
{
    lemma_before_trans(w[0], w[1], w[2], sx, sy);
    lemma_before_trans(w[1], w[2], w[3], sx, sy);
    lemma_before_trans(w[0], w[2], w[3], sx, sy);
}

/// Seen from the centroid of `a, b, d, e`, the corner `b` is turned left from
/// `a` when the corners turn clockwise at `b` and at `a`.
proof fn lemma_centroid_turn(a: Point, b: Point, d: Point, e: Point, sx: int, sy: int)
    requires
        sx == a.x + b.x + d.x + e.x,
        sy == a.y + b.y + d.y + e.y,
        turn(a, b, d) > 0,
        turn(e, a, b) > 0,
    ensures
        rel(a, sx, sy).0 * rel(b, sx, sy).1 - rel(a, sx, sy).1 * rel(b, sx, sy).0 > 0,
{
    lemma_centroid_cross_identity(a.x as int, a.y as int, b.x as int, b.y as int, d.x as int, d.y as int,
        e.x as int, e.y as int);
}

/// Seen from the centroid of corners that turn clockwise, each corner is
/// turned left from the one before it.
proof fn lemma_offsets_turn_left(p: Seq<Point>)
    requires
        p.len() == 4,
        turns_clockwise(p),
    ensures
        rel(p[0], sum_x(p), sum_y(p)).0 * rel(p[1], sum_x(p), sum_y(p)).1
            - rel(p[0], sum_x(p), sum_y(p)).1 * rel(p[1], sum_x(p), sum_y(p)).0 > 0,
        rel(p[1], sum_x(p), sum_y(p)).0 * rel(p[2], sum_x(p), sum_y(p)).1
            - rel(p[1], sum_x(p), sum_y(p)).1 * rel(p[2], sum_x(p), sum_y(p)).0 > 0,
        rel(p[2], sum_x(p), sum_y(p)).0 * rel(p[3], sum_x(p), sum_y(p)).1
            - rel(p[2], sum_x(p), sum_y(p)).1 * rel(p[3], sum_x(p), sum_y(p)).0 > 0,
        rel(p[3], sum_x(p), sum_y(p)).0 * rel(p[0], sum_x(p), sum_y(p)).1
            - rel(p[3], sum_x(p), sum_y(p)).1 * rel(p[0], sum_x(p), sum_y(p)).0 > 0,
{
    lemma_sums_of_four(p);
    let sx = sum_x(p);
    let sy = sum_y(p);
    assert(sx == p[0].x + p[1].x + p[2].x + p[3].x);
    assert(sy == p[0].y + p[1].y + p[2].y + p[3].y);
    lemma_centroid_turn(p[0], p[1], p[2], p[3], sx, sy);
    lemma_centroid_turn(p[1], p[2], p[3], p[0], sx, sy);
    lemma_centroid_turn(p[2], p[3], p[0], p[1], sx, sy);
    lemma_centroid_turn(p[3], p[0], p[1], p[2], sx, sy);
}

/// Corners that turn clockwise, taken cyclically from the right one, are in
/// strictly increasing angular order around their centroid.
proof fn lemma_clockwise_cycle(p: Seq<Point>) -> (k: int)
    requires
        p.len() == 4,
        turns_clockwise(p),
    ensures
        0 <= k < 4,
        angle_ordered(rotated(p, k), sum_x(p), sum_y(p)),
        angles_distinct(rotated(p, k), sum_x(p), sum_y(p)),
{
    let sx = sum_x(p);
    let sy = sum_y(p);
    lemma_offsets_turn_left(p);
    let k = lemma_cyclic_start(rel(p[0], sx, sy), rel(p[1], sx, sy), rel(p[2], sx, sy), rel(p[3], sx, sy));
    let w = rotated(p, k);
    if k == 0 {
        assert(w[0] == p[0] && w[1] == p[1] && w[2] == p[2] && w[3] == p[3]);
    } else if k == 1 {
        assert(w[0] == p[1] && w[1] == p[2] && w[2] == p[3] && w[3] == p[0]);
    } else if k == 2 {
        assert(w[0] == p[2] && w[1] == p[3] && w[2] == p[0] && w[3] == p[1]);
    } else {
        assert(w[0] == p[3] && w[1] == p[0] && w[2] == p[1] && w[3] == p[2]);
    }
    lemma_strict_chain(w, sx, sy);
    k
}

/// The corners of a strictly convex quadrilateral, in whatever order they
/// come, are put in clockwise order (in image coordinates).
pub proof fn lemma_sort_points_clockwise(q: Seq<Point>)
    requires
        q.len() == 4,
        crate::geom::validate::strictly_convex(q),
    ensures
        turns_clockwise(sort_points_spec(q)),
{
    let p = lemma_clockwise_listing(q);
    let sx = sum_x(q);
    let sy = sum_y(q);
    let k = lemma_clockwise_cycle(p);
    let w = rotated(p, k);
    lemma_rotated(p, k);
    // The angular sort of the corners is that cycle.
    let s = sort_by_angle(q, sx, sy);
    lemma_sort_len(q, sx, sy);
    lemma_sort_sorted(q, sx, sy);
    lemma_distinct_perm(w, s, sx, sy);
    lemma_sorted_ordered(s, sx, sy);
    lemma_ordered_unique(s, w, sx, sy);
    let t = first_min_sum(s, 4);
    lemma_first_min_range(s, 4);
    lemma_rotated(w, t);
    assert(sort_points_spec(q) =~= rotated(w, t));
}

/// The corners of a strictly convex quadrilateral lie at different angles
/// around their centroid, and so their order after sorting does not depend on
/// the order in which they come.
pub proof fn lemma_convex_order_independent(p: Seq<Point>, q: Seq<Point>)
    requires
        p.len() == 4,
        crate::geom::validate::strictly_convex(p),
        q.to_multiset() == p.to_multiset(),
    ensures
        angles_distinct(p, sum_x(p), sum_y(p)),
        sort_points_spec(q) == sort_points_spec(p),
{
    let c = lemma_clockwise_listing(p);
    let k = lemma_clockwise_cycle(c);
    lemma_rotated(c, k);
    lemma_distinct_perm(rotated(c, k), p, sum_x(p), sum_y(p));
    lemma_sort_points_order_independent(p, q);
}

} // verus!
