use vstd::prelude::*;
use fast_canny::CannyConfig;
use crate::edge::detector::{EdgeDetector, canny_map_ok, morph_radius_spec};
use crate::edge::morphology::close_spec;
use crate::error::DocQuadError;
use crate::geom::point::{Point, coord_ok, all_coords_ok, coord_bound};
use crate::geom::simplify::{GeometrySimplifier, simplify_spec, lemma_simplify_shape, points_from};
use crate::geom::transform::{Transformer, sort_points_spec};
use crate::geom::validate::{GeometryValidator, validate_spec};
use crate::memory::buffer::DocBuffer;
use crate::topology::chain::chain_dims_ok;
use crate::topology::contour::{ContourExtractor, extract_spec, lemma_contours_on_edges, on_edges};

verus! {

/// A document quadrilateral found at processing resolution: its corners as
/// top-left, top-right, bottom-right, bottom-left, and twice its area.
#[derive(Clone, Copy, Debug)]
pub struct QuadCandidate {
    pub points: [Point; 4],
    pub area2: u64,
}

/// The least and greatest `x` and `y` of the points of a non-empty contour.
pub open spec fn bounds(c: Seq<Point>) -> (int, int, int, int)
    decreases c.len(),
{
    if c.len() <= 1 {
        (c[0].x as int, c[0].x as int, c[0].y as int, c[0].y as int)
    } else {
        let b = bounds(c.drop_last());
        let p = c.last();
        (
            if p.x < b.0 { p.x as int } else { b.0 },
            if p.x > b.1 { p.x as int } else { b.1 },
            if p.y < b.2 { p.y as int } else { b.2 },
            if p.y > b.3 { p.y as int } else { b.3 },
        )
    }
}

/// The area of the bounding box of a non-empty contour.
pub open spec fn bbox_area(c: Seq<Point>) -> int {
    let b = bounds(c);
    (b.1 - b.0) * (b.3 - b.2)
}

/// The number of pixel steps from `a` to `b` along a straight 8-connected
/// run: the larger of the two coordinate distances.
pub open spec fn step_len(a: Point, b: Point) -> int {
    let dx = if b.x >= a.x { b.x - a.x } else { a.x - b.x };
    let dy = if b.y >= a.y { b.y - a.y } else { a.y - b.y };
    if dx >= dy { dx } else { dy }
}

/// The length in pixel steps of the path through the points of `c` in order.
pub open spec fn path_len(c: Seq<Point>) -> int
    decreases c.len(),
{
    if c.len() <= 1 { 0 } else { path_len(c.drop_last()) + step_len(c[c.len() - 2], c.last()) }
}

/// The perimeter of a contour in pixels: the length in pixel steps of its
/// closed outline, the run from the last point back to the first included.
/// A traced contour keeps only the ends of its straight runs, so this is the
/// number of steps taken around the boundary.
pub open spec fn perimeter(c: Seq<Point>) -> int {
    if c.len() == 0 { 0 } else { path_len(c) + step_len(c.last(), c[0]) }
}

/// The contour passes the cheap filters before the geometry: at least four
/// points; a perimeter of at least 3/100 of the image's longer side; and a
/// bounding box of at least 1/200 and at most 99/100 of the image's area.
pub open spec fn prefilter_ok(c: Seq<Point>, w: int, h: int) -> bool {
    let long_edge = if w >= h { w } else { h };
    &&& c.len() >= 4
    &&& 100 * perimeter(c) >= 3 * long_edge
    &&& 200 * bbox_area(c) >= w * h
    &&& 100 * bbox_area(c) <= 99 * (w * h)
}

/// The quadrilateral that a contour yields, as its ordered corners and twice
/// its area: the contour simplified to four vertices, accepted as strictly
/// convex, with an area above 1/100 of the image's area.
pub open spec fn quad_of(c: Seq<Point>, w: int, h: int) -> Option<(Seq<Point>, int)> {
    match simplify_spec(c) {
        None => None,
        Some(q5) => match validate_spec(q5, true) {
            None => None,
            Some((area2, q4)) => if 100 * area2 > 2 * (w * h) {
                Some((sort_points_spec(q4), area2))
            } else {
                None
            },
        },
    }
}

/// The document among the contours `cs`: of the quadrilaterals that the
/// contours passing the filters yield, one of greatest area, the last such
/// on ties.
pub open spec fn best_quad(cs: Seq<Seq<Point>>, w: int, h: int) -> Option<(Seq<Point>, int)>
    decreases cs.len(),
{
    if cs.len() == 0 {
        None
    } else {
        let prev = best_quad(cs.drop_last(), w, h);
        let c = cs.last();
        if prefilter_ok(c, w, h) {
            match quad_of(c, w, h) {
                None => prev,
                Some(q) => match prev {
                    None => Some(q),
                    Some(p) => if q.1 >= p.1 { Some(q) } else { prev },
                },
            }
        } else {
            prev
        }
    }
}

/// The document found in an edge map of `w` by `h` pixels.
pub open spec fn find_quad_spec(edges: Seq<u8>, w: int, h: int) -> Option<(Seq<Point>, int)> {
    best_quad(extract_spec(edges, w, h), w, h)
}

/// Image sizes that the integer geometry handles.
pub open spec fn geometry_dims_ok(len: int, width: u32, height: u32) -> bool {
    &&& chain_dims_ok(len, width, height)
    &&& width <= coord_bound()
    &&& height <= coord_bound()
}

/// Every point of `c` lies in the `w` by `h` image.
pub open spec fn in_frame(c: Seq<Point>, w: int, h: int) -> bool {
    forall|i: int| 0 <= i < c.len() ==> 0 <= #[trigger] c[i].x < w && 0 <= c[i].y < h
}

proof fn lemma_bounds_in_frame(c: Seq<Point>, w: int, h: int)
    requires
        c.len() >= 1,
        in_frame(c, w, h),
    ensures
        0 <= bounds(c).0 <= bounds(c).1 < w,
        0 <= bounds(c).2 <= bounds(c).3 < h,
    decreases c.len(),
{
    if c.len() > 1 {
        let d = c.drop_last();
        assert(in_frame(d, w, h)) by {
            assert forall|i: int| 0 <= i < d.len() implies 0 <= #[trigger] d[i].x < w && 0 <= d[i].y < h by {
                assert(d[i] == c[i]);
            }
        }
        lemma_bounds_in_frame(d, w, h);
        assert(0 <= c[c.len() - 1].x < w);
    } else {
        assert(0 <= c[0].x < w);
    }
}

/// The bounding box of a non-empty contour: least and greatest `x`, least and greatest `y`.
fn contour_bounds(c: &[Point]) -> (b: (i64, i64, i64, i64))
    requires
        c@.len() >= 1,
    ensures
        b.0 == bounds(c@).0,
        b.1 == bounds(c@).1,
        b.2 == bounds(c@).2,
        b.3 == bounds(c@).3,
{
    let mut min_x = c[0].x;
    let mut max_x = c[0].x;
    let mut min_y = c[0].y;
    let mut max_y = c[0].y;
    let mut i: usize = 1;
    assert(c@.take(1).len() == 1);
    while i < c.len()
        invariant
            1 <= i <= c@.len(),
            bounds(c@.take(i as int)) == (min_x as int, max_x as int, min_y as int, max_y as int),
        decreases c@.len() - i,
    {
        let p = c[i];
        assert(c@.take(i + 1).drop_last() =~= c@.take(i as int));
        if p.x < min_x {
            min_x = p.x;
        }
        if p.x > max_x {
            max_x = p.x;
        }
        if p.y < min_y {
            min_y = p.y;
        }
        if p.y > max_y {
            max_y = p.y;
        }
        i += 1;
    }
    assert(c@.take(c@.len() as int) =~= c@);
    (min_x, max_x, min_y, max_y)
}

/// The number of pixel steps between two points of the image.
fn steps_between(a: Point, b: Point) -> (n: u64)
    requires
        0 <= a.x <= u32::MAX, 0 <= a.y <= u32::MAX,
        0 <= b.x <= u32::MAX, 0 <= b.y <= u32::MAX,
    ensures
        n == step_len(a, b),
{
    let dx = if b.x >= a.x { b.x - a.x } else { a.x - b.x };
    let dy = if b.y >= a.y { b.y - a.y } else { a.y - b.y };
    if dx >= dy { dx as u64 } else { dy as u64 }
}

proof fn lemma_path_len_prefix(c: Seq<Point>, i: int)
    requires
        0 <= i <= c.len(),
    ensures
        path_len(c.take(i)) <= path_len(c),
    decreases c.len() - i,
{
    if i < c.len() {
        lemma_path_len_prefix(c, i + 1);
        assert(c.take(i + 1).drop_last() =~= c.take(i));
    } else {
        assert(c.take(i) =~= c);
    }
}

/// Whether 100 times the perimeter of a non-empty contour is at least `target`.
fn long_enough(c: &[Point], target: u64, width: u32, height: u32) -> (ok: bool)
    requires
        c@.len() >= 1,
        in_frame(c@, width as int, height as int),
        target <= 3 * (u32::MAX as int),
    ensures
        ok == (100 * perimeter(c@) >= target),
{
    if target == 0 {
        proof {
            lemma_path_len_prefix(c@, 0);
        }
        return true;
    }
    let n = c.len();
    let mut sum: u64 = 0;
    let mut i: usize = 1;
    assert(c@.take(1).len() == 1);
    while i < n
        invariant
            1 <= i <= n == c@.len(),
            in_frame(c@, width as int, height as int),
            target <= 3 * (u32::MAX as int),
            sum == path_len(c@.take(i as int)),
            100 * sum < target,
        decreases n - i,
    {
        assert(0 <= c@[i - 1].x < width && 0 <= c@[i - 1].y < height);
        assert(0 <= c@[i as int].x < width && 0 <= c@[i as int].y < height);
        let s = steps_between(c[i - 1], c[i]);
        proof {
            let t = c@.take(i + 1);
            assert(t.drop_last() =~= c@.take(i as int));
            assert(t[t.len() - 2] == c@[i - 1] && t.last() == c@[i as int]);
        }
        sum = sum + s;
        if 100 * sum >= target {
            proof {
                lemma_path_len_prefix(c@, i + 1);
            }
            return true;
        }
        i += 1;
    }
    assert(c@.take(n as int) =~= c@);
    assert(0 <= c@[n - 1].x < width && 0 <= c@[n - 1].y < height);
    assert(0 <= c@[0].x < width && 0 <= c@[0].y < height);
    let closing = steps_between(c[n - 1], c[0]);
    100 * (sum + closing) >= target
}

/// Whether a contour passes the cheap filters that come before the geometry.
pub fn passes_prefilter(c: &[Point], width: u32, height: u32) -> (ok: bool)
    requires
        in_frame(c@, width as int, height as int),
        width * height <= i32::MAX,
    ensures
        ok == prefilter_ok(c@, width as int, height as int),
{
    if c.len() < 4 {
        return false;
    }
    let long_edge: u64 = if width >= height { width as u64 } else { height as u64 };
    if !long_enough(c, 3 * long_edge, width, height) {
        return false;
    }
    let (min_x, max_x, min_y, max_y) = contour_bounds(c);
    proof {
        lemma_bounds_in_frame(c@, width as int, height as int);
        assert((max_x - min_x) * (max_y - min_y) <= width * height) by (nonlinear_arith)
            requires 0 <= max_x - min_x <= width, 0 <= max_y - min_y <= height;
        assert(0 <= (max_x - min_x) * (max_y - min_y)) by (nonlinear_arith)
            requires 0 <= max_x - min_x, 0 <= max_y - min_y;
    }
    let bbox = (max_x - min_x) * (max_y - min_y);
    let area = (width as i64) * (height as i64);
    if 200 * bbox < area {
        return false;
    }
    if 100 * bbox > 99 * area {
        return false;
    }
    true
}

proof fn lemma_frame_coords(c: Seq<Point>, w: int, h: int)
    requires
        in_frame(c, w, h),
        w <= coord_bound(),
        h <= coord_bound(),
    ensures
        all_coords_ok(c),
{
    assert forall|i: int| 0 <= i < c.len() implies coord_ok(#[trigger] c[i]) by {
        assert(0 <= c[i].x < w && 0 <= c[i].y < h);
    }
}

/// The quadrilateral that a contour yields, if any: simplified to four
/// vertices, accepted as strictly convex, larger than 1/100 of the image, and
/// with its corners ordered.
pub fn candidate_of(c: &[Point], width: u32, height: u32) -> (res: Option<QuadCandidate>)
    requires
        in_frame(c@, width as int, height as int),
        width <= coord_bound(),
        height <= coord_bound(),
    ensures
        res is Some <==> quad_of(c@, width as int, height as int) is Some,
        res matches Some(q) ==> quad_of(c@, width as int, height as int) == Some((q.points@, q.area2 as int)),
{
    proof {
        lemma_frame_coords(c@, width as int, height as int);
    }
    let simplified = match GeometrySimplifier::simplify_to_quad(c) {
        None => {
            return None;
        },
        Some(s) => s,
    };
    proof {
        lemma_simplify_shape(c@);
        assert forall|i: int| 0 <= i < simplified.0@.len() implies coord_ok(#[trigger] simplified.0@[i]) by {
            assert(c@.contains(simplified.0@[i]));
            let j = choose|j: int| 0 <= j < c@.len() && c@[j] == simplified.0@[i];
            assert(coord_ok(c@[j]));
        }
    }
    let (area2, pts) = match GeometryValidator::validate_and_score(&simplified) {
        None => {
            return None;
        },
        Some(v) => v,
    };
    proof {
        assert(pts@ == simplified.0@.take(4));
        assert forall|i: int| 0 <= i < pts@.len() implies coord_ok(#[trigger] pts@[i]) by {
            assert(pts@[i] == simplified.0@[i]);
        }
        crate::geom::validate::lemma_accepted_area(simplified.0@, simplified.1);
        assert(area2 <= 4 * 562949953421312) by {
            crate::geom::validate::lemma_accepted_area_bound(pts@);
        }
    }
    proof {
        crate::geom::point::lemma_mul_bound(width as int, height as int, 16777216, 16777216);
    }
    let area = (width as u64) * (height as u64);
    if 100 * area2 > 2 * area {
        let sorted = Transformer::sort_points(pts);
        Some(QuadCandidate { points: sorted, area2 })
    } else {
        None
    }
}

/// A found document as its ordered corners and twice its area.
pub open spec fn candidate_view(q: Option<QuadCandidate>) -> Option<(Seq<Point>, int)> {
    match q {
        None => None,
        Some(c) => Some((c.points@, c.area2 as int)),
    }
}

/// Finds the document in an edge map of `width` by `height` pixels: extracts
/// the contours, filters them, reduces each survivor to a strictly convex
/// quadrilateral when it can, and keeps one of greatest area (the last on ties).
pub fn find_quad(edges: &[u8], width: u32, height: u32) -> (res: Option<QuadCandidate>)
    requires
        geometry_dims_ok(edges@.len() as int, width, height),
    ensures
        candidate_view(res) == find_quad_spec(edges@, width as int, height as int),
{
    let ghost w = width as int;
    let ghost h = height as int;
    let contours = ContourExtractor::extract(edges, width, height);
    let ghost cs = contours@.map_values(|c: Vec<Point>| c@);
    proof {
        if w > 0 {
            lemma_contours_on_edges(edges@, w, h);
        } else {
            assert(extract_spec(edges@, w, h) == Seq::<Seq<Point>>::empty());
        }
    }
    let mut best: Option<QuadCandidate> = None;
    let mut i: usize = 0;
    assert(cs.take(0) =~= Seq::<Seq<Point>>::empty());
    while i < contours.len()
        invariant
            geometry_dims_ok(edges@.len() as int, width, height),
            w == width as int,
            h == height as int,
            cs == contours@.map_values(|c: Vec<Point>| c@),
            cs == extract_spec(edges@, w, h),
            forall|j: int| 0 <= j < cs.len() ==> #[trigger] cs[j].len() >= 4 && on_edges(cs[j], edges@, w, h),
            i <= contours@.len(),
            candidate_view(best) == best_quad(cs.take(i as int), w, h),
        decreases contours@.len() - i,
    {
        let c = contours[i].as_slice();
        proof {
            assert(c@ == cs[i as int]);
            assert(cs.take(i + 1).drop_last() =~= cs.take(i as int));
            assert(cs.take(i + 1).last() == cs[i as int]);
            assert(on_edges(cs[i as int], edges@, w, h));
            assert forall|k: int| 0 <= k < c@.len() implies 0 <= #[trigger] c@[k].x < w && 0 <= c@[k].y < h by {
                assert(crate::grid::in_image(c@[k].x as int, c@[k].y as int, w, h));
            }
        }
        if passes_prefilter(c, width, height) {
            match candidate_of(c, width, height) {
                Some(q) => {
                    match best {
                        None => {
                            best = Some(q);
                        },
                        Some(b) => {
                            if q.area2 >= b.area2 {
                                best = Some(q);
                            }
                        },
                    }
                },
                None => {},
            }
        }
        i += 1;
    }
    assert(cs.take(cs.len() as int) =~= cs);
    best
}

/// Finds the document in an image at processing resolution: allocates an edge
/// detector for its size, detects its edges with `cfg`, and finds the
/// document among them. Fails with `EdgeDetectionError` when a side is under
/// three pixels or when edge detection fails.
pub fn locate_quad(buffer: &DocBuffer, cfg: &CannyConfig) -> (res: Result<Option<QuadCandidate>, DocQuadError>)
    requires
        buffer.wf(),
        buffer.width >= 3 && buffer.height >= 3 ==> {
            &&& geometry_dims_ok((buffer.width * buffer.height) as int, buffer.width, buffer.height)
            &&& buffer.width * buffer.height * 4 <= isize::MAX
        },
    ensures
        buffer.width < 3 || buffer.height < 3 ==> res is Err,
        res matches Err(e) ==> e is EdgeDetectionError,
        res matches Ok(q) ==> exists|raw: Seq<u8>| {
            &&& canny_map_ok(raw, buffer.width as int, buffer.height as int)
            &&& candidate_view(q) == find_quad_spec(
                close_spec(raw, buffer.width as int, buffer.height as int,
                    morph_radius_spec(buffer.width as int, buffer.height as int)),
                buffer.width as int, buffer.height as int)
        },
{
    let mut detector = match EdgeDetector::new(buffer.width as usize, buffer.height as usize) {
        Ok(d) => d,
        Err(e) => {
            return Err(e);
        },
    };
    let edges = match detector.detect(buffer, cfg) {
        Ok(e) => e,
        Err(e) => {
            return Err(e);
        },
    };
    let ghost raw = choose|raw: Seq<u8>| {
        &&& canny_map_ok(raw, buffer.width as int, buffer.height as int)
        &&& edges@ == close_spec(raw, buffer.width as int, buffer.height as int,
            morph_radius_spec(buffer.width as int, buffer.height as int))
    };
    proof {
        crate::edge::morphology::lemma_morph_binary(raw, buffer.width as int, buffer.height as int,
            morph_radius_spec(buffer.width as int, buffer.height as int));
    }
    let found = find_quad(edges.as_slice(), buffer.width, buffer.height);
    Ok(found)
}

/// The document kept among the contours has an area at least that of every
/// quadrilateral that a filtered contour yields, and it is one of them; none
/// is kept only when no contour yields one.
pub proof fn lemma_best_quad_is_largest(cs: Seq<Seq<Point>>, w: int, h: int)
    ensures
        forall|j: int| 0 <= j < cs.len() && prefilter_ok(#[trigger] cs[j], w, h) && quad_of(cs[j], w, h) is Some
            ==> best_quad(cs, w, h) is Some && best_quad(cs, w, h).unwrap().1 >= quad_of(cs[j], w, h).unwrap().1,
        best_quad(cs, w, h) matches Some(b) ==> exists|j: int| 0 <= j < cs.len() && prefilter_ok(#[trigger] cs[j], w, h)
            && quad_of(cs[j], w, h) == Some(b),
    decreases cs.len(),
{
    if cs.len() > 0 {
        let d = cs.drop_last();
        lemma_best_quad_is_largest(d, w, h);
        assert forall|j: int| 0 <= j < cs.len() && prefilter_ok(#[trigger] cs[j], w, h) && quad_of(cs[j], w, h) is Some
            implies best_quad(cs, w, h) is Some && best_quad(cs, w, h).unwrap().1 >= quad_of(cs[j], w, h).unwrap().1 by {
            if j < d.len() {
                assert(d[j] == cs[j]);
            }
        }
        if let Some(b) = best_quad(cs, w, h) {
            let c = cs.last();
            if prefilter_ok(c, w, h) && quad_of(c, w, h) == Some(b) {
                assert(cs[cs.len() - 1] == c);
            } else {
                assert(best_quad(d, w, h) == Some(b));
                let j = choose|j: int| 0 <= j < d.len() && prefilter_ok(#[trigger] d[j], w, h)
                    && quad_of(d[j], w, h) == Some(b);
                assert(cs[j] == d[j]);
            }
        }
    }
}

/// A document found in an edge map is a strictly convex quadrilateral of
/// positive area above 1/100 of the image, traced from the map's contours: its
/// corners are those of the accepted quadrilateral, reordered so that the
/// corner of least `x + y` comes first.
pub proof fn lemma_found_document_shape(edges: Seq<u8>, w: int, h: int)
    ensures
        find_quad_spec(edges, w, h) matches Some((pts, area2)) ==> exists|q: Seq<Point>| {
            &&& q.len() == 4
            &&& crate::geom::validate::strictly_convex(q)
            &&& area2 == crate::geom::simplify::abs(crate::geom::validate::shoelace2(q))
            &&& area2 > 0
            &&& 100 * area2 > 2 * (w * h)
            &&& pts == sort_points_spec(q)
            &&& pts.len() == 4
            &&& pts.to_multiset() == q.to_multiset()
            &&& forall|i: int| 0 <= i < 4 ==> pts[0].x + pts[0].y <= #[trigger] pts[i].x + pts[i].y
        },
{
    let cs = extract_spec(edges, w, h);
    lemma_best_quad_is_largest(cs, w, h);
    if let Some((pts, area2)) = find_quad_spec(edges, w, h) {
        let j = choose|j: int| 0 <= j < cs.len() && prefilter_ok(#[trigger] cs[j], w, h)
            && quad_of(cs[j], w, h) == Some((pts, area2));
        let c = cs[j];
        let q5 = simplify_spec(c).unwrap();
        crate::geom::validate::lemma_accepted_area(q5, true);
        let q = validate_spec(q5, true).unwrap().1;
        crate::geom::transform::lemma_sort_points_laws(q);
        assert(q.len() == 4 && crate::geom::validate::strictly_convex(q));
    }
}

} // verus!
