use vstd::prelude::*;
use crate::geom::point::Point;
use crate::grid::{px, in_image, lemma_grid_index};
use crate::topology::chain::{chain_dims_ok, find_next_pixel, next_pixel, reverse_dir};

verus! {

/// Extraction of the outer boundaries of edge regions.
pub struct ContourExtractor;

/// The state of a boundary trace: the points so far, the pixels visited, the
/// current pixel, where the next search starts, the direction of the last
/// step, and whether the trace has ended.
pub struct TraceState {
    pub contour: Seq<Point>,
    pub visited: Seq<bool>,
    pub cx: u32,
    pub cy: u32,
    pub search_dir: u8,
    pub prev_dir: Option<u8>,
    pub done: bool,
}

/// The state in which a trace from `(sx, sy)` starts.
pub open spec fn trace_init(visited: Seq<bool>, w: int, sx: u32, sy: u32) -> TraceState {
    TraceState {
        contour: seq![Point { x: sx as i64, y: sy as i64 }],
        visited: visited.update(sy * w + sx, true),
        cx: sx,
        cy: sy,
        search_dir: 7,
        prev_dir: None,
        done: false,
    }
}

/// One step of the trace: move to the next edge neighbour clockwise from the
/// search direction and mark it visited; a step in the same direction as the
/// last one replaces the last point instead of adding one (once the contour
/// holds two points). The trace ends when no neighbour is found, or when it
/// comes back to the start pixel.
pub open spec fn trace_step(edges: Seq<u8>, w: int, h: int, sx: u32, sy: u32, s: TraceState) -> TraceState {
    if s.done {
        s
    } else {
        match next_pixel(edges, w, h, s.cx as int, s.cy as int, s.search_dir as int) {
            None => TraceState {
                contour: s.contour,
                visited: s.visited,
                cx: s.cx,
                cy: s.cy,
                search_dir: s.search_dir,
                prev_dir: s.prev_dir,
                done: true,
            },
            Some((nx, ny, d)) => {
                let p = Point { x: nx as i64, y: ny as i64 };
                let contour = if s.prev_dir == Some(d) && s.contour.len() > 1 {
                    s.contour.update(s.contour.len() - 1, p)
                } else {
                    s.contour.push(p)
                };
                let visited = s.visited.update(ny * w + nx, true);
                if nx == sx && ny == sy {
                    TraceState {
                        contour,
                        visited,
                        cx: s.cx,
                        cy: s.cy,
                        search_dir: s.search_dir,
                        prev_dir: Some(d),
                        done: true,
                    }
                } else {
                    TraceState {
                        contour,
                        visited,
                        cx: nx,
                        cy: ny,
                        search_dir: ((((d + 4) % 8) + 1) % 8) as u8,
                        prev_dir: Some(d),
                        done: false,
                    }
                }
            },
        }
    }
}

/// The state after at most `k` steps of the trace.
pub open spec fn trace_iter(edges: Seq<u8>, w: int, h: int, sx: u32, sy: u32, s: TraceState, k: nat) -> TraceState
    decreases k,
{
    if k == 0 {
        s
    } else {
        trace_iter(edges, w, h, sx, sy, trace_step(edges, w, h, sx, sy, s), (k - 1) as nat)
    }
}

/// The trace from `(sx, sy)`, given the pixels visited before it; it takes at
/// most one step per pixel of the image.
#[verifier::opaque]
pub open spec fn trace_result(edges: Seq<u8>, w: int, h: int, visited: Seq<bool>, sx: u32, sy: u32) -> TraceState {
    trace_iter(edges, w, h, sx, sy, trace_init(visited, w, sx, sy), (w * h) as nat)
}

/// The contours found by scanning the pixels from index `i` on in row-major
/// order: each edge pixel not yet visited starts a trace, and the traces of
/// four points or more are kept.
pub open spec fn scan_from(edges: Seq<u8>, w: int, h: int, i: int, visited: Seq<bool>, acc: Seq<Seq<Point>>)
    -> Seq<Seq<Point>>
    decreases w * h - i,
{
    if i >= w * h || i < 0 || w <= 0 {
        acc
    } else if edges[i] == 0 || visited[i] {
        scan_from(edges, w, h, i + 1, visited, acc)
    } else {
        let t = trace_result(edges, w, h, visited, (i % w) as u32, (i / w) as u32);
        let acc2 = if t.contour.len() >= 4 { acc.push(t.contour) } else { acc };
        scan_from(edges, w, h, i + 1, t.visited, acc2)
    }
}

/// The contours of an edge map of `w` by `h` pixels.
pub open spec fn extract_spec(edges: Seq<u8>, w: int, h: int) -> Seq<Seq<Point>> {
    scan_from(edges, w, h, 0, Seq::new((w * h) as nat, |i: int| false), seq![])
}

/// A finished trace stays as it is.
proof fn lemma_trace_done(edges: Seq<u8>, w: int, h: int, sx: u32, sy: u32, s: TraceState, k: nat)
    requires
        s.done,
    ensures
        trace_iter(edges, w, h, sx, sy, s, k) == s,
    decreases k,
{
    if k > 0 {
        lemma_trace_done(edges, w, h, sx, sy, s, (k - 1) as nat);
    }
}

impl ContourExtractor {
    /// Traces the boundary that starts at `(start_x, start_y)`, marking the
    /// pixels it passes as visited.
    fn trace_contour(
        edges: &[u8],
        visited: &mut Vec<bool>,
        width: u32,
        height: u32,
        start_x: u32,
        start_y: u32,
    ) -> (contour: Vec<Point>)
        requires
            chain_dims_ok(edges@.len() as int, width, height),
            old(visited)@.len() == width * height,
            start_x < width,
            start_y < height,
        ensures
            contour@ == trace_result(edges@, width as int, height as int, old(visited)@, start_x, start_y).contour,
            final(visited)@ == trace_result(edges@, width as int, height as int, old(visited)@, start_x, start_y).visited,
            final(visited)@.len() == width * height,
    {
        let ghost w = width as int;
        let ghost h = height as int;
        let ghost init = trace_init(visited@, w, start_x, start_y);
        let ghost goal = trace_result(edges@, w, h, visited@, start_x, start_y);
        proof {
            reveal(trace_result);
        }
        let mut contour: Vec<Point> = Vec::new();
        let mut cx = start_x;
        let mut cy = start_y;
        let mut search_dir: u8 = 7;
        contour.push(Point::new(cx as i64, cy as i64));
        proof {
            lemma_grid_index(cx as int, cy as int, w, h);
        }
        visited.set((cy * width + cx) as usize, true);
        let mut prev_dir: Option<u8> = None;
        let max_pts = width * height;
        let mut done = false;
        let mut k: u32 = 0;
        assert(contour@ =~= init.contour);
        while k < max_pts && !done
            invariant
                chain_dims_ok(edges@.len() as int, width, height),
                w == width as int,
                h == height as int,
                max_pts == width * height,
                k <= max_pts,
                cx < width,
                cy < height,
                search_dir < 8,
                visited@.len() == width * height,
                goal == trace_iter(edges@, w, h, start_x, start_y, TraceState {
                    contour: contour@,
                    visited: visited@,
                    cx,
                    cy,
                    search_dir,
                    prev_dir,
                    done,
                }, (max_pts - k) as nat),
            decreases max_pts - k,
        {
            let ghost cur = TraceState { contour: contour@, visited: visited@, cx, cy, search_dir, prev_dir, done };
            let found = find_next_pixel(edges, width, height, cx, cy, search_dir);
            proof {
                crate::topology::chain::lemma_next_pixel_is_edge(
                    edges@, w, h, cx as int, cy as int, search_dir as int, 0);
            }
            match found {
                Some((nx, ny, found_dir)) => {
                    proof {
                        lemma_grid_index(nx as int, ny as int, w, h);
                    }
                    visited.set((ny * width + nx) as usize, true);
                    let same_dir = match prev_dir {
                        Some(p) => p == found_dir,
                        None => false,
                    };
                    if same_dir && contour.len() > 1 {
                        let last = contour.len() - 1;
                        contour.set(last, Point::new(nx as i64, ny as i64));
                    } else {
                        contour.push(Point::new(nx as i64, ny as i64));
                    }
                    prev_dir = Some(found_dir);
                    if nx == start_x && ny == start_y {
                        done = true;
                    } else {
                        cx = nx;
                        cy = ny;
                        search_dir = (reverse_dir(found_dir) + 1) % 8;
                    }
                },
                None => {
                    done = true;
                },
            }
            let ghost next = TraceState { contour: contour@, visited: visited@, cx, cy, search_dir, prev_dir, done };
            assert(next == trace_step(edges@, w, h, start_x, start_y, cur));
            k += 1;
        }
        proof {
            if done {
                lemma_trace_done(edges@, w, h, start_x, start_y, TraceState {
                    contour: contour@, visited: visited@, cx, cy, search_dir, prev_dir, done }, (max_pts - k) as nat);
            }
        }
        contour
    }

    /// Scans the edge map in row-major order and traces the boundary that
    /// starts at each edge pixel not yet visited; keeps the traces of four
    /// points or more.
    pub fn extract(edges: &[u8], width: u32, height: u32) -> (contours: Vec<Vec<Point>>)
        requires
            chain_dims_ok(edges@.len() as int, width, height),
        ensures
            contours@.map_values(|c: Vec<Point>| c@) == extract_spec(edges@, width as int, height as int),
    {
        let ghost w = width as int;
        let ghost h = height as int;
        let n = (width * height) as usize;
        let mut visited: Vec<bool> = Vec::new();
        let mut i: usize = 0;
        while i < n
            invariant
                n == width * height,
                i <= n,
                visited@.len() == i,
                forall|j: int| 0 <= j < i ==> !visited@[j],
            decreases n - i,
        {
            visited.push(false);
            i += 1;
        }
        let ghost goal = extract_spec(edges@, w, h);
        assert(visited@ =~= Seq::new((w * h) as nat, |j: int| false));
        let mut contours: Vec<Vec<Point>> = Vec::new();
        assert(contours@.map_values(|c: Vec<Point>| c@) =~= Seq::<Seq<Point>>::empty());
        let mut y: u32 = 0;
        while y < height
            invariant
                chain_dims_ok(edges@.len() as int, width, height),
                w == width as int,
                h == height as int,
                y <= height,
                visited@.len() == width * height,
                goal == scan_from(edges@, w, h, y * w, visited@, contours@.map_values(|c: Vec<Point>| c@)),
            decreases height - y,
        {
            let mut x: u32 = 0;
            while x < width
                invariant
                    chain_dims_ok(edges@.len() as int, width, height),
                    w == width as int,
                    h == height as int,
                    y < height,
                    x <= width,
                    visited@.len() == width * height,
                    goal == scan_from(edges@, w, h, y * w + x, visited@, contours@.map_values(|c: Vec<Point>| c@)),
                decreases width - x,
            {
                proof {
                    lemma_grid_index(x as int, y as int, w, h);
                }
                let idx = (y * width + x) as usize;
                if edges[idx] == 0 || visited[idx] {
                } else {
                    let ghost before = contours@.map_values(|c: Vec<Point>| c@);
                    let contour = Self::trace_contour(edges, &mut visited, width, height, x, y);
                    if contour.len() >= 4 {
                        contours.push(contour);
                        assert(contours@.map_values(|c: Vec<Point>| c@)
                            =~= before.push(contours@[contours@.len() - 1]@));
                    }
                }
                x += 1;
            }
            assert(y * w + w == (y + 1) * w) by (nonlinear_arith);
            y += 1;
        }
        assert(height * w == w * h) by (nonlinear_arith)
            requires h == height as int;
        contours
    }
}

} // verus!
verus! {

/// Every point of `pts` is a pixel of the image that is an edge.
pub open spec fn on_edges(pts: Seq<Point>, edges: Seq<u8>, w: int, h: int) -> bool {
    forall|i: int| 0 <= i < pts.len() ==> {
        &&& in_image(#[trigger] pts[i].x as int, pts[i].y as int, w, h)
        &&& px(edges, w, pts[i].x as int, pts[i].y as int) != 0
    }
}

/// A trace state whose points are all edge pixels and whose current pixel lies in the image.
spec fn trace_good(s: TraceState, edges: Seq<u8>, w: int, h: int) -> bool {
    &&& on_edges(s.contour, edges, w, h)
    &&& in_image(s.cx as int, s.cy as int, w, h)
    &&& s.visited.len() == w * h
}

proof fn lemma_trace_step_good(edges: Seq<u8>, w: int, h: int, sx: u32, sy: u32, s: TraceState)
    requires
        w <= i32::MAX,
        h <= i32::MAX,
        trace_good(s, edges, w, h),
    ensures
        trace_good(trace_step(edges, w, h, sx, sy, s), edges, w, h),
{
    crate::topology::chain::lemma_next_pixel_is_edge(edges, w, h, s.cx as int, s.cy as int, s.search_dir as int, 0);
    if !s.done {
        match next_pixel(edges, w, h, s.cx as int, s.cy as int, s.search_dir as int) {
            Some((nx, ny, d)) => {
                lemma_grid_index(nx as int, ny as int, w, h);
                let t = trace_step(edges, w, h, sx, sy, s);
                assert forall|i: int| 0 <= i < t.contour.len() implies {
                    &&& in_image(#[trigger] t.contour[i].x as int, t.contour[i].y as int, w, h)
                    &&& px(edges, w, t.contour[i].x as int, t.contour[i].y as int) != 0
                } by {
                    if i < s.contour.len() && t.contour[i] == s.contour[i] {
                    } else {
                        assert(t.contour[i] == Point { x: nx as i64, y: ny as i64 });
                    }
                }
            },
            None => {},
        }
    }
}

proof fn lemma_trace_iter_good(edges: Seq<u8>, w: int, h: int, sx: u32, sy: u32, s: TraceState, k: nat)
    requires
        w <= i32::MAX,
        h <= i32::MAX,
        trace_good(s, edges, w, h),
    ensures
        trace_good(trace_iter(edges, w, h, sx, sy, s, k), edges, w, h),
    decreases k,
{
    if k > 0 {
        lemma_trace_step_good(edges, w, h, sx, sy, s);
        lemma_trace_iter_good(edges, w, h, sx, sy, trace_step(edges, w, h, sx, sy, s), (k - 1) as nat);
    }
}

proof fn lemma_scan_good(edges: Seq<u8>, w: int, h: int, i: int, visited: Seq<bool>, acc: Seq<Seq<Point>>)
    requires
        0 < w <= i32::MAX,
        0 <= h <= i32::MAX,
        edges.len() >= w * h,
        visited.len() == w * h,
        forall|j: int| 0 <= j < acc.len() ==> #[trigger] acc[j].len() >= 4 && on_edges(acc[j], edges, w, h),
    ensures
        forall|j: int| 0 <= j < scan_from(edges, w, h, i, visited, acc).len() ==> {
            &&& #[trigger] scan_from(edges, w, h, i, visited, acc)[j].len() >= 4
            &&& on_edges(scan_from(edges, w, h, i, visited, acc)[j], edges, w, h)
        },
    decreases w * h - i,
{
    if i >= w * h || i < 0 || w <= 0 {
    } else if edges[i] == 0 || visited[i] {
        lemma_scan_good(edges, w, h, i + 1, visited, acc);
        assert(scan_from(edges, w, h, i, visited, acc) == scan_from(edges, w, h, i + 1, visited, acc));
    } else {
        let sx = (i % w) as u32;
        let sy = (i / w) as u32;
        crate::grid::lemma_grid_coords(i, w, h);
        lemma_grid_index(sx as int, sy as int, w, h);
        let init = trace_init(visited, w, sx, sy);
        assert(trace_good(init, edges, w, h));
        lemma_trace_iter_good(edges, w, h, sx, sy, init, (w * h) as nat);
        reveal(trace_result);
        let t = trace_result(edges, w, h, visited, sx, sy);
        let acc2 = if t.contour.len() >= 4 { acc.push(t.contour) } else { acc };
        assert forall|j: int| 0 <= j < acc2.len() implies #[trigger] acc2[j].len() >= 4
            && on_edges(acc2[j], edges, w, h) by {
            if j < acc.len() {
                assert(acc2[j] == acc[j]);
            }
        }
        lemma_scan_good(edges, w, h, i + 1, t.visited, acc2);
        assert(scan_from(edges, w, h, i, visited, acc) == scan_from(edges, w, h, i + 1, t.visited, acc2));
    }
}

/// Every contour that extraction returns has at least four points, and every
/// point of it is an edge pixel inside the image.
pub proof fn lemma_contours_on_edges(edges: Seq<u8>, w: int, h: int)
    requires
        0 < w <= i32::MAX,
        0 <= h <= i32::MAX,
        edges.len() >= w * h,
    ensures
        forall|j: int| 0 <= j < extract_spec(edges, w, h).len() ==> {
            &&& #[trigger] extract_spec(edges, w, h)[j].len() >= 4
            &&& on_edges(extract_spec(edges, w, h)[j], edges, w, h)
        },
{
    lemma_scan_good(edges, w, h, 0, Seq::new((w * h) as nat, |i: int| false), seq![]);
}

/// The pixels marked visited once the raster scan has passed the first `i`
/// pixels of the image: every edge pixel not yet visited when the scan reaches
/// it starts a trace, which marks the pixels it passes.
pub open spec fn scan_visited(edges: Seq<u8>, w: int, h: int, i: int) -> Seq<bool>
    decreases i,
{
    if i <= 0 {
        Seq::new((w * h) as nat, |k: int| false)
    } else {
        let v = scan_visited(edges, w, h, i - 1);
        let j = i - 1;
        if edges[j] == 0 || v[j] {
            v
        } else {
            trace_result(edges, w, h, v, (j % w) as u32, (j / w) as u32).visited
        }
    }
}

/// Pixel `i` starts a trace when the raster scan reaches it: it is an edge
/// pixel that no earlier trace visited.
pub open spec fn starts_trace(edges: Seq<u8>, w: int, h: int, i: int) -> bool {
    edges[i] != 0 && !scan_visited(edges, w, h, i)[i]
}

/// The boundary traced from pixel `i` when the raster scan reaches it.
pub open spec fn trace_from_scan(edges: Seq<u8>, w: int, h: int, i: int) -> Seq<Point> {
    trace_result(edges, w, h, scan_visited(edges, w, h, i), (i % w) as u32, (i / w) as u32).contour
}

/// The contours that the raster scan adds to `acc` from pixel `i` on.
spec fn scan_rest(edges: Seq<u8>, w: int, h: int, i: int, acc: Seq<Seq<Point>>) -> Seq<Seq<Point>> {
    scan_from(edges, w, h, i, scan_visited(edges, w, h, i), acc)
}

/// Pixel `m` starts a trace of four points or more, which the scan keeps.
pub open spec fn kept_trace(edges: Seq<u8>, w: int, h: int, m: int) -> bool {
    starts_trace(edges, w, h, m) && trace_from_scan(edges, w, h, m).len() >= 4
}

/// `c` is the trace, of four points or more, that a pixel from `i` on starts
/// when the raster scan reaches it.
spec fn traced_from(edges: Seq<u8>, w: int, h: int, i: int, c: Seq<Point>) -> bool {
    exists|m: int| i <= m < w * h && #[trigger] kept_trace(edges, w, h, m) && c == trace_from_scan(edges, w, h, m)
}

proof fn lemma_scan_complete(edges: Seq<u8>, w: int, h: int, i: int, acc: Seq<Seq<Point>>)
    requires
        w > 0,
        h >= 0,
        0 <= i <= w * h,
    ensures
        scan_rest(edges, w, h, i, acc).len() >= acc.len(),
        forall|j: int| 0 <= j < acc.len() ==> #[trigger] scan_rest(edges, w, h, i, acc)[j] == acc[j],
        forall|m: int| i <= m < w * h && #[trigger] kept_trace(edges, w, h, m) ==> exists|j: int|
            #![trigger scan_rest(edges, w, h, i, acc)[j]]
            acc.len() <= j < scan_rest(edges, w, h, i, acc).len()
                && scan_rest(edges, w, h, i, acc)[j] == trace_from_scan(edges, w, h, m),
        forall|j: int| acc.len() <= j < scan_rest(edges, w, h, i, acc).len()
            ==> traced_from(edges, w, h, i, #[trigger] scan_rest(edges, w, h, i, acc)[j]),
    decreases w * h - i,
{
    if i < w * h {
        let v = scan_visited(edges, w, h, i);
        let t = trace_result(edges, w, h, v, (i % w) as u32, (i / w) as u32);
        let fresh = !(edges[i] == 0 || v[i]);
        let acc2 = if fresh && t.contour.len() >= 4 { acc.push(t.contour) } else { acc };
        assert(scan_visited(edges, w, h, i + 1) == (if fresh { t.visited } else { v }));
        lemma_scan_complete(edges, w, h, i + 1, acc2);
        let r = scan_rest(edges, w, h, i, acc);
        assert(r == scan_rest(edges, w, h, i + 1, acc2));
        assert(trace_from_scan(edges, w, h, i) == t.contour);
        assert(kept_trace(edges, w, h, i) == (fresh && t.contour.len() >= 4));
        assert forall|j: int| 0 <= j < acc.len() implies #[trigger] r[j] == acc[j] by {
            assert(acc2[j] == acc[j]);
        }
        assert forall|m: int| i <= m < w * h && #[trigger] kept_trace(edges, w, h, m) implies exists|j: int|
            #![trigger r[j]]
            acc.len() <= j < r.len() && r[j] == trace_from_scan(edges, w, h, m) by {
            if m == i {
                assert(r[acc.len() as int] == acc2[acc.len() as int]);
            } else {
                let j = choose|j: int| #![trigger r[j]] acc2.len() <= j < r.len()
                    && r[j] == trace_from_scan(edges, w, h, m);
                assert(acc.len() <= j);
            }
        }
        assert forall|j: int| acc.len() <= j < r.len() implies traced_from(edges, w, h, i, #[trigger] r[j]) by {
            if j < acc2.len() {
                assert(r[j] == acc2[j]);
                assert(kept_trace(edges, w, h, i));
            } else {
                assert(traced_from(edges, w, h, i + 1, r[j]));
                let m = choose|m: int| i + 1 <= m < w * h && #[trigger] kept_trace(edges, w, h, m)
                    && r[j] == trace_from_scan(edges, w, h, m);
                assert(kept_trace(edges, w, h, m));
            }
        }
    }
}

/// `c` is the trace, of four points or more, that some pixel of the image
/// starts when the raster scan reaches it.
pub open spec fn traced_by_scan(edges: Seq<u8>, w: int, h: int, c: Seq<Point>) -> bool {
    exists|m: int| 0 <= m < w * h && #[trigger] kept_trace(edges, w, h, m) && c == trace_from_scan(edges, w, h, m)
}

/// Extraction misses no boundary and invents none: scanning the image in
/// row-major order, every edge pixel that no earlier trace visited starts a
/// trace, and each such trace of four points or more is among the contours
/// returned; every contour returned is one of those traces.
pub proof fn lemma_extract_complete(edges: Seq<u8>, w: int, h: int)
    requires
        w > 0,
        h >= 0,
    ensures
        forall|m: int| 0 <= m < w * h && starts_trace(edges, w, h, m)
            && #[trigger] trace_from_scan(edges, w, h, m).len() >= 4
            ==> exists|j: int| #![trigger extract_spec(edges, w, h)[j]] 0 <= j < extract_spec(edges, w, h).len()
                && extract_spec(edges, w, h)[j] == trace_from_scan(edges, w, h, m),
        forall|j: int| 0 <= j < extract_spec(edges, w, h).len()
            ==> traced_by_scan(edges, w, h, #[trigger] extract_spec(edges, w, h)[j]),
{
    assert(w * h >= 0) by (nonlinear_arith)
        requires w > 0, h >= 0;
    lemma_scan_complete(edges, w, h, 0, Seq::<Seq<Point>>::empty());
    assert(scan_visited(edges, w, h, 0) == Seq::new((w * h) as nat, |k: int| false));
    assert(extract_spec(edges, w, h) == scan_rest(edges, w, h, 0, Seq::<Seq<Point>>::empty()));
    assert forall|m: int| 0 <= m < w * h && starts_trace(edges, w, h, m)
        && #[trigger] trace_from_scan(edges, w, h, m).len() >= 4
        implies exists|j: int| #![trigger extract_spec(edges, w, h)[j]] 0 <= j < extract_spec(edges, w, h).len() && extract_spec(edges, w, h)[j] == trace_from_scan(edges, w, h, m) by {
        assert(kept_trace(edges, w, h, m));
    }
    assert forall|j: int| 0 <= j < extract_spec(edges, w, h).len()
        implies traced_by_scan(edges, w, h, #[trigger] extract_spec(edges, w, h)[j]) by {
        let r = scan_rest(edges, w, h, 0, Seq::<Seq<Point>>::empty());
        assert(extract_spec(edges, w, h)[j] == r[j]);
        assert(traced_from(edges, w, h, 0, r[j]));
    }
}

} // verus!
