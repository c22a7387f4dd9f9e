use vstd::prelude::*;
use crate::grid::{px, in_image, lemma_grid_index, lemma_grid_coords};

verus! {

/// Binary morphology on row-major edge maps (0 = background, non-zero = edge).
pub struct Morphology;

/// `(x, y)` lies in the square window of radius `r` centred on `(cx, cy)`.
pub open spec fn in_window(cx: int, cy: int, r: int, x: int, y: int) -> bool {
    cx - r <= x <= cx + r && cy - r <= y <= cy + r
}

/// Some pixel of the window around `(cx, cy)` that lies inside the image is an edge.
pub open spec fn dilated_at(src: Seq<u8>, w: int, h: int, r: int, cx: int, cy: int) -> bool {
    exists|x: int, y: int|
        in_window(cx, cy, r, x, y) && in_image(x, y, w, h) && #[trigger] px(src, w, x, y) > 0
}

/// The whole window around `(cx, cy)` lies inside the image and holds edges only.
pub open spec fn eroded_at(src: Seq<u8>, w: int, h: int, r: int, cx: int, cy: int) -> bool {
    forall|x: int, y: int|
        #[trigger] in_window(cx, cy, r, x, y) ==> in_image(x, y, w, h) && px(src, w, x, y) != 0
}

/// The dilation of `src`: 255 where the window meets an edge, 0 elsewhere.
pub open spec fn dilate_spec(src: Seq<u8>, w: int, h: int, r: int) -> Seq<u8> {
    Seq::new((w * h) as nat, |i: int| if dilated_at(src, w, h, r, i % w, i / w) { 255u8 } else { 0u8 })
}

/// The erosion of `src`: 255 where the window is all edge and inside the image, 0 elsewhere.
pub open spec fn erode_spec(src: Seq<u8>, w: int, h: int, r: int) -> Seq<u8> {
    Seq::new((w * h) as nat, |i: int| if eroded_at(src, w, h, r, i % w, i / w) { 255u8 } else { 0u8 })
}

/// The closing of `src`: its dilation, then eroded.
pub open spec fn close_spec(src: Seq<u8>, w: int, h: int, r: int) -> Seq<u8> {
    erode_spec(dilate_spec(src, w, h, r), w, h, r)
}

/// Sizes for which the operations index, count and allocate without overflow.
pub open spec fn morph_dims_ok(len: int, w: usize, h: usize, r: usize) -> bool {
    &&& w * h <= len
    &&& w * h <= isize::MAX
    &&& w + 2 * r < isize::MAX
    &&& h + 2 * r < isize::MAX
}

/// Whether the window of radius `radius` around `(x, y)` meets an edge inside the image.
fn window_has_edge(src: &[u8], width: usize, height: usize, radius: usize, x: usize, y: usize) -> (found: bool)
    requires
        morph_dims_ok(src@.len() as int, width, height, radius),
        x < width,
        y < height,
    ensures
        found == dilated_at(src@, width as int, height as int, radius as int, x as int, y as int),
{
    let ghost w = width as int;
    let ghost h = height as int;
    let ghost r = radius as int;
    let span = 2 * radius;
    let mut dy: usize = 0;
    while dy <= span
        invariant
            morph_dims_ok(src@.len() as int, width, height, radius),
            w == width as int,
            h == height as int,
            r == radius as int,
            x < width,
            y < height,
            span == 2 * radius,
            dy <= span + 1,
            forall|nx: int, ny: int|
                in_window(x as int, y as int, r, nx, ny) && ny < y - r + dy && in_image(nx, ny, w, h)
                    ==> #[trigger] px(src@, w, nx, ny) == 0,
        decreases span + 1 - dy,
    {
        let mut dx: usize = 0;
        while dx <= span
            invariant
                morph_dims_ok(src@.len() as int, width, height, radius),
                w == width as int,
                h == height as int,
                r == radius as int,
                x < width,
                y < height,
                span == 2 * radius,
                dy <= span,
                dx <= span + 1,
                forall|nx: int, ny: int|
                    in_window(x as int, y as int, r, nx, ny) && ny < y - r + dy && in_image(nx, ny, w, h)
                        ==> #[trigger] px(src@, w, nx, ny) == 0,
                forall|nx: int|
                    in_window(x as int, y as int, r, nx, y - r + dy) && nx < x - r + dx
                        && in_image(nx, y - r + dy, w, h) ==> #[trigger] px(src@, w, nx, y - r + dy) == 0,
            decreases span + 1 - dx,
        {
            let ny: isize = y as isize + dy as isize - radius as isize;
            let nx: isize = x as isize + dx as isize - radius as isize;
            if !(nx < 0 || ny < 0 || nx >= width as isize || ny >= height as isize) {
                proof {
                    lemma_grid_index(nx as int, ny as int, w, h);
                }
                let nidx = ny as usize * width + nx as usize;
                if src[nidx] > 0 {
                    assert(px(src@, w, nx as int, ny as int) > 0);
                    assert(in_window(x as int, y as int, r, nx as int, ny as int));
                    return true;
                }
            }
            dx += 1;
        }
        dy += 1;
    }
    false
}

/// The first `rows` rows of the window around `(cx, cy)` lie inside the image and hold edges only.
spec fn rows_all_edge(src: Seq<u8>, w: int, h: int, r: int, cx: int, cy: int, rows: int) -> bool {
    forall|nx: int, ny: int|
        #[trigger] in_window(cx, cy, r, nx, ny) && ny < cy - r + rows
            ==> in_image(nx, ny, w, h) && px(src, w, nx, ny) != 0
}

/// The first `cols` pixels of window row `ny` lie inside the image and are edges.
spec fn cols_all_edge(src: Seq<u8>, w: int, h: int, r: int, cx: int, cy: int, ny: int, cols: int) -> bool {
    forall|nx: int|
        #[trigger] in_window(cx, cy, r, nx, ny) && nx < cx - r + cols
            ==> in_image(nx, ny, w, h) && px(src, w, nx, ny) != 0
}

/// Whether the window of radius `radius` around `(x, y)` lies inside the image and holds edges only.
fn window_all_edge(src: &[u8], width: usize, height: usize, radius: usize, x: usize, y: usize) -> (all: bool)
    requires
        morph_dims_ok(src@.len() as int, width, height, radius),
        x < width,
        y < height,
    ensures
        all == eroded_at(src@, width as int, height as int, radius as int, x as int, y as int),
{
    let ghost w = width as int;
    let ghost h = height as int;
    let ghost r = radius as int;
    let ghost cx = x as int;
    let ghost cy = y as int;
    let span = 2 * radius;
    let mut dy: usize = 0;
    while dy <= span
        invariant
            morph_dims_ok(src@.len() as int, width, height, radius),
            w == width as int,
            h == height as int,
            r == radius as int,
            cx == x as int,
            cy == y as int,
            x < width,
            y < height,
            span == 2 * radius,
            dy <= span + 1,
            rows_all_edge(src@, w, h, r, cx, cy, dy as int),
        decreases span + 1 - dy,
    {
        let ghost row = cy - r + dy;
        let mut dx: usize = 0;
        while dx <= span
            invariant
                morph_dims_ok(src@.len() as int, width, height, radius),
                w == width as int,
                h == height as int,
                r == radius as int,
                cx == x as int,
                cy == y as int,
                x < width,
                y < height,
                span == 2 * radius,
                dy <= span,
                dx <= span + 1,
                row == cy - r + dy,
                rows_all_edge(src@, w, h, r, cx, cy, dy as int),
                cols_all_edge(src@, w, h, r, cx, cy, row, dx as int),
            decreases span + 1 - dx,
        {
            let ny: isize = y as isize + dy as isize - radius as isize;
            let nx: isize = x as isize + dx as isize - radius as isize;
            if nx < 0 || ny < 0 || nx >= width as isize || ny >= height as isize {
                assert(in_window(cx, cy, r, nx as int, ny as int));
                assert(!(in_image(nx as int, ny as int, w, h) && px(src@, w, nx as int, ny as int) != 0));
                return false;
            }
            proof {
                lemma_grid_index(nx as int, ny as int, w, h);
            }
            let nidx = ny as usize * width + nx as usize;
            if src[nidx] == 0 {
                assert(in_window(cx, cy, r, nx as int, ny as int));
                assert(px(src@, w, nx as int, ny as int) == 0);
                return false;
            }
            proof {
                assert forall|qx: int| #[trigger] in_window(cx, cy, r, qx, row) && qx < cx - r + dx + 1
                    implies in_image(qx, row, w, h) && px(src@, w, qx, row) != 0 by {
                    if qx >= cx - r + dx {
                        assert(qx == nx as int);
                    }
                }
            }
            dx += 1;
        }
        proof {
            assert forall|qx: int, qy: int| #[trigger] in_window(cx, cy, r, qx, qy) && qy < cy - r + dy + 1
                implies in_image(qx, qy, w, h) && px(src@, w, qx, qy) != 0 by {
                if qy == row {
                    assert(cols_all_edge(src@, w, h, r, cx, cy, row, dx as int));
                }
            }
        }
        dy += 1;
    }
    assert forall|qx: int, qy: int| #[trigger] in_window(cx, cy, r, qx, qy)
        implies in_image(qx, qy, w, h) && px(src@, w, qx, qy) != 0 by {
        assert(rows_all_edge(src@, w, h, r, cx, cy, dy as int));
    }
    true
}

impl Morphology {
    /// Dilation with a `(2 * radius + 1)`-square structuring element: a pixel
    /// becomes 255 when its window meets an edge pixel inside the image, 0 otherwise.
    pub fn dilate(src: &[u8], width: usize, height: usize, radius: usize) -> (dst: Vec<u8>)
        requires
            morph_dims_ok(src@.len() as int, width, height, radius),
        ensures
            dst@ == dilate_spec(src@, width as int, height as int, radius as int),
    {
        let ghost w = width as int;
        let ghost h = height as int;
        let ghost r = radius as int;
        let ghost target = dilate_spec(src@, w, h, r);
        let mut dst: Vec<u8> = Vec::new();
        let mut y: usize = 0;
        while y < height
            invariant
                morph_dims_ok(src@.len() as int, width, height, radius),
                w == width as int,
                h == height as int,
                r == radius as int,
                target == dilate_spec(src@, w, h, r),
                y <= height,
                dst@.len() == y * w,
                forall|i: int| 0 <= i < dst@.len() ==> dst@[i] == target[i],
            decreases height - y,
        {
            let mut x: usize = 0;
            while x < width
                invariant
                    morph_dims_ok(src@.len() as int, width, height, radius),
                w == width as int,
                h == height as int,
                r == radius as int,
                    target == dilate_spec(src@, w, h, r),
                    y < height,
                    x <= width,
                    dst@.len() == y * w + x,
                    forall|i: int| 0 <= i < dst@.len() ==> dst@[i] == target[i],
                decreases width - x,
            {
                proof {
                    lemma_grid_index(x as int, y as int, w, h);
                }
                let hit = window_has_edge(src, width, height, radius, x, y);
                if hit {
                    dst.push(255u8);
                } else {
                    dst.push(0u8);
                }
                x += 1;
            }
            assert(dst@.len() == (y + 1) * w) by (nonlinear_arith)
                requires dst@.len() == y * w + w;
            y += 1;
        }
        assert(height * w == w * h) by (nonlinear_arith)
            requires h == height as int;
        assert(dst@ =~= target);
        dst
    }

    /// Erosion with a `(2 * radius + 1)`-square structuring element: a pixel
    /// becomes 255 when its whole window lies inside the image and holds edges
    /// only, 0 otherwise (pixels outside the image count as background).
    pub fn erode(src: &[u8], width: usize, height: usize, radius: usize) -> (dst: Vec<u8>)
        requires
            morph_dims_ok(src@.len() as int, width, height, radius),
        ensures
            dst@ == erode_spec(src@, width as int, height as int, radius as int),
    {
        let ghost w = width as int;
        let ghost h = height as int;
        let ghost r = radius as int;
        let ghost target = erode_spec(src@, w, h, r);
        let mut dst: Vec<u8> = Vec::new();
        let mut y: usize = 0;
        while y < height
            invariant
                morph_dims_ok(src@.len() as int, width, height, radius),
                w == width as int,
                h == height as int,
                r == radius as int,
                target == erode_spec(src@, w, h, r),
                y <= height,
                dst@.len() == y * w,
                forall|i: int| 0 <= i < dst@.len() ==> dst@[i] == target[i],
            decreases height - y,
        {
            let mut x: usize = 0;
            while x < width
                invariant
                    morph_dims_ok(src@.len() as int, width, height, radius),
                w == width as int,
                h == height as int,
                r == radius as int,
                    target == erode_spec(src@, w, h, r),
                    y < height,
                    x <= width,
                    dst@.len() == y * w + x,
                    forall|i: int| 0 <= i < dst@.len() ==> dst@[i] == target[i],
                decreases width - x,
            {
                proof {
                    lemma_grid_index(x as int, y as int, w, h);
                }
                let all = window_all_edge(src, width, height, radius, x, y);
                if all {
                    dst.push(255u8);
                } else {
                    dst.push(0u8);
                }
                x += 1;
            }
            assert(dst@.len() == (y + 1) * w) by (nonlinear_arith)
                requires dst@.len() == y * w + w;
            y += 1;
        }
        assert(height * w == w * h) by (nonlinear_arith)
            requires h == height as int;
        assert(dst@ =~= target);
        dst
    }

    /// Closing (dilation, then erosion with the same radius): bridges gaps
    /// between nearby edge pixels.
    pub fn close(src: &[u8], width: usize, height: usize, radius: usize) -> (dst: Vec<u8>)
        requires
            morph_dims_ok(src@.len() as int, width, height, radius),
        ensures
            dst@ == close_spec(src@, width as int, height as int, radius as int),
    {
        let dilated = Self::dilate(src, width, height, radius);
        let closed = Self::erode(dilated.as_slice(), width, height, radius);
        closed
    }
}

} // verus!

verus! {

/// Every value of a dilation, erosion or closing is 0 or 255, and each has one
/// value per pixel.
pub proof fn lemma_morph_binary(src: Seq<u8>, w: int, h: int, r: int)
    requires
        w >= 0,
        h >= 0,
    ensures
        dilate_spec(src, w, h, r).len() == w * h,
        erode_spec(src, w, h, r).len() == w * h,
        close_spec(src, w, h, r).len() == w * h,
        forall|i: int| 0 <= i < w * h ==> {
            &&& (#[trigger] dilate_spec(src, w, h, r)[i] == 0 || dilate_spec(src, w, h, r)[i] == 255)
            &&& (#[trigger] erode_spec(src, w, h, r)[i] == 0 || erode_spec(src, w, h, r)[i] == 255)
            &&& (#[trigger] close_spec(src, w, h, r)[i] == 0 || close_spec(src, w, h, r)[i] == 255)
        },
{
    assert(w * h >= 0) by (nonlinear_arith)
        requires w >= 0, h >= 0;
}

/// Dilation keeps every edge pixel: an edge pixel of `src` is 255 in its dilation.
pub proof fn lemma_dilate_extensive(src: Seq<u8>, w: int, h: int, r: int, x: int, y: int)
    requires
        r >= 0,
        in_image(x, y, w, h),
        px(src, w, x, y) > 0,
    ensures
        px(dilate_spec(src, w, h, r), w, x, y) == 255,
{
    lemma_grid_index(x, y, w, h);
    assert(in_window(x, y, r, x, y));
    assert(dilated_at(src, w, h, r, x, y));
}

/// Erosion never creates an edge: a pixel that is 255 after erosion was an edge in `src`.
pub proof fn lemma_erode_anti_extensive(src: Seq<u8>, w: int, h: int, r: int, x: int, y: int)
    requires
        r >= 0,
        in_image(x, y, w, h),
        px(erode_spec(src, w, h, r), w, x, y) == 255,
    ensures
        px(src, w, x, y) != 0,
{
    lemma_grid_index(x, y, w, h);
    assert(in_window(x, y, r, x, y));
}

/// Erosion clears the image border: a pixel whose window reaches outside the image is 0.
pub proof fn lemma_erode_clears_border(src: Seq<u8>, w: int, h: int, r: int, x: int, y: int)
    requires
        r >= 0,
        in_image(x, y, w, h),
        !(r <= x < w - r && r <= y < h - r),
    ensures
        px(erode_spec(src, w, h, r), w, x, y) == 0,
{
    lemma_grid_index(x, y, w, h);
    if x < r {
        assert(in_window(x, y, r, x - r, y) && !in_image(x - r, y, w, h));
    } else if x >= w - r {
        assert(in_window(x, y, r, x + r, y) && !in_image(x + r, y, w, h));
    } else if y < r {
        assert(in_window(x, y, r, x, y - r) && !in_image(x, y - r, w, h));
    } else {
        assert(in_window(x, y, r, x, y + r) && !in_image(x, y + r, w, h));
    }
}

/// Closing keeps every edge pixel whose window lies inside the image.
pub proof fn lemma_close_extensive(src: Seq<u8>, w: int, h: int, r: int, x: int, y: int)
    requires
        r >= 0,
        r <= x < w - r,
        r <= y < h - r,
        px(src, w, x, y) > 0,
    ensures
        px(close_spec(src, w, h, r), w, x, y) == 255,
{
    let d = dilate_spec(src, w, h, r);
    lemma_grid_index(x, y, w, h);
    assert forall|qx: int, qy: int| #[trigger] in_window(x, y, r, qx, qy)
        implies in_image(qx, qy, w, h) && px(d, w, qx, qy) != 0 by {
        lemma_grid_index(qx, qy, w, h);
        assert(in_window(qx, qy, r, x, y));
        assert(dilated_at(src, w, h, r, qx, qy));
    }
    assert(eroded_at(d, w, h, r, x, y));
}

/// Dilation, erosion and closing are monotone: more edges in, no fewer edges out.
pub proof fn lemma_morph_monotone(a: Seq<u8>, b: Seq<u8>, w: int, h: int, r: int, x: int, y: int)
    requires
        in_image(x, y, w, h),
        forall|qx: int, qy: int| in_image(qx, qy, w, h) && #[trigger] px(a, w, qx, qy) > 0
            ==> px(b, w, qx, qy) > 0,
    ensures
        px(dilate_spec(a, w, h, r), w, x, y) == 255 ==> px(dilate_spec(b, w, h, r), w, x, y) == 255,
        px(erode_spec(a, w, h, r), w, x, y) == 255 ==> px(erode_spec(b, w, h, r), w, x, y) == 255,
        px(close_spec(a, w, h, r), w, x, y) == 255 ==> px(close_spec(b, w, h, r), w, x, y) == 255,
{
    lemma_grid_index(x, y, w, h);
    let da = dilate_spec(a, w, h, r);
    let db = dilate_spec(b, w, h, r);
    if dilated_at(a, w, h, r, x, y) {
        let (qx, qy) = choose|qx: int, qy: int|
            in_window(x, y, r, qx, qy) && in_image(qx, qy, w, h) && #[trigger] px(a, w, qx, qy) > 0;
        assert(px(b, w, qx, qy) > 0);
    }
    if eroded_at(a, w, h, r, x, y) {
        assert forall|qx: int, qy: int| #[trigger] in_window(x, y, r, qx, qy)
            implies in_image(qx, qy, w, h) && px(b, w, qx, qy) != 0 by {
            assert(px(a, w, qx, qy) != 0);
        }
    }
    // The dilations are ordered at every pixel, so their erosions are ordered at (x, y).
    assert forall|qx: int, qy: int| in_image(qx, qy, w, h) && #[trigger] px(da, w, qx, qy) > 0
        implies px(db, w, qx, qy) > 0 by {
        lemma_grid_index(qx, qy, w, h);
        let (sx, sy) = choose|sx: int, sy: int|
            in_window(qx, qy, r, sx, sy) && in_image(sx, sy, w, h) && #[trigger] px(a, w, sx, sy) > 0;
        assert(px(b, w, sx, sy) > 0);
    }
    if eroded_at(da, w, h, r, x, y) {
        assert forall|qx: int, qy: int| #[trigger] in_window(x, y, r, qx, qy)
            implies in_image(qx, qy, w, h) && px(db, w, qx, qy) != 0 by {
            lemma_grid_index(qx, qy, w, h);
            assert(px(da, w, qx, qy) != 0);
        }
    }
}

/// A closing is 0 at every pixel whose window reaches outside the image.
pub proof fn lemma_close_clears_border(src: Seq<u8>, w: int, h: int, r: int, x: int, y: int)
    requires
        r >= 0,
        in_image(x, y, w, h),
        !(r <= x < w - r && r <= y < h - r),
    ensures
        px(close_spec(src, w, h, r), w, x, y) == 0,
{
    lemma_erode_clears_border(dilate_spec(src, w, h, r), w, h, r, x, y);
}

/// Square dilations compose additively, the clipping at the image border
/// included: dilating by `r1` and then by `r2` is dilating by `r1 + r2`.
pub proof fn lemma_dilate_compose(src: Seq<u8>, w: int, h: int, r1: int, r2: int)
    requires
        w >= 0,
        h >= 0,
        r1 >= 0,
        r2 >= 0,
    ensures
        dilate_spec(dilate_spec(src, w, h, r1), w, h, r2) == dilate_spec(src, w, h, r1 + r2),
{
    let d1 = dilate_spec(src, w, h, r1);
    let lhs = dilate_spec(d1, w, h, r2);
    let rhs = dilate_spec(src, w, h, r1 + r2);
    assert forall|i: int| 0 <= i < lhs.len() implies lhs[i] == rhs[i] by {
        assert(w > 0) by (nonlinear_arith)
            requires 0 <= i < w * h, h >= 0;
        lemma_grid_coords(i, w, h);
        let x = i % w;
        let y = i / w;
        if dilated_at(d1, w, h, r2, x, y) {
            let (qx, qy) = choose|qx: int, qy: int|
                in_window(x, y, r2, qx, qy) && in_image(qx, qy, w, h) && #[trigger] px(d1, w, qx, qy) > 0;
            lemma_grid_index(qx, qy, w, h);
            assert(dilated_at(src, w, h, r1, qx, qy));
            let (ex, ey) = choose|ex: int, ey: int|
                in_window(qx, qy, r1, ex, ey) && in_image(ex, ey, w, h) && #[trigger] px(src, w, ex, ey) > 0;
            assert(in_window(x, y, r1 + r2, ex, ey));
            assert(dilated_at(src, w, h, r1 + r2, x, y));
        }
        if dilated_at(src, w, h, r1 + r2, x, y) {
            let (ex, ey) = choose|ex: int, ey: int|
                in_window(x, y, r1 + r2, ex, ey) && in_image(ex, ey, w, h) && #[trigger] px(src, w, ex, ey) > 0;
            let qx = if ex > x + r2 { x + r2 } else if ex < x - r2 { x - r2 } else { ex };
            let qy = if ey > y + r2 { y + r2 } else if ey < y - r2 { y - r2 } else { ey };
            assert(in_image(qx, qy, w, h));
            assert(in_window(qx, qy, r1, ex, ey));
            assert(dilated_at(src, w, h, r1, qx, qy));
            lemma_grid_index(qx, qy, w, h);
            assert(px(d1, w, qx, qy) == 255);
            assert(in_window(x, y, r2, qx, qy));
            assert(dilated_at(d1, w, h, r2, x, y));
        }
    }
    assert(lhs =~= rhs);
}

/// Closing is erosion after dilation with the same radius.
pub proof fn lemma_close_is_erode_of_dilate(src: Seq<u8>, w: int, h: int, r: int)
    ensures
        close_spec(src, w, h, r) == erode_spec(dilate_spec(src, w, h, r), w, h, r),
{
}

/// Closing is idempotent, the clipping at the image border included: closing
/// a closed edge map changes nothing.
pub proof fn lemma_close_idempotent(src: Seq<u8>, w: int, h: int, r: int)
    requires
        w >= 0,
        h >= 0,
        r >= 0,
    ensures
        close_spec(close_spec(src, w, h, r), w, h, r) == close_spec(src, w, h, r),
{
    let d = dilate_spec(src, w, h, r);
    let c = close_spec(src, w, h, r);
    let dc = dilate_spec(c, w, h, r);
    let cc = erode_spec(dc, w, h, r);
    assert forall|i: int| 0 <= i < cc.len() implies cc[i] == c[i] by {
        assert(w > 0) by (nonlinear_arith)
            requires 0 <= i < w * h, h >= 0;
        lemma_grid_coords(i, w, h);
        let x = i % w;
        let y = i / w;
        if eroded_at(d, w, h, r, x, y) {
            // The closed pixel's window lies in the dilation of the closing.
            assert forall|qx: int, qy: int| #[trigger] in_window(x, y, r, qx, qy)
                implies in_image(qx, qy, w, h) && px(dc, w, qx, qy) != 0 by {
                lemma_grid_index(qx, qy, w, h);
                lemma_grid_index(x, y, w, h);
                assert(in_window(qx, qy, r, x, y));
                assert(px(c, w, x, y) == 255);
                assert(dilated_at(c, w, h, r, qx, qy));
            }
            assert(eroded_at(dc, w, h, r, x, y));
        }
        if eroded_at(dc, w, h, r, x, y) {
            // Every window pixel is next to a closed pixel, whose window holds only dilated pixels.
            assert forall|qx: int, qy: int| #[trigger] in_window(x, y, r, qx, qy)
                implies in_image(qx, qy, w, h) && px(d, w, qx, qy) != 0 by {
                lemma_grid_index(qx, qy, w, h);
                assert(px(dc, w, qx, qy) != 0);
                assert(dilated_at(c, w, h, r, qx, qy));
                let (ex, ey) = choose|ex: int, ey: int|
                    in_window(qx, qy, r, ex, ey) && in_image(ex, ey, w, h) && #[trigger] px(c, w, ex, ey) > 0;
                lemma_grid_index(ex, ey, w, h);
                assert(eroded_at(d, w, h, r, ex, ey));
                assert(in_window(ex, ey, r, qx, qy));
            }
            assert(eroded_at(d, w, h, r, x, y));
        }
    }
    assert(cc =~= c);
}

} // verus!
