use vstd::prelude::*;
use fast_canny::{CannyConfig, CannyError, CannyWorkspace};
use crate::edge::morphology::{Morphology, close_spec, morph_dims_ok};
use crate::error::DocQuadError;
use crate::grid::{px, in_image};
use crate::memory::buffer::DocBuffer;

verus! {

#[verifier::external_type_specification]
#[verifier::external_body]
pub struct ExCannyWorkspace(CannyWorkspace);

#[verifier::external_type_specification]
#[verifier::external_body]
pub struct ExCannyConfig(CannyConfig);

#[verifier::external_type_specification]
#[verifier::external_body]
pub struct ExCannyError(CannyError);

/// Calls `fast_canny::CannyWorkspace::new`, which refuses images narrower or
/// lower than three pixels before allocating anything, and otherwise
/// allocates the buffers of a `width` by `height` workspace.
#[verifier::external_body]
fn workspace_new(width: usize, height: usize) -> (res: Result<CannyWorkspace, CannyError>)
    requires
        width >= 3 && height >= 3 ==> width * height * 4 <= isize::MAX,
    ensures
        (width >= 3 && height >= 3) <==> res is Ok,
{
    CannyWorkspace::new(width, height)
}

/// A Canny edge map of a `width` by `height` image as `fast_canny` returns
/// it: one byte per pixel, each 0 or 255, and 0 on the image's border.
pub open spec fn canny_map_ok(edges: Seq<u8>, width: int, height: int) -> bool {
    &&& edges.len() == width * height
    &&& forall|i: int| 0 <= i < edges.len() ==> #[trigger] edges[i] == 0 || edges[i] == 255
    &&& forall|x: int, y: int| in_image(x, y, width, height) && (x == 0 || y == 0 || x == width - 1
        || y == height - 1) ==> #[trigger] px(edges, width, x, y) == 0
}

/// The radius of the closing for an image whose longer side is `long_edge`:
/// 1 up to 512 pixels, 2 up to 1024, 3 beyond.
pub open spec fn morph_radius_spec(width: int, height: int) -> int {
    let long_edge = if width >= height { width } else { height };
    if long_edge <= 512 { 1 } else if long_edge <= 1024 { 2 } else { 3 }
}

/// The number of edge pixels (value 255) of row `y` in columns `x0..x1`.
pub open spec fn count_row(edges: Seq<u8>, w: int, y: int, x0: int, x1: int) -> int
    decreases x1 - x0,
{
    if x1 <= x0 {
        0
    } else {
        count_row(edges, w, y, x0, x1 - 1) + if px(edges, w, x1 - 1, y) == 255 { 1int } else { 0int }
    }
}

/// The number of edge pixels in columns `x0..x1` of rows `y0..y1`.
pub open spec fn count_rect(edges: Seq<u8>, w: int, x0: int, x1: int, y0: int, y1: int) -> int
    decreases y1 - y0,
{
    if y1 <= y0 {
        0
    } else {
        count_rect(edges, w, x0, x1, y0, y1 - 1) + count_row(edges, w, y1 - 1, x0, x1)
    }
}

/// The number of edge pixels in cell `(gx, gy)` of the image cut into a 4 by 4
/// grid of cells of `w / 4` by `h / 4` pixels.
pub open spec fn grid_cell_count(edges: Seq<u8>, w: int, h: int, gx: int, gy: int) -> int {
    let cw = w / 4;
    let ch = h / 4;
    let x1 = if (gx + 1) * cw < w { (gx + 1) * cw } else { w };
    let y1 = if (gy + 1) * ch < h { (gy + 1) * ch } else { h };
    count_rect(edges, w, gx * cw, x1, gy * ch, y1)
}

proof fn lemma_count_row_bound(edges: Seq<u8>, w: int, y: int, x0: int, x1: int)
    requires
        x0 <= x1,
    ensures
        0 <= count_row(edges, w, y, x0, x1) <= x1 - x0,
    decreases x1 - x0,
{
    if x1 > x0 {
        lemma_count_row_bound(edges, w, y, x0, x1 - 1);
    }
}

proof fn lemma_count_rect_bound(edges: Seq<u8>, w: int, x0: int, x1: int, y0: int, y1: int)
    requires
        x0 <= x1,
        y0 <= y1,
    ensures
        0 <= count_rect(edges, w, x0, x1, y0, y1) <= (y1 - y0) * (x1 - x0),
    decreases y1 - y0,
{
    if y1 > y0 {
        lemma_count_rect_bound(edges, w, x0, x1, y0, y1 - 1);
        lemma_count_row_bound(edges, w, y1 - 1, x0, x1);
        assert((y1 - 1 - y0) * (x1 - x0) + (x1 - x0) == (y1 - y0) * (x1 - x0)) by (nonlinear_arith);
        assert(0 <= (y1 - 1 - y0) * (x1 - x0)) by (nonlinear_arith)
            requires y1 - 1 - y0 >= 0, x1 - x0 >= 0;
    }
}

/// Canny edge detection followed by a morphological closing, with a
/// workspace allocated once for one image size.
pub struct EdgeDetector {
    workspace: CannyWorkspace,
    width: usize,
    height: usize,
}

impl EdgeDetector {
    /// The detector's sizes allow a workspace and every closing radius it uses.
    #[verifier::type_invariant]
    spec fn inv(self) -> bool {
        &&& self.width >= 3
        &&& self.height >= 3
        &&& self.width * self.height * 4 <= isize::MAX
    }

    /// The width of the images that the detector takes.
    pub closed spec fn frame_width(&self) -> usize {
        self.width
    }

    /// The height of the images that the detector takes.
    pub closed spec fn frame_height(&self) -> usize {
        self.height
    }

    /// Calls `fast_canny::canny_u8` on the detector's workspace and copies the
    /// edge map out. The workspace was made for `width` by `height` images, so
    /// the call refuses an input of any other length; an edge map that it
    /// returns holds one byte per pixel, each 0 or 255, and 0 on the border
    /// (its hysteresis step clears the border). Which pixels are edges depends
    /// on the configuration and on the SIMD kernel chosen at run time, and is
    /// left unsaid, as is when the configuration itself is refused. Its
    /// Gaussian step passes both sides to `libblur` as `u32` and panics on the
    /// error that a side truncated to zero gives, so both sides must fit in
    /// `u32`; it also asks the configuration's sigma, which this library does
    /// not see, to be finite (the builders in this crate's users pass 1.0 or 0.5).
    #[verifier::external_body]
    fn canny_on(&mut self, input: &[u8], cfg: &CannyConfig) -> (res: Result<Vec<u8>, CannyError>)
        requires
            old(self).frame_width() <= u32::MAX,
            old(self).frame_height() <= u32::MAX,
        ensures
            final(self).frame_width() == old(self).frame_width(),
            final(self).frame_height() == old(self).frame_height(),
            input@.len() != old(self).frame_width() * old(self).frame_height() ==> res is Err,
            res matches Ok(edges) ==> canny_map_ok(edges@, old(self).frame_width() as int,
                old(self).frame_height() as int),
    {
        fast_canny::canny_u8(input, &mut self.workspace, cfg).map(|edges| edges.to_vec())
    }

    /// Allocates a detector for `width` by `height` images; fails with
    /// `EdgeDetectionError` when either side is under three pixels.
    pub fn new(width: usize, height: usize) -> (res: Result<Self, DocQuadError>)
        requires
            width >= 3 && height >= 3 ==> width * height * 4 <= isize::MAX,
        ensures
            res is Ok <==> width >= 3 && height >= 3,
            res matches Ok(d) ==> d.frame_width() == width && d.frame_height() == height,
            res matches Err(e) ==> e is EdgeDetectionError,
    {
        match workspace_new(width, height) {
            Ok(workspace) => Ok(EdgeDetector { workspace, width, height }),
            Err(_) => Err(DocQuadError::EdgeDetectionError),
        }
    }

    /// The closing radius for an image: 1 when its longer side is at most 512
    /// pixels, 2 up to 1024, 3 beyond.
    pub fn choose_morph_radius(width: usize, height: usize) -> (radius: usize)
        ensures
            radius == morph_radius_spec(width as int, height as int),
    {
        let long_edge = if width >= height { width } else { height };
        if long_edge <= 512 {
            1
        } else if long_edge <= 1024 {
            2
        } else {
            3
        }
    }

    /// Closes a raw edge map with the radius chosen for its size.
    pub fn refine_edges(raw: &[u8], width: usize, height: usize) -> (edges: Vec<u8>)
        requires
            raw@.len() >= width * height,
            width * height <= isize::MAX,
            width + 6 < isize::MAX,
            height + 6 < isize::MAX,
        ensures
            edges@ == close_spec(raw@, width as int, height as int, morph_radius_spec(width as int, height as int)),
    {
        let radius = Self::choose_morph_radius(width, height);
        Morphology::close(raw, width, height, radius)
    }

    /// The width of the images that the detector takes (at least three).
    pub fn width(&self) -> (w: usize)
        ensures
            w == self.frame_width(),
            w >= 3,
    {
        proof {
            use_type_invariant(self);
        }
        self.width
    }

    /// The height of the images that the detector takes (at least three).
    pub fn height(&self) -> (h: usize)
        ensures
            h == self.frame_height(),
            h >= 3,
    {
        proof {
            use_type_invariant(self);
        }
        self.height
    }

    /// Runs Canny with `cfg` on a compact image of the detector's size. Fails
    /// with `EdgeDetectionError` when the input has another length or when
    /// Canny refuses the configuration.
    pub fn run_canny(&mut self, input: &[u8], cfg: &CannyConfig) -> (res: Result<Vec<u8>, DocQuadError>)
        requires
            old(self).frame_width() <= u32::MAX,
            old(self).frame_height() <= u32::MAX,
        ensures
            final(self).frame_width() == old(self).frame_width(),
            final(self).frame_height() == old(self).frame_height(),
            input@.len() != old(self).frame_width() * old(self).frame_height() ==> res is Err,
            res matches Err(e) ==> e is EdgeDetectionError,
            res matches Ok(edges) ==> canny_map_ok(edges@, old(self).frame_width() as int,
                old(self).frame_height() as int),
    {
        match self.canny_on(input, cfg) {
            Ok(edges) => Ok(edges),
            Err(_) => Err(DocQuadError::EdgeDetectionError),
        }
    }

    /// The number of edge pixels (255) in each cell of the image cut into a
    /// 4 by 4 grid of cells of `width / 4` by `height / 4` pixels, row by row;
    /// pixels beyond the last whole cell are not counted.
    pub fn edge_grid_counts(edges: &[u8], width: usize, height: usize) -> (counts: Vec<usize>)
        requires
            edges@.len() >= width * height,
        ensures
            counts@.len() == 16,
            forall|gy: int, gx: int| 0 <= gx < 4 && 0 <= gy < 4 ==> #[trigger] counts@[gy * 4 + gx]
                == grid_cell_count(edges@, width as int, height as int, gx, gy),
    {
        let ghost w = width as int;
        let ghost h = height as int;
        let n = edges.len();
        let cell_w = width / 4;
        let cell_h = height / 4;
        let mut counts: Vec<usize> = Vec::new();
        let mut gy: usize = 0;
        while gy < 4
            invariant
                edges@.len() >= width * height,
                n == edges@.len(),
                w == width, h == height,
                cell_w == w / 4, cell_h == h / 4,
                gy <= 4,
                counts@.len() == gy * 4,
                forall|cy: int, cx: int| 0 <= cx < 4 && 0 <= cy < gy ==> #[trigger] counts@[cy * 4 + cx]
                    == grid_cell_count(edges@, w, h, cx, cy),
            decreases 4 - gy,
        {
            let mut gx: usize = 0;
            while gx < 4
                invariant
                    edges@.len() >= width * height,
                    n == edges@.len(),
                    w == width, h == height,
                    cell_w == w / 4, cell_h == h / 4,
                    gy < 4,
                    gx <= 4,
                    counts@.len() == gy * 4 + gx,
                    forall|cy: int, cx: int| 0 <= cx < 4 && 0 <= cy < gy ==> #[trigger] counts@[cy * 4 + cx]
                        == grid_cell_count(edges@, w, h, cx, cy),
                    forall|cx: int| 0 <= cx < gx ==> #[trigger] counts@[gy * 4 + cx]
                        == grid_cell_count(edges@, w, h, cx, gy as int),
                decreases 4 - gx,
            {
                proof {
                    assert(gx * cell_w <= width && (gx + 1) * cell_w <= width) by (nonlinear_arith)
                        requires gx < 4, cell_w == width / 4;
                    assert(gy * cell_h <= height && (gy + 1) * cell_h <= height) by (nonlinear_arith)
                        requires gy < 4, cell_h == height / 4;
                    assert(gx * cell_w <= (gx + 1) * cell_w) by (nonlinear_arith);
                    assert(gy * cell_h <= (gy + 1) * cell_h) by (nonlinear_arith);
                }
                let x0 = gx * cell_w;
                let y0 = gy * cell_h;
                let x1 = if (gx + 1) * cell_w < width { (gx + 1) * cell_w } else { width };
                let y1 = if (gy + 1) * cell_h < height { (gy + 1) * cell_h } else { height };
                let mut count: usize = 0;
                let mut y = y0;
                while y < y1
                    invariant
                        edges@.len() >= width * height,
                        n == edges@.len(),
                        w == width, h == height,
                        x0 <= x1 <= width, y0 <= y <= y1, y1 <= height,
                        count == count_rect(edges@, w, x0 as int, x1 as int, y0 as int, y as int),
                        count <= (y - y0) * (x1 - x0),
                    decreases y1 - y,
                {
                    let mut x = x0;
                    proof {
                        assert((y - y0) * (x1 - x0) + (x1 - x0) <= height * width) by (nonlinear_arith)
                            requires y0 <= y < y1 <= height, x0 <= x1 <= width;
                        assert((y - y0) * (x1 - x0) + (x1 - x0) == (y + 1 - y0) * (x1 - x0)) by (nonlinear_arith);
                        assert(width * height == height * width) by (nonlinear_arith);
                    }
                    while x < x1
                        invariant
                            edges@.len() >= width * height,
                            n == edges@.len(),
                            w == width, h == height,
                            x0 <= x <= x1 <= width, y0 <= y < y1, y1 <= height,
                            count == count_rect(edges@, w, x0 as int, x1 as int, y0 as int, y as int)
                                + count_row(edges@, w, y as int, x0 as int, x as int),
                            count <= (y - y0) * (x1 - x0) + (x - x0),
                            (y - y0) * (x1 - x0) + (x1 - x0) <= width * height,
                        decreases x1 - x,
                    {
                        proof {
                            crate::grid::lemma_grid_index(x as int, y as int, w, h);
                        }
                        if edges[y * width + x] == 255 {
                            count += 1;
                        }
                        x += 1;
                    }
                    y += 1;
                }
                counts.push(count);
                gx += 1;
            }
            gy += 1;
        }
        counts
    }

    /// Detects the edges of an image of the detector's size: compacts its
    /// rows, runs Canny with `cfg`, and closes the result. Fails with
    /// `EdgeDetectionError` when the image has another number of pixels or
    /// when Canny refuses the configuration.
    pub fn detect(&mut self, buffer: &DocBuffer, cfg: &CannyConfig) -> (res: Result<Vec<u8>, DocQuadError>)
        requires
            buffer.wf(),
            old(self).frame_width() <= u32::MAX,
            old(self).frame_height() <= u32::MAX,
        ensures
            final(self).frame_width() == old(self).frame_width(),
            final(self).frame_height() == old(self).frame_height(),
            buffer.width * buffer.height != old(self).frame_width() * old(self).frame_height() ==> res is Err,
            res matches Err(e) ==> e is EdgeDetectionError,
            res matches Ok(edges) ==> exists|raw: Seq<u8>| {
                &&& canny_map_ok(raw, old(self).frame_width() as int, old(self).frame_height() as int)
                &&& edges@ == close_spec(raw, old(self).frame_width() as int, old(self).frame_height() as int,
                    morph_radius_spec(old(self).frame_width() as int, old(self).frame_height() as int))
            },
    {
        proof {
            use_type_invariant(&*self);
        }
        let input = buffer.compact();
        let raw = match self.run_canny(input.as_slice(), cfg) {
            Ok(raw) => raw,
            Err(e) => {
                return Err(e);
            },
        };
        proof {
            use_type_invariant(&*self);
            assert(self.width <= self.width * self.height) by (nonlinear_arith)
                requires self.height >= 3;
            assert(self.height <= self.width * self.height) by (nonlinear_arith)
                requires self.width >= 3;
        }
        let edges = Self::refine_edges(raw.as_slice(), self.width, self.height);
        Ok(edges)
    }
}

} // verus!
