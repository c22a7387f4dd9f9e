use vstd::prelude::*;
use crate::error::DocQuadError;
use crate::grid::{lemma_grid_index, lemma_grid_coords};

verus! {

/// A grey-scale image held in a byte slice whose rows may carry padding:
/// pixel `(x, y)` is `data[y * stride + x]`.
pub struct DocBuffer<'a> {
    /// The raw luminance bytes.
    pub data: &'a [u8],
    /// Width of the image in pixels.
    pub width: u32,
    /// Height of the image in pixels.
    pub height: u32,
    /// Bytes per row, padding included (`stride >= width`).
    pub stride: u32,
}

/// Whether a byte slice of length `len` can hold an image of the given layout.
pub open spec fn layout_ok(len: int, width: u32, height: u32, stride: u32) -> bool {
    &&& stride >= width
    &&& height * stride <= len
}

impl<'a> DocBuffer<'a> {
    /// The buffer's layout fits its data.
    pub open spec fn wf(&self) -> bool {
        layout_ok(self.data@.len() as int, self.width, self.height, self.stride)
    }

    /// Pixel `(x, y)` of the image.
    pub open spec fn pixel(&self, x: int, y: int) -> u8 {
        self.data@[y * self.stride + x]
    }

    /// Creates a buffer after checking its layout.
    pub fn new(data: &'a [u8], width: u32, height: u32, stride: u32) -> (res: Result<Self, DocQuadError>)
        ensures
            res is Ok <==> layout_ok(data@.len() as int, width, height, stride),
            res matches Ok(b) ==> b.data@ == data@ && b.width == width && b.height == height
                && b.stride == stride,
            res matches Err(e) ==> e is InvalidBuffer,
    {
        let len = data.len();
        let required = (height as usize).checked_mul(stride as usize);
        match required {
            None => {
                Err(DocQuadError::InvalidBuffer)
            },
            Some(required) => {
                if stride < width || required > len {
                    Err(DocQuadError::InvalidBuffer)
                } else {
                    Ok(DocBuffer { data, width, height, stride })
                }
            },
        }
    }

    /// The image's pixels in row-major order, without row padding.
    pub open spec fn pixels(&self) -> Seq<u8> {
        Seq::new(
            (self.width * self.height) as nat,
            |i: int| self.data@[(i / self.width as int) * self.stride + i % self.width as int],
        )
    }

    /// Copies the image's pixels in row-major order, dropping the row padding.
    pub fn compact(&self) -> (out: Vec<u8>)
        requires
            self.wf(),
        ensures
            out@ == self.pixels(),
    {
        let ghost w = self.width as int;
        let ghost h = self.height as int;
        let ghost st = self.stride as int;
        proof {
            assert(h * w <= h * st) by (nonlinear_arith)
                requires h >= 0, w <= st;
            assert(w * h == h * w) by (nonlinear_arith);
        }
        let width = self.width as usize;
        let height = self.height as usize;
        let stride = self.stride as usize;
        let len = self.data.len();
        let mut out: Vec<u8> = Vec::new();
        let mut y: usize = 0;
        while y < height
            invariant
                self.wf(),
                w == width, h == height, st == stride,
                w == self.width, h == self.height, st == self.stride,
                len == self.data@.len(),
                y <= height,
                out@.len() == y * w,
                forall|i: int| 0 <= i < out@.len() ==> out@[i] == self.pixels()[i],
            decreases height - y,
        {
            let mut x: usize = 0;
            proof {
                assert(y * st + st <= h * st) by (nonlinear_arith)
                    requires y < h, st >= 0;
            }
            let row = y * stride;
            while x < width
                invariant
                    self.wf(),
                    w == width, h == height, st == stride,
                    w == self.width, h == self.height, st == self.stride,
                    len == self.data@.len(),
                    y < height,
                    row == y * st,
                    y * st + st <= h * st,
                    x <= width,
                    out@.len() == y * w + x,
                    forall|i: int| 0 <= i < out@.len() ==> out@[i] == self.pixels()[i],
                decreases width - x,
            {
                proof {
                    lemma_grid_index(x as int, y as int, w, h);
                }
                out.push(self.data[row + x]);
                x += 1;
            }
            assert(y * w + w == (y + 1) * w) by (nonlinear_arith);
            y += 1;
        }
        assert(out@ =~= self.pixels());
        out
    }
}

/// The compacted pixels hold pixel `(x, y)` of the image at index `y * width + x`,
/// whatever the row padding.
pub proof fn lemma_pixels_index(b: DocBuffer, x: int, y: int)
    requires
        0 <= x < b.width,
        0 <= y < b.height,
    ensures
        0 <= y * b.width + x < b.pixels().len(),
        b.pixels()[y * b.width + x] == b.pixel(x, y),
{
    lemma_grid_index(x, y, b.width as int, b.height as int);
}

} // verus!
