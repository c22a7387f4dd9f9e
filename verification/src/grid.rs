use vstd::prelude::*;

verus! {

/// Pixel `(x, y)` of a row-major image of width `w`.
pub open spec fn px(img: Seq<u8>, w: int, x: int, y: int) -> u8 {
    img[y * w + x]
}

/// `(x, y)` lies inside a `w` by `h` image.
pub open spec fn in_image(x: int, y: int, w: int, h: int) -> bool {
    0 <= x < w && 0 <= y < h
}

/// The row-major index of `(x, y)` lies in the image, and the image's
/// column and row of that index are `x` and `y` again.
pub proof fn lemma_grid_index(x: int, y: int, w: int, h: int)
    requires
        in_image(x, y, w, h),
    ensures
        0 <= y * w + x < w * h,
        (y * w + x) % w == x,
        (y * w + x) / w == y,
{
    assert(0 <= y * w) by (nonlinear_arith)
        requires
            0 <= y,
            0 <= w,
    ;
    assert(y * w + x < w * h) by (nonlinear_arith)
        requires
            0 <= x < w,
            0 <= y < h,
    ;
    vstd::arithmetic::div_mod::lemma_fundamental_div_mod_converse(y * w + x, w, y, x);
}

/// Every index of a `w` by `h` image is the row-major index of a pixel.
pub proof fn lemma_grid_coords(i: int, w: int, h: int)
    requires
        0 <= i < w * h,
        w > 0,
    ensures
        in_image(i % w, i / w, w, h),
        i == (i / w) * w + i % w,
{
    assert(h > 0) by (nonlinear_arith)
        requires
            0 <= i < w * h,
            w > 0,
    ;
    vstd::arithmetic::div_mod::lemma_fundamental_div_mod(i, w);
    vstd::arithmetic::div_mod::lemma_mod_bound(i, w);
    assert(0 <= i / w) by {
        vstd::arithmetic::div_mod::lemma_div_pos_is_pos(i, w);
    }
    assert(i / w < h) by {
        vstd::arithmetic::mul::lemma_mul_is_commutative(w, h);
        vstd::arithmetic::div_mod::lemma_div_by_multiple_is_strongly_ordered(i, w * h, h, w);
        vstd::arithmetic::div_mod::lemma_div_by_multiple(h, w);
    }
    vstd::arithmetic::mul::lemma_mul_is_commutative(w, i / w);
}

} // verus!
