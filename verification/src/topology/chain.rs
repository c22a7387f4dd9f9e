use vstd::prelude::*;
use crate::grid::{px, in_image, lemma_grid_index};

verus! {

/// Column offset of Freeman chain direction `d` (0 = right, then clockwise in
/// image coordinates: 1 = down-right, 2 = down, 3 = down-left, 4 = left,
/// 5 = up-left, 6 = up, 7 = up-right).
pub open spec fn dir_dx(d: int) -> int {
    if d == 0 || d == 1 || d == 7 { 1 } else if d == 3 || d == 4 || d == 5 { -1 } else { 0 }
}

/// Row offset of Freeman chain direction `d`.
pub open spec fn dir_dy(d: int) -> int {
    if d == 1 || d == 2 || d == 3 { 1 } else if d == 5 || d == 6 || d == 7 { -1 } else { 0 }
}

/// The neighbour of `(cx, cy)` in direction `d` lies in the image and is an edge pixel.
pub open spec fn neighbor_is_edge(edges: Seq<u8>, w: int, h: int, cx: int, cy: int, d: int) -> bool {
    in_image(cx + dir_dx(d), cy + dir_dy(d), w, h)
        && px(edges, w, cx + dir_dx(d), cy + dir_dy(d)) != 0
}

/// The first edge neighbour of `(cx, cy)` met when turning clockwise from
/// direction `(start + step) % 8`, trying the directions that remain of the eight.
pub open spec fn next_pixel_from(edges: Seq<u8>, w: int, h: int, cx: int, cy: int, start: int, step: int)
    -> Option<(u32, u32, u8)>
    decreases 8 - step,
{
    if step >= 8 {
        None
    } else {
        let d = (start + step) % 8;
        if neighbor_is_edge(edges, w, h, cx, cy, d) {
            Some(((cx + dir_dx(d)) as u32, (cy + dir_dy(d)) as u32, d as u8))
        } else {
            next_pixel_from(edges, w, h, cx, cy, start, step + 1)
        }
    }
}

/// The first edge neighbour of `(cx, cy)` clockwise from `start`, with its direction.
pub open spec fn next_pixel(edges: Seq<u8>, w: int, h: int, cx: int, cy: int, start: int) -> Option<(u32, u32, u8)> {
    next_pixel_from(edges, w, h, cx, cy, start, 0)
}

/// Sizes and positions for which the neighbour search computes without overflow.
pub open spec fn chain_dims_ok(len: int, width: u32, height: u32) -> bool {
    &&& width * height <= len
    &&& width * height <= i32::MAX
    &&& width <= i32::MAX
    &&& height <= i32::MAX
}

/// The direction opposite to `dir`.
pub fn reverse_dir(dir: u8) -> (r: u8)
    requires
        dir <= 251,
    ensures
        r == (dir + 4) % 8,
{
    (dir + 4) % 8
}

/// The column and row offsets of chain direction `d`.
fn dir_delta(d: u8) -> (delta: (i32, i32))
    requires
        d < 8,
    ensures
        delta.0 == dir_dx(d as int),
        delta.1 == dir_dy(d as int),
{
    match d {
        0 => (1, 0),
        1 => (1, 1),
        2 => (0, 1),
        3 => (-1, 1),
        4 => (-1, 0),
        5 => (-1, -1),
        6 => (0, -1),
        _ => (1, -1),
    }
}

/// Searches the 8-neighbourhood of `(cx, cy)` clockwise, starting at
/// `start_dir`, for an edge pixel inside the image; returns its position and
/// direction. Neighbours outside the image count as background.
pub fn find_next_pixel(edges: &[u8], width: u32, height: u32, cx: u32, cy: u32, start_dir: u8)
    -> (res: Option<(u32, u32, u8)>)
    requires
        chain_dims_ok(edges@.len() as int, width, height),
        cx < i32::MAX,
        cy < i32::MAX,
        start_dir <= 248,
    ensures
        res == next_pixel(edges@, width as int, height as int, cx as int, cy as int, start_dir as int),
{
    let x = cx as i32;
    let y = cy as i32;
    let w = width as i32;
    let h = height as i32;
    let mut step: u8 = 0;
    while step < 8
        invariant
            chain_dims_ok(edges@.len() as int, width, height),
            x == cx, y == cy, w == width, h == height,
            cx < i32::MAX,
            cy < i32::MAX,
            width <= i32::MAX,
            height <= i32::MAX,
            start_dir <= 248,
            step <= 8,
            next_pixel(edges@, w as int, h as int, x as int, y as int, start_dir as int)
                == next_pixel_from(edges@, w as int, h as int, x as int, y as int, start_dir as int, step as int),
        decreases 8 - step,
    {
        let current_dir = (start_dir + step) % 8;
        let (ddx, ddy) = dir_delta(current_dir);
        let nx = x + ddx;
        let ny = y + ddy;
        if nx >= 0 && nx < w && ny >= 0 && ny < h {
            proof {
                lemma_grid_index(nx as int, ny as int, w as int, h as int);
            }
            let idx = (ny * w + nx) as usize;
            if edges[idx] != 0 {
                return Some((nx as u32, ny as u32, current_dir));
            }
        }
        step += 1;
    }
    None
}

/// Turning twice gives the direction back.
pub proof fn lemma_reverse_involutive(d: u8)
    requires
        d < 8,
    ensures
        ((((d + 4) % 8) as u8) + 4) % 8 == d,
        (d + 4) % 8 != d,
{
}

/// A neighbour that the search finds lies in the image, is an edge pixel, and
/// lies one step from `(cx, cy)` in the direction returned.
pub proof fn lemma_next_pixel_is_edge(edges: Seq<u8>, w: int, h: int, cx: int, cy: int, start: int, step: int)
    requires
        0 <= start,
        0 <= step,
        0 <= cx < i32::MAX,
        0 <= cy < i32::MAX,
    ensures
        next_pixel_from(edges, w, h, cx, cy, start, step) matches Some((nx, ny, d)) ==> {
            &&& d < 8
            &&& nx as int == cx + dir_dx(d as int)
            &&& ny as int == cy + dir_dy(d as int)
            &&& in_image(nx as int, ny as int, w, h)
            &&& px(edges, w, nx as int, ny as int) != 0
        },
    decreases 8 - step,
{
    if step < 8 {
        lemma_next_pixel_is_edge(edges, w, h, cx, cy, start, step + 1);
    }
}

} // verus!
