use doc_quad::document::{find_quad, passes_prefilter};
use doc_quad::geom::point::Point;
use doc_quad::memory::buffer::DocBuffer;
use doc_quad::DocQuadError;

fn outline(edges: &mut [u8], w: usize, x0: usize, y0: usize, x1: usize, y1: usize) {
    for x in x0..=x1 {
        edges[y0 * w + x] = 255;
        edges[y1 * w + x] = 255;
    }
    for y in y0..=y1 {
        edges[y * w + x0] = 255;
        edges[y * w + x1] = 255;
    }
}

#[test]
fn find_quad_keeps_the_largest_rectangle() {
    let (w, h) = (100usize, 80usize);
    let mut edges = vec![0u8; w * h];
    outline(&mut edges, w, 10, 10, 60, 50);
    outline(&mut edges, w, 70, 20, 90, 40);
    let q = find_quad(&edges, w as u32, h as u32).expect("a rectangle");
    assert_eq!(q.points, [Point::new(10, 10), Point::new(60, 10), Point::new(60, 50), Point::new(10, 50)]);
    assert_eq!(q.area2, 2 * 50 * 40);
}

#[test]
fn find_quad_ignores_small_outlines() {
    let (w, h) = (100usize, 80usize);
    let mut edges = vec![0u8; w * h];
    outline(&mut edges, w, 10, 10, 14, 13);
    assert!(find_quad(&edges, w as u32, h as u32).is_none());
    assert!(find_quad(&vec![0u8; w * h], w as u32, h as u32).is_none());
}

#[test]
fn prefilter_rules() {
    let square: Vec<Point> = vec![Point::new(10, 10), Point::new(60, 10), Point::new(60, 50), Point::new(10, 50)];
    // A perimeter of 180 pixels on a 100-pixel side, and a box of 2000 of 8000 pixels.
    assert!(passes_prefilter(&square, 100, 80));
    assert!(passes_prefilter(&square, 200, 80));
    // A thin strip with a perimeter of 204 pixels: long enough beside a
    // 6000-pixel side (3/100 of it is 180), too short beside a 10000-pixel one.
    let strip: Vec<Point> = vec![Point::new(0, 0), Point::new(100, 0), Point::new(100, 2), Point::new(0, 2)];
    assert!(passes_prefilter(&strip, 6000, 3));
    assert!(!passes_prefilter(&strip, 10000, 3));
    // Three points are too few.
    assert!(!passes_prefilter(&square[..3], 100, 80));
    // A box covering more than 99/100 of the image is too large.
    let mut full: Vec<Point> = Vec::new();
    for i in 0..10 {
        full.push(Point::new(i * 111, 0));
    }
    full.push(Point::new(999, 999));
    full.push(Point::new(0, 999));
    for _ in 0..30 {
        full.push(Point::new(0, 500));
    }
    assert!(!passes_prefilter(&full, 1000, 1000));
    assert!(passes_prefilter(&full, 1010, 1010));
    // A box under 1/200 of the image is too small.
    let tiny: Vec<Point> = vec![Point::new(0, 0), Point::new(1, 0), Point::new(1, 1), Point::new(0, 1)];
    assert!(!passes_prefilter(&tiny, 100, 80));
}

#[test]
fn buffer_errors_and_layouts() {
    let data = vec![0u8; 30];
    assert!(matches!(DocBuffer::new(&data, 5, 6, 4), Err(DocQuadError::InvalidBuffer)));
    assert!(matches!(DocBuffer::new(&data, 5, 6, 6), Err(DocQuadError::InvalidBuffer)));
    let b = DocBuffer::new(&data, 5, 6, 5).unwrap();
    assert_eq!((b.width, b.height, b.stride), (5, 6, 5));
    assert!(DocBuffer::new(&data, 5, 0, 1000).is_ok());
    assert!(matches!(DocBuffer::new(&data, 1, u32::MAX, u32::MAX), Err(DocQuadError::InvalidBuffer)));
}

#[test]
fn compact_drops_row_padding() {
    let data: Vec<u8> = (0..12).collect();
    let b = DocBuffer::new(&data, 3, 3, 4).unwrap();
    assert_eq!(b.compact(), vec![0, 1, 2, 4, 5, 6, 8, 9, 10]);
}
