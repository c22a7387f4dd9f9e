use doc_quad::geom::point::Point;
use doc_quad::topology::chain::{find_next_pixel, reverse_dir};
use doc_quad::topology::contour::ContourExtractor;

#[test]
fn reverse_dir_turns_half_way() {
    assert_eq!(reverse_dir(0), 4);
    assert_eq!(reverse_dir(3), 7);
    assert_eq!(reverse_dir(4), 0);
    assert_eq!(reverse_dir(7), 3);
    for d in 0..8u8 {
        assert_eq!(reverse_dir(reverse_dir(d)), d);
    }
}

#[test]
fn find_next_pixel_searches_clockwise_from_start() {
    // 3x3 image with edges to the right of and below the centre.
    let mut edges = vec![0u8; 9];
    edges[1 * 3 + 2] = 255; // (2, 1): direction 0
    edges[2 * 3 + 1] = 255; // (1, 2): direction 2
    assert_eq!(find_next_pixel(&edges, 3, 3, 1, 1, 0), Some((2, 1, 0)));
    assert_eq!(find_next_pixel(&edges, 3, 3, 1, 1, 1), Some((1, 2, 2)));
    assert_eq!(find_next_pixel(&edges, 3, 3, 1, 1, 3), Some((2, 1, 0)));
}

#[test]
fn find_next_pixel_treats_outside_as_background() {
    let mut edges = vec![0u8; 4];
    edges[0] = 255;
    // From the corner (0, 0) every neighbour but (1, 0), (1, 1), (0, 1) is outside.
    assert_eq!(find_next_pixel(&edges, 2, 2, 0, 0, 0), None);
    edges[3] = 255;
    assert_eq!(find_next_pixel(&edges, 2, 2, 0, 0, 5), Some((1, 1, 1)));
}

#[test]
fn extract_traces_a_square_outline() {
    let (w, h) = (8u32, 8u32);
    let mut edges = vec![0u8; 64];
    for i in 2..6u32 {
        edges[(2 * w + i) as usize] = 255;
        edges[(5 * w + i) as usize] = 255;
        edges[(i * w + 2) as usize] = 255;
        edges[(i * w + 5) as usize] = 255;
    }
    let contours = ContourExtractor::extract(&edges, w, h);
    assert_eq!(contours.len(), 1);
    let c = &contours[0];
    assert!(c.len() >= 4);
    assert_eq!(c[0], Point::new(2, 2));
    for q in c.iter() {
        assert!(edges[(q.y as u32 * w + q.x as u32) as usize] != 0);
    }
    assert!(c.contains(&Point::new(5, 2)));
    assert!(c.contains(&Point::new(5, 5)));
    assert!(c.contains(&Point::new(2, 5)));
}

#[test]
fn extract_drops_short_traces_and_empty_maps() {
    assert!(ContourExtractor::extract(&vec![0u8; 25], 5, 5).is_empty());
    let mut edges = vec![0u8; 25];
    edges[12] = 255;
    assert!(ContourExtractor::extract(&edges, 5, 5).is_empty());
}
