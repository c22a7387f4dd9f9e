use doc_quad::geom::point::Point;
use doc_quad::geom::simplify::GeometrySimplifier;
use doc_quad::geom::transform::Transformer;
use doc_quad::geom::validate::GeometryValidator;

fn p(x: i64, y: i64) -> Point {
    Point::new(x, y)
}

#[test]
fn triangle_area_is_doubled_and_exact() {
    assert_eq!(GeometrySimplifier::double_triangle_area(p(0, 0), p(4, 0), p(0, 3)), 12);
    assert_eq!(GeometrySimplifier::double_triangle_area(p(0, 0), p(0, 3), p(4, 0)), 12);
    assert_eq!(GeometrySimplifier::double_triangle_area(p(0, 0), p(1, 1), p(2, 2)), 0);
}

#[test]
fn simplify_rejects_short_contours() {
    assert!(GeometrySimplifier::simplify_to_quad(&[p(0, 0), p(1, 0), p(1, 1)]).is_none());
    // Four points, but only three distinct after dropping repeats.
    assert!(GeometrySimplifier::simplify_to_quad(&[p(0, 0), p(0, 0), p(5, 0), p(5, 5)]).is_none());
    // Four distinct points whose last closes the contour leave a triangle.
    assert!(GeometrySimplifier::simplify_to_quad(&[p(0, 0), p(5, 0), p(5, 5), p(0, 0)]).is_none());
}

#[test]
fn simplify_keeps_a_quadrilateral_and_closes_it() {
    let (q, closed) = GeometrySimplifier::simplify_to_quad(&[p(0, 0), p(10, 0), p(10, 10), p(0, 10)]).unwrap();
    assert!(closed);
    assert_eq!(q, vec![p(0, 0), p(10, 0), p(10, 10), p(0, 10), p(0, 0)]);
}

#[test]
fn simplify_drops_the_flattest_vertices() {
    // A square with points on its edges and a slight bump; the corners survive.
    let contour = [
        p(0, 0), p(5, 0), p(10, 0), p(10, 5), p(11, 7), p(10, 10), p(5, 10), p(0, 10), p(0, 5), p(0, 0),
    ];
    let (q, _) = GeometrySimplifier::simplify_to_quad(&contour).unwrap();
    assert_eq!(q, vec![p(0, 0), p(10, 0), p(10, 10), p(0, 10), p(0, 0)]);
}

#[test]
fn simplify_removes_the_first_of_equal_smallest_triangles() {
    // Every vertex of this pentagon's collinear run has area 0; the first (index 1) goes.
    let contour = [p(0, 0), p(5, 0), p(10, 0), p(10, 10), p(0, 10)];
    let (q, _) = GeometrySimplifier::simplify_to_quad(&contour).unwrap();
    assert_eq!(q, vec![p(0, 0), p(10, 0), p(10, 10), p(0, 10), p(0, 0)]);
}

#[test]
fn validate_scores_a_convex_quadrilateral() {
    let quad = (vec![p(0, 0), p(10, 0), p(10, 6), p(0, 6), p(0, 0)], true);
    let (area2, pts) = GeometryValidator::validate_and_score(&quad).unwrap();
    assert_eq!(area2, 120);
    assert_eq!(pts, [p(0, 0), p(10, 0), p(10, 6), p(0, 6)]);
    // The same quadrilateral in the other orientation.
    let quad = (vec![p(0, 0), p(0, 6), p(10, 6), p(10, 0), p(0, 0)], true);
    assert_eq!(GeometryValidator::validate_and_score(&quad).unwrap().0, 120);
}

#[test]
fn validate_rejects_open_short_degenerate_and_concave() {
    assert!(GeometryValidator::validate_and_score(&(vec![p(0, 0), p(10, 0), p(10, 6), p(0, 6), p(0, 0)], false)).is_none());
    assert!(GeometryValidator::validate_and_score(&(vec![p(0, 0), p(10, 0), p(10, 6), p(0, 0)], true)).is_none());
    // Collinear corner.
    assert!(GeometryValidator::validate_and_score(&(vec![p(0, 0), p(5, 0), p(10, 0), p(0, 6), p(0, 0)], true)).is_none());
    // Concave (dart).
    assert!(GeometryValidator::validate_and_score(&(vec![p(0, 0), p(10, 0), p(3, 3), p(0, 10), p(0, 0)], true)).is_none());
    // Self-intersecting (bow tie).
    assert!(GeometryValidator::validate_and_score(&(vec![p(0, 0), p(10, 10), p(10, 0), p(0, 10), p(0, 0)], true)).is_none());
}

#[test]
fn cross_product_and_polygon_area() {
    assert_eq!(GeometryValidator::cross_product(p(0, 0), p(10, 0), p(10, 6)), 60);
    assert_eq!(GeometryValidator::cross_product(p(0, 0), p(10, 0), p(20, 0)), 0);
    assert_eq!(GeometryValidator::polygon_area(&[p(0, 0), p(4, 0), p(4, 3), p(0, 3)]), 24);
    // Twice the area of a trapezoid: bases 10 and 4, height 5.
    assert_eq!(GeometryValidator::polygon_area(&[p(0, 0), p(10, 0), p(7, 5), p(3, 5)]), 70);
}

#[test]
fn sort_points_orders_corners_from_top_left_clockwise() {
    let tl = p(100, 100);
    let tr = p(400, 110);
    let br = p(390, 300);
    let bl = p(95, 290);
    for input in [[tl, tr, br, bl], [br, tl, bl, tr], [bl, br, tr, tl], [tr, bl, tl, br]] {
        assert_eq!(Transformer::sort_points(input), [tl, tr, br, bl]);
    }
}

#[test]
fn sort_points_keeps_the_points() {
    let input = [p(3, 9), p(0, 0), p(9, 1), p(8, 8)];
    let mut out = Transformer::sort_points(input).to_vec();
    let mut expected = input.to_vec();
    out.sort_by_key(|q| (q.x, q.y));
    expected.sort_by_key(|q| (q.x, q.y));
    assert_eq!(out, expected);
}

#[test]
fn sort_points_ignores_the_input_order() {
    let pts = [p(12, 40), p(3, 2), p(50, 7), p(44, 35)];
    let expected = Transformer::sort_points(pts);
    let perms = [[0, 1, 2, 3], [3, 2, 1, 0], [1, 3, 0, 2], [2, 0, 3, 1], [0, 2, 1, 3], [3, 0, 2, 1]];
    for perm in perms {
        let q = [pts[perm[0]], pts[perm[1]], pts[perm[2]], pts[perm[3]]];
        assert_eq!(Transformer::sort_points(q), expected);
    }
    assert_eq!(expected, [p(3, 2), p(50, 7), p(44, 35), p(12, 40)]);
}

fn turn(a: Point, b: Point, c: Point) -> i64 {
    (b.x - a.x) * (c.y - b.y) - (b.y - a.y) * (c.x - b.x)
}

#[test]
fn sorted_corners_run_clockwise() {
    // A convex quadrilateral listed counter-clockwise on screen, then in a scrambled order.
    let listings = [
        [p(5, 8), p(10, 50), p(90, 60), p(80, 5)],
        [p(90, 60), p(5, 8), p(80, 5), p(10, 50)],
    ];
    for pts in listings {
        let r = Transformer::sort_points(pts);
        assert_eq!(r, [p(5, 8), p(80, 5), p(90, 60), p(10, 50)]);
        for i in 0..4 {
            assert!(turn(r[i], r[(i + 1) % 4], r[(i + 2) % 4]) > 0);
        }
    }
}
