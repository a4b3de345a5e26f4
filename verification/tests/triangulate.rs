use ferrocad::sketch::triangulate::{is_ear, point_in_triangle, triangulate, EarClipper};
use ferrocad::{Length, ToLength};

fn p(x: i64, y: i64) -> [Length; 2] {
    [x.mm(), y.mm()]
}

fn cross(a: [Length; 2], b: [Length; 2], c: [Length; 2]) -> i128 {
    (b[0].as_um() - a[0].as_um()) * (c[1].as_um() - a[1].as_um())
        - (b[1].as_um() - a[1].as_um()) * (c[0].as_um() - a[0].as_um())
}

fn twice_area(contour: &[[Length; 2]]) -> i128 {
    let n = contour.len();
    let mut area = 0;
    for i in 0..n {
        let a = contour[i];
        let b = contour[(i + 1) % n];
        area += a[0].as_um() * b[1].as_um() - b[0].as_um() * a[1].as_um();
    }
    area
}

fn c_contour() -> Vec<[Length; 2]> {
    vec![
        p(0, 0),
        p(10, 0),
        p(10, 2),
        p(2, 2),
        p(2, 8),
        p(10, 8),
        p(10, 10),
        p(0, 10),
    ]
}

#[test]
fn triangle_is_one_face() {
    let contour = vec![p(0, 0), p(10, 0), p(0, 10)];
    assert_eq!(triangulate(&contour), vec![[0, 1, 2]]);
}

#[test]
fn fewer_than_three_points_is_empty() {
    assert!(triangulate(&vec![p(0, 0), p(1, 0)]).is_empty());
}

#[test]
fn convex_quad_splits_into_two_triangles() {
    let contour = vec![p(0, 0), p(10, 0), p(10, 10), p(0, 10)];
    let triangles = triangulate(&contour);
    assert_eq!(triangles.len(), 2);
    assert_eq!(twice_area(&contour), 200_000_000);
}

#[test]
fn concave_c_has_six_triangles() {
    let contour = c_contour();
    let triangles = triangulate(&contour);
    assert_eq!(triangles.len(), 6);
    assert_eq!(twice_area(&contour), 104_000_000);

    let mut area = 0;
    for &[a, b, c] in &triangles {
        area += cross(contour[a], contour[b], contour[c]);
    }
    assert_eq!(area, 104_000_000);
}

#[test]
fn the_first_ear_is_cut_first() {
    let contour = vec![p(0, 0), p(10, 0), p(10, 10), p(0, 10)];
    assert_eq!(triangulate(&contour), vec![[3, 0, 1], [1, 2, 3]]);
}

#[test]
fn clockwise_polygon_has_no_ear() {
    let contour = vec![p(0, 0), p(0, 10), p(10, 10), p(10, 0)];
    assert!(triangulate(&contour).is_empty());
}

#[test]
fn a_reflex_corner_is_not_an_ear() {
    let contour = c_contour();
    let remaining: Vec<usize> = (0..contour.len()).collect();
    assert!(!is_ear(&contour, &remaining, 3));
    assert!(is_ear(&contour, &remaining, 1));
}

#[test]
fn a_corner_around_another_point_is_not_an_ear() {
    let contour = vec![p(0, 0), p(10, 0), p(5, 1), p(10, 10), p(0, 10)];
    let remaining: Vec<usize> = (0..contour.len()).collect();
    assert!(!is_ear(&contour, &remaining, 0));
}

#[test]
fn points_on_the_boundary_count_as_inside() {
    let (a, b, c) = (p(0, 0), p(10, 0), p(0, 10));
    assert!(point_in_triangle(p(1, 1), a, b, c));
    assert!(point_in_triangle(p(5, 0), a, b, c));
    assert!(point_in_triangle(a, a, b, c));
    assert!(!point_in_triangle(p(6, 6), a, b, c));
    assert!(!point_in_triangle(p(-1, 0), a, b, c));
}

#[test]
fn ear_clipper_cuts_corners_in_order() {
    let mut clipper = EarClipper::new(5);
    assert_eq!(clipper.remaining(), &[0, 1, 2, 3, 4]);
    assert!(!clipper.is_done());
    assert_eq!(clipper.ear(0), [4, 0, 1]);
    assert_eq!(clipper.ear(4), [3, 4, 0]);
    clipper.clip(2);
    assert_eq!(clipper.remaining(), &[0, 1, 3, 4]);
    clipper.clip(0);
    assert_eq!(clipper.remaining(), &[1, 3, 4]);
    assert!(clipper.is_done());
    assert_eq!(clipper.finish(), vec![[1, 2, 3], [4, 0, 1], [1, 3, 4]]);
}

#[test]
fn a_bow_tie_has_no_triangles() {
    let contour = vec![p(0, 0), p(10, 10), p(10, 0), p(0, 10)];
    assert!(triangulate(&contour).is_empty());
}

#[test]
fn every_triangle_of_a_c_turns_counterclockwise() {
    let contour = c_contour();
    for &[a, b, c] in &triangulate(&contour) {
        assert!(cross(contour[a], contour[b], contour[c]) > 0);
    }
}

#[test]
fn a_repeated_uncut_point_is_tested_by_its_position() {
    let contour = vec![p(0, 0), p(10, 0), p(0, 10)];
    assert!(is_ear(&contour, &[0, 1, 2], 1));
    assert!(!is_ear(&contour, &[0, 1, 2, 0], 1));
}

#[test]
fn a_convex_pentagon_is_a_fan_of_three_counterclockwise_triangles() {
    let contour = vec![p(0, 0), p(10, 0), p(14, 6), p(5, 12), p(-4, 6)];
    let triangles = triangulate(&contour);
    assert_eq!(triangles, vec![[4, 0, 1], [4, 1, 2], [2, 3, 4]]);
    for &[a, b, c] in &triangles {
        assert!(cross(contour[a], contour[b], contour[c]) > 0);
    }
}

#[test]
fn three_points_on_a_line_have_no_triangles() {
    assert!(triangulate(&vec![p(0, 0), p(5, 0), p(10, 0)]).is_empty());
}
