use ferrocad::sketch::hull::{convex_hull, hull_points};
use ferrocad::{Length, Polygon, ToLength};

fn p(x: i64, y: i64) -> [Length; 2] {
    [x.mm(), y.mm()]
}

fn twice_area(contour: &[[Length; 2]]) -> i128 {
    let n = contour.len();
    let mut area = 0;
    for i in 0..n {
        let a = contour[i];
        let b = contour[(i + 1) % n];
        area += a[0].as_um() * b[1].as_um() - b[0].as_um() * a[1].as_um();
    }
    area
}

fn c_polygon() -> Polygon {
    Polygon::new(vec![
        p(0, 0),
        p(10, 0),
        p(10, 2),
        p(2, 2),
        p(2, 8),
        p(10, 8),
        p(10, 10),
        p(0, 10),
    ])
}

#[test]
fn fewer_than_three_points_yields_an_empty_polygon() {
    let hull = hull_points(vec![[0.mm(), 0.mm()], [1.mm(), 0.mm()]]);
    assert!(hull.contour(1.mm()).is_empty());
    assert!(hull_points(Vec::new()).contour(1.mm()).is_empty());
}

#[test]
fn rectangle_hull_is_itself() {
    let corners = vec![p(-10, -5), p(10, -5), p(10, 5), p(-10, 5)];
    let contour = hull_points(corners).contour(1.mm());

    assert_eq!(contour.len(), 4);
    assert_eq!(twice_area(&contour), 2 * 200_000_000);
}

#[test]
fn c_polygon_hull_is_the_bounding_square() {
    let contour = hull_points(c_polygon().points).contour(1.mm());

    assert_eq!(contour.len(), 4);
    assert_eq!(twice_area(&contour), 2 * 100_000_000);
}

#[test]
fn hull_starts_at_the_lowest_leftmost_point_and_goes_counterclockwise() {
    let hull = convex_hull(&c_polygon().points);
    assert_eq!(hull, vec![p(0, 0), p(10, 0), p(10, 10), p(0, 10)]);
}

#[test]
fn points_on_a_hull_edge_are_not_corners() {
    let hull = convex_hull(&vec![p(0, 0), p(5, 0), p(10, 0), p(10, 10), p(5, 5)]);
    assert_eq!(hull, vec![p(0, 0), p(10, 0), p(10, 10)]);
}

#[test]
fn repeated_points_count_once() {
    let hull = convex_hull(&vec![p(1, 1), p(0, 0), p(1, 1), p(2, 0), p(0, 0)]);
    assert_eq!(hull, vec![p(0, 0), p(2, 0), p(1, 1)]);
    assert!(convex_hull(&vec![p(3, 3), p(3, 3), p(3, 3), p(4, 4)]).is_empty());
}

#[test]
fn collinear_points_have_no_hull() {
    assert!(convex_hull(&vec![p(0, 0), p(1, 1), p(2, 2), p(3, 3)]).is_empty());
}

#[test]
fn interior_points_are_dropped() {
    let hull = convex_hull(&vec![p(5, 5), p(0, 0), p(10, 0), p(3, 4), p(10, 10), p(0, 10), p(6, 2)]);
    assert_eq!(hull, vec![p(0, 0), p(10, 0), p(10, 10), p(0, 10)]);
}

#[test]
fn neighbouring_hull_corners_differ() {
    let hull = convex_hull(&vec![p(0, 0), p(0, 0), p(4, 0), p(4, 4), p(4, 4), p(0, 4), p(2, 2)]);
    let n = hull.len();
    assert_eq!(n, 4);
    for i in 0..n {
        assert_ne!(hull[i], hull[(i + 1) % n]);
    }
}

fn turn(a: [Length; 2], b: [Length; 2], c: [Length; 2]) -> i128 {
    (b[0].as_um() - a[0].as_um()) * (c[1].as_um() - a[1].as_um())
        - (b[1].as_um() - a[1].as_um()) * (c[0].as_um() - a[0].as_um())
}

#[test]
fn every_point_lies_inside_the_hull_and_every_corner_turns_left() {
    let points = vec![
        p(3, 1),
        p(0, 0),
        p(7, 2),
        p(10, 0),
        p(5, 5),
        p(10, 10),
        p(5, 0),
        p(0, 10),
        p(2, 8),
        p(0, 5),
    ];
    let hull = convex_hull(&points);
    assert_eq!(hull, vec![p(0, 0), p(10, 0), p(10, 10), p(0, 10)]);
    let n = hull.len();
    for i in 0..n {
        let (a, b, c) = (hull[i], hull[(i + 1) % n], hull[(i + 2) % n]);
        assert!(turn(a, b, c) > 0);
        for &q in &points {
            assert!(turn(a, b, q) >= 0);
        }
    }
}

#[test]
fn three_points_off_one_line_give_a_hull_with_area() {
    let points = vec![p(0, 0), p(5, 0), p(10, 0), p(5, 0), p(3, 4)];
    let hull = convex_hull(&points);
    assert_eq!(hull, vec![p(0, 0), p(10, 0), p(3, 4)]);
    assert!(twice_area(&hull) > 0);
    assert!(convex_hull(&vec![p(0, 0), p(5, 0), p(10, 0)]).is_empty());
}
