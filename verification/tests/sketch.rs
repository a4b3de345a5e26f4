use ferrocad::sketch::polygon::is_clockwise;
use ferrocad::{Circle, Length, Polygon, Rectangle, Sketch, ToLength};

/// Twice the signed area of a closed polygon, in square micrometers.
fn twice_area(points: &[[Length; 2]]) -> i128 {
    let n = points.len();
    let mut area: i128 = 0;
    for i in 0..n {
        let a = points[i];
        let b = points[(i + 1) % n];
        area += a[0].as_um() * b[1].as_um() - b[0].as_um() * a[1].as_um();
    }
    area
}

fn c_polygon() -> Polygon {
    Polygon::new(vec![
        [0.mm(), 0.mm()],
        [10.mm(), 0.mm()],
        [10.mm(), 2.mm()],
        [2.mm(), 2.mm()],
        [2.mm(), 8.mm()],
        [10.mm(), 8.mm()],
        [10.mm(), 10.mm()],
        [0.mm(), 10.mm()],
    ])
}

#[test]
fn circle_diameter_is_twice_the_radius() {
    assert_eq!(Circle::diameter(20.mm()), Circle::new(10.mm()));
    assert_eq!(Circle::diameter(5.mm()), Circle::new(2_500.um()));
}

#[test]
fn odd_diameter_rounds_the_radius_toward_zero() {
    assert_eq!(Circle::diameter(Length::um(5)), Circle::new(Length::um(2)));
}

#[test]
fn extrude_keeps_the_circle_and_height() {
    let circle = Circle::new(10.mm());
    let extrusion = circle.extrude(20.mm());

    assert_eq!(extrusion.sketch, circle);
    assert_eq!(extrusion.height, 20.mm());
}

#[test]
fn contour_keeps_authored_vertices() {
    let contour = Polygon::new(vec![[0.mm(), 0.mm()], [10.mm(), 0.mm()], [0.mm(), 5.mm()]])
        .contour(1.mm());

    assert_eq!(
        contour,
        vec![[0.mm(), 0.mm()], [10.mm(), 0.mm()], [0.mm(), 5.mm()]]
    );
}

#[test]
fn contour_drops_a_repeated_closing_vertex() {
    let contour = Polygon::new(vec![
        [0.mm(), 0.mm()],
        [10.mm(), 0.mm()],
        [0.mm(), 5.mm()],
        [0.mm(), 0.mm()],
    ])
    .contour(1.mm());

    assert_eq!(contour.len(), 3);
    assert_eq!(contour[0], [0.mm(), 0.mm()]);
    assert_eq!(contour[2], [0.mm(), 5.mm()]);
}

#[test]
fn clockwise_input_becomes_counterclockwise() {
    let contour = Polygon::new(vec![[0.mm(), 0.mm()], [0.mm(), 10.mm()], [10.mm(), 0.mm()]])
        .contour(1.mm());

    assert!(twice_area(&contour) > 0);
    assert_eq!(contour[0], [10.mm(), 0.mm()]);
    assert_eq!(contour[1], [0.mm(), 10.mm()]);
    assert_eq!(contour[2], [0.mm(), 0.mm()]);
}

#[test]
fn fewer_than_three_points_yields_an_empty_contour() {
    assert!(
        Polygon::new(vec![[0.mm(), 0.mm()], [1.mm(), 0.mm()]])
            .contour(1.mm())
            .is_empty()
    );
    assert!(
        Polygon::new(vec![[0.mm(), 0.mm()], [1.mm(), 0.mm()], [0.mm(), 0.mm()],])
            .contour(1.mm())
            .is_empty()
    );
}

#[test]
fn repeated_consecutive_points_are_kept_once() {
    let contour = Polygon::new(vec![
        [0.mm(), 0.mm()],
        [0.mm(), 0.mm()],
        [10.mm(), 0.mm()],
        [10.mm(), 0.mm()],
        [10.mm(), 0.mm()],
        [0.mm(), 5.mm()],
    ])
    .contour(1.mm());

    assert_eq!(
        contour,
        vec![[0.mm(), 0.mm()], [10.mm(), 0.mm()], [0.mm(), 5.mm()]]
    );
}

#[test]
fn concave_contour_keeps_its_order() {
    let polygon = c_polygon();
    assert_eq!(polygon.contour(1.mm()), polygon.points);
}

#[test]
fn clockwise_test_follows_the_signed_area() {
    let square = vec![[0.mm(), 0.mm()], [1.mm(), 0.mm()], [1.mm(), 1.mm()], [0.mm(), 1.mm()]];
    let mut reversed = square.clone();
    reversed.reverse();
    assert!(!is_clockwise(&square));
    assert!(is_clockwise(&reversed));
}

#[test]
fn extrude_keeps_the_polygon_and_height() {
    let polygon = c_polygon();
    let extrusion = polygon.clone().extrude(8.mm());

    assert_eq!(extrusion.sketch, polygon);
    assert_eq!(extrusion.height, 8.mm());
}

#[test]
fn square_is_a_rectangle_with_equal_sides() {
    assert_eq!(Rectangle::square(20.mm()), Rectangle::new(20.mm(), 20.mm()));
}

#[test]
fn extrude_keeps_the_rectangle_and_height() {
    let rectangle = Rectangle::new(20.mm(), 10.mm());
    let extrusion = rectangle.extrude(8.mm());

    assert_eq!(extrusion.sketch, rectangle);
    assert_eq!(extrusion.height, 8.mm());
}

#[test]
fn contour_of_a_closed_ring_does_not_repeat_its_first_point() {
    let contour = Polygon::new(vec![
        [0.mm(), 0.mm()],
        [10.mm(), 0.mm()],
        [10.mm(), 10.mm()],
        [0.mm(), 0.mm()],
    ])
    .contour(1.mm());
    assert_eq!(contour.len(), 3);
    assert_ne!(contour[0], contour[2]);
}

#[test]
fn twice_closed_polygon_does_not_repeat_its_first_point() {
    let contour = Polygon::new(vec![
        [0.mm(), 0.mm()],
        [10.mm(), 0.mm()],
        [0.mm(), 5.mm()],
        [0.mm(), 0.mm()],
        [0.mm(), 0.mm()],
    ])
    .contour(1.mm());

    assert_eq!(contour, vec![[0.mm(), 0.mm()], [10.mm(), 0.mm()], [0.mm(), 5.mm()]]);
}
