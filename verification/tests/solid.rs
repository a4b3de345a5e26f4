use ferrocad::mesh::RingPoint;
use ferrocad::solid::cuboid::Corner;
use ferrocad::solid::cylinder::CylinderVertex;
use ferrocad::solid::extrusion::{contour_prism_mesh, prism_mesh, twisted_prism_mesh};
use ferrocad::solid::rotate_extrusion::{push_side, revolve_mesh};
use ferrocad::solid::sphere::{sphere_mesh, SphereVertex};
use ferrocad::{
    Circle, Cuboid, Cylinder, Difference, Extrusion, Intersection, Length, Rectangle, Sketch, Solid, Sphere,
    ToLength, Union,
};

fn p(x: i64, y: i64) -> [Length; 2] {
    [x.mm(), y.mm()]
}

#[test]
fn sphere_diameter_is_twice_the_radius() {
    assert_eq!(Sphere::diameter(20.mm()), Sphere::new(10.mm()));
    assert_eq!(Sphere::diameter(5.mm()), Sphere::new(2_500.um()));
}

#[test]
fn cube_has_equal_sides() {
    assert_eq!(Cuboid::cube(10.mm()), Cuboid::new(10.mm(), 10.mm(), 10.mm()));
}

#[test]
fn cylinder_constructors_set_both_radii() {
    let cylinder = Cylinder::new(10.mm(), 20.mm());
    assert_eq!(cylinder.bottom_radius, 10.mm());
    assert_eq!(cylinder.top_radius, 10.mm());
    assert_eq!(cylinder.height, 20.mm());

    let frustum = Cylinder::frustum(15.mm(), 20.mm(), 10.mm());
    assert_eq!(frustum.bottom_radius, 15.mm());
    assert_eq!(frustum.top_radius, 20.mm());

    let cone = Cylinder::cone(10.mm(), 20.mm());
    assert_eq!(cone, Cylinder::frustum(10.mm(), Length::zero(), 20.mm()));
}

#[test]
fn boolean_trees_keep_their_operands() {
    let cube = Cuboid::cube(20.mm());
    let inner = Cuboid::cube(10.mm());

    let union = cube.union(inner);
    assert_eq!(union, Union::new(cube, inner));
    assert_eq!(union.a, cube);
    assert_eq!(union.b, inner);

    let difference = cube.difference(Sphere::new(5.mm()));
    assert_eq!(difference, Difference::new(cube, Sphere::new(5.mm())));

    let intersection = cube.intersection(Cylinder::new(5.mm(), 30.mm()));
    assert_eq!(intersection, Intersection::new(cube, Cylinder::new(5.mm(), 30.mm())));

    let nested = union.difference(Rectangle::square(4.mm()).extrude(40.mm()));
    assert_eq!(nested.a, union);
    assert_eq!(nested.b, Extrusion::new(Rectangle::square(4.mm()), 40.mm()));
}

#[test]
fn cuboid_mesh_has_eight_corners_and_twelve_faces() {
    let mesh = Cuboid::mesh_layout();
    assert_eq!(mesh.vertices.len(), 8);
    assert_eq!(mesh.triangles.len(), 12);
    assert_eq!(mesh.vertices[0], Corner { x: false, y: false, z: false });
    assert_eq!(mesh.vertices[6], Corner { x: true, y: true, z: true });
    assert_eq!(mesh.triangles[0], [0, 2, 1]);
    assert_eq!(mesh.triangles[2], [4, 5, 6]);
}

#[test]
fn cylinder_mesh_counts_follow_the_segments() {
    let mesh = Cylinder::new(10.mm(), 20.mm()).mesh_layout(63);
    assert_eq!(mesh.vertices.len(), 2 * 63 + 2);
    assert_eq!(mesh.triangles.len(), 4 * 63);
    assert_eq!(mesh.vertices[0], CylinderVertex::BottomCenter);
    assert_eq!(mesh.vertices[1], CylinderVertex::BottomRim(0));
    assert_eq!(mesh.vertices[64], CylinderVertex::TopCenter);
    assert_eq!(mesh.vertices[65], CylinderVertex::TopRim(0));
    assert_eq!(mesh.triangles[0], [0, 2, 1]);
    assert_eq!(mesh.triangles[1], [64, 65, 66]);
}

#[test]
fn cone_collapses_the_top_to_an_apex_layout() {
    let mesh = Cylinder::cone(10.mm(), 20.mm()).mesh_layout(63);
    assert_eq!(mesh.vertices.len(), 63 + 2);
    assert_eq!(mesh.triangles.len(), 2 * 63);
    assert_eq!(mesh.vertices[0], CylinderVertex::BottomCenter);
    assert_eq!(mesh.vertices[64], CylinderVertex::TopCenter);
}

#[test]
fn inverted_cone_collapses_the_bottom_to_an_apex_layout() {
    let mesh = Cylinder::frustum(Length::zero(), 10.mm(), 20.mm()).mesh_layout(63);
    assert_eq!(mesh.vertices.len(), 63 + 2);
    assert_eq!(mesh.triangles.len(), 2 * 63);
    assert_eq!(mesh.vertices[0], CylinderVertex::BottomCenter);
    assert_eq!(mesh.vertices[1], CylinderVertex::TopCenter);
}

#[test]
fn both_radii_zero_yields_an_empty_mesh() {
    let mesh = Cylinder::frustum(Length::zero(), Length::zero(), 20.mm()).mesh_layout(63);
    assert!(mesh.vertices.is_empty());
    assert!(mesh.triangles.is_empty());
}

#[test]
fn sphere_mesh_counts_follow_slices_and_stacks() {
    let mesh = sphere_mesh(63, 32);
    assert_eq!(mesh.vertices.len(), 2 + 31 * 63);
    assert_eq!(mesh.triangles.len(), 2 * 63 * 31);
    assert_eq!(mesh.vertices[0], SphereVertex::SouthPole);
    assert_eq!(mesh.vertices[1], SphereVertex::Ring(RingPoint { ring: 0, point: 0 }));
    assert_eq!(mesh.vertices[mesh.vertices.len() - 1], SphereVertex::NorthPole);
    for t in &mesh.triangles {
        for &k in t {
            assert!(k < mesh.vertices.len());
        }
    }
}

#[test]
fn prism_mesh_has_caps_then_sides() {
    let caps = vec![[0, 1, 2]];
    let mesh = prism_mesh(3, &caps);
    assert_eq!(mesh.vertices.len(), 6);
    assert_eq!(mesh.vertices[4], RingPoint { ring: 1, point: 1 });
    assert_eq!(
        mesh.triangles,
        vec![
            [0, 2, 1],
            [3, 4, 5],
            [0, 1, 4],
            [0, 4, 3],
            [1, 2, 5],
            [1, 5, 4],
            [2, 0, 3],
            [2, 3, 5],
        ]
    );
}

#[test]
fn prism_without_caps_is_empty() {
    let mesh = prism_mesh(4, &Vec::new());
    assert!(mesh.vertices.is_empty());
    assert!(mesh.triangles.is_empty());
}

#[test]
fn convex_polygon_prism_has_eight_vertices_and_twelve_triangles() {
    let contour = vec![p(-10, -5), p(10, -5), p(10, 5), p(-10, 5)];
    let mesh = contour_prism_mesh(&contour);
    assert_eq!(mesh.vertices.len(), 8);
    assert_eq!(mesh.triangles.len(), 12);
}

#[test]
fn concave_c_prism_has_four_n_minus_four_triangles() {
    let contour = vec![
        p(0, 0),
        p(10, 0),
        p(10, 2),
        p(2, 2),
        p(2, 8),
        p(10, 8),
        p(10, 10),
        p(0, 10),
    ];
    let mesh = contour_prism_mesh(&contour);
    assert_eq!(mesh.vertices.len(), 16);
    assert_eq!(mesh.triangles.len(), 28);
}

#[test]
fn empty_contour_yields_an_empty_prism() {
    let mesh = contour_prism_mesh(&Vec::new());
    assert!(mesh.vertices.is_empty());
    assert!(mesh.triangles.is_empty());
}

#[test]
fn one_layer_twist_matches_the_prism() {
    let caps = vec![[3, 0, 1], [1, 2, 3]];
    let twisted = twisted_prism_mesh(4, 1, &caps);
    let straight = prism_mesh(4, &caps);
    assert_eq!(twisted.vertices, straight.vertices);
    assert_eq!(twisted.triangles, straight.triangles);
}

#[test]
fn twisted_prism_counts_follow_the_slices() {
    let caps = vec![[0, 1, 2]];
    let mesh = twisted_prism_mesh(3, 5, &caps);
    assert_eq!(mesh.vertices.len(), 6 * 3);
    assert_eq!(mesh.triangles.len(), 2 + 5 * 6);
    assert_eq!(mesh.triangles[1], [15, 16, 17]);
}

#[test]
fn side_of_an_edge_off_the_axis_is_two_triangles() {
    let mut triangles = Vec::new();
    push_side(&mut triangles, 0, 1, 4, 5, false, false, false);
    assert_eq!(triangles, vec![[0, 5, 1], [0, 4, 5]]);
    push_side(&mut triangles, 0, 1, 4, 5, false, false, true);
    assert_eq!(triangles.len(), 4);
    assert_eq!(triangles[2], [0, 1, 5]);
}

#[test]
fn side_of_an_edge_on_the_axis_is_empty() {
    let mut triangles = Vec::new();
    push_side(&mut triangles, 0, 1, 4, 5, true, true, false);
    assert!(triangles.is_empty());
    push_side(&mut triangles, 0, 1, 4, 5, true, false, false);
    assert_eq!(triangles, vec![[0, 5, 1]]);
}

#[test]
fn closed_revolution_has_no_caps() {
    let on_axis = vec![false, false, false, false];
    let mesh = revolve_mesh(4, 8, true, &on_axis, false, &Vec::new());
    assert_eq!(mesh.vertices.len(), 32);
    assert_eq!(mesh.triangles.len(), 8 * 4 * 2);
    for t in &mesh.triangles {
        for &k in t {
            assert!(k < 32);
        }
    }
}

#[test]
fn open_revolution_is_closed_by_caps() {
    let on_axis = vec![true, false, false, true];
    let caps = vec![[0, 1, 2], [0, 2, 3]];
    let mesh = revolve_mesh(4, 3, false, &on_axis, false, &caps);
    assert_eq!(mesh.vertices.len(), 12);
    // per band: edges 0-1 and 2-3 touch the axis once (one triangle each),
    // edge 1-2 is off it (two) and edge 3-0 lies on it (none); two bands,
    // then two cap triangles per cap
    assert_eq!(mesh.triangles.len(), 2 * (0 + 1 + 2 + 1) + 2 * 2);
}

#[test]
fn open_revolution_without_caps_is_empty() {
    let on_axis = vec![false, false, false];
    let mesh = revolve_mesh(3, 3, false, &on_axis, false, &Vec::new());
    assert!(mesh.vertices.is_empty());
    assert!(mesh.triangles.is_empty());
}

#[test]
fn circle_and_rectangle_extrusions_keep_their_sketch() {
    let e = Extrusion::new(Circle::new(3.mm()), 1.mm());
    assert_eq!(e.sketch, Circle::new(3.mm()));
    assert_eq!(e.height, 1.mm());
}
