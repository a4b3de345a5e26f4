use ferrocad::solid::extrusion::{contour_prism_mesh, prism_mesh, twisted_prism_mesh};
use ferrocad::solid::rotate_extrusion::revolve_mesh;
use ferrocad::solid::sphere::sphere_mesh;
use ferrocad::sketch::triangulate::triangulate;
use ferrocad::{Cuboid, Cylinder, Length, ToLength};

fn p(x: i64, y: i64) -> [Length; 2] {
    [x.mm(), y.mm()]
}

fn edges(t: [usize; 3]) -> [(usize, usize); 3] {
    [(t[0], t[1]), (t[1], t[2]), (t[2], t[0])]
}

/// Every edge of every triangle is run the other way by some triangle.
fn closed(triangles: &[[usize; 3]]) -> bool {
    triangles.iter().all(|&t| {
        edges(t)
            .iter()
            .all(|&(a, b)| triangles.iter().any(|&u| edges(u).contains(&(b, a))))
    })
}

fn c_contour() -> Vec<[Length; 2]> {
    vec![
        p(0, 0),
        p(10, 0),
        p(10, 2),
        p(2, 2),
        p(2, 8),
        p(10, 8),
        p(10, 10),
        p(0, 10),
    ]
}

#[test]
fn cuboid_faces_close_up() {
    assert!(closed(&Cuboid::mesh_layout().triangles));
}

#[test]
fn cylinder_cone_and_inverted_cone_faces_close_up() {
    assert!(closed(&Cylinder::new(10.mm(), 20.mm()).mesh_layout(17).triangles));
    assert!(closed(&Cylinder::cone(10.mm(), 20.mm()).mesh_layout(17).triangles));
    assert!(closed(&Cylinder::frustum(Length::zero(), 10.mm(), 20.mm()).mesh_layout(17).triangles));
}

#[test]
fn sphere_faces_close_up() {
    assert!(closed(&sphere_mesh(12, 7).triangles));
    assert!(closed(&sphere_mesh(5, 2).triangles));
}

#[test]
fn concave_prism_faces_close_up() {
    let mesh = contour_prism_mesh(&c_contour());
    assert!(!mesh.triangles.is_empty());
    assert!(closed(&mesh.triangles));
}

#[test]
fn twisted_prism_faces_close_up() {
    let contour = c_contour();
    let caps = triangulate(&contour);
    assert!(closed(&twisted_prism_mesh(contour.len(), 4, &caps).triangles));
}

#[test]
fn a_prism_with_caps_that_miss_an_edge_is_open() {
    let mesh = prism_mesh(4, &vec![[0, 1, 2]]);
    assert!(!closed(&mesh.triangles));
}

#[test]
fn ear_clipping_tiles_the_contour() {
    let contour = c_contour();
    let n = contour.len();
    let triangles = triangulate(&contour);
    for &t in &triangles {
        for (a, b) in edges(t) {
            let on_boundary = b == (a + 1) % n;
            let shared = triangles.iter().any(|&u| edges(u).contains(&(b, a)));
            assert!(on_boundary || shared);
        }
    }
    for i in 0..n {
        assert!(triangles.iter().any(|&u| edges(u).contains(&(i, (i + 1) % n))));
    }
}

#[test]
fn revolutions_off_the_axis_close_up() {
    let off = vec![false; 4];
    assert!(closed(&revolve_mesh(4, 8, true, &off, false, &Vec::new()).triangles));
    assert!(closed(&revolve_mesh(4, 8, true, &off, true, &Vec::new()).triangles));
    let square = vec![p(5, 0), p(15, 0), p(15, 10), p(5, 10)];
    let caps = triangulate(&square);
    assert!(closed(&revolve_mesh(4, 3, false, &off, false, &caps).triangles));
    assert!(closed(&revolve_mesh(4, 3, false, &off, true, &caps).triangles));
}

#[test]
fn a_revolution_touching_the_axis_repeats_the_axis_point_per_ring() {
    let on_axis = vec![true, false, false, true];
    let mesh = revolve_mesh(4, 8, true, &on_axis, false, &Vec::new());
    assert!(!closed(&mesh.triangles));
}
