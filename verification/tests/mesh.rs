use ferrocad::mesh::{ring_point_vertices, RingPoint};
use ferrocad::Mesh;

#[test]
fn reversing_the_winding_swaps_the_last_two_corners() {
    let mut mesh = Mesh::new(vec![10, 20, 30, 40], vec![[0, 1, 2], [0, 2, 3]]);
    mesh.reverse_winding();
    assert_eq!(mesh.vertices, vec![10, 20, 30, 40]);
    assert_eq!(mesh.triangles, vec![[0, 2, 1], [0, 3, 2]]);
}

#[test]
fn reversing_twice_restores_the_mesh() {
    let mut mesh = Mesh::new(vec!['a', 'b', 'c'], vec![[0, 1, 2], [2, 1, 0]]);
    mesh.reverse_winding();
    mesh.reverse_winding();
    assert_eq!(mesh.triangles, vec![[0, 1, 2], [2, 1, 0]]);
}

#[test]
fn empty_mesh_has_nothing() {
    let mesh: Mesh<u8> = Mesh::empty();
    assert!(mesh.vertices.is_empty());
    assert!(mesh.triangles.is_empty());
}

#[test]
fn ring_points_go_ring_by_ring() {
    let points = ring_point_vertices(2, 3);
    assert_eq!(
        points,
        vec![
            RingPoint { ring: 0, point: 0 },
            RingPoint { ring: 0, point: 1 },
            RingPoint { ring: 0, point: 2 },
            RingPoint { ring: 1, point: 0 },
            RingPoint { ring: 1, point: 1 },
            RingPoint { ring: 1, point: 2 },
        ]
    );
}
