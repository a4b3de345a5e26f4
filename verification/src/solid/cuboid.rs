//! Boxes centered on the origin.

use vstd::prelude::*;

use crate::length::Length;
use crate::mesh::{Mesh, closed_surface, edge, tri};

verus! {

#[derive(Debug, Clone, Copy, PartialEq, Eq, Structural)]
pub struct Cuboid {
    pub width: Length,
    pub depth: Length,
    pub height: Length,
}

/// A corner of a box centered on the origin: for each axis, whether the
/// corner lies on the positive side.
#[derive(Debug, Clone, Copy, PartialEq, Eq, Structural)]
pub struct Corner {
    pub x: bool,
    pub y: bool,
    pub z: bool,
}

/// The eight corners: the bottom face counterclockwise from (-x, -y), then
/// the top face in the same order.
pub open spec fn cuboid_corners() -> Seq<Corner> {
    seq![
        Corner { x: false, y: false, z: false },
        Corner { x: true, y: false, z: false },
        Corner { x: true, y: true, z: false },
        Corner { x: false, y: true, z: false },
        Corner { x: false, y: false, z: true },
        Corner { x: true, y: false, z: true },
        Corner { x: true, y: true, z: true },
        Corner { x: false, y: true, z: true },
    ]
}

/// Two triangles per face, wound so each faces away from the center:
/// bottom, top, front (-Y), back (+Y), left (-X), right (+X).
pub open spec fn cuboid_triangles() -> Seq<[usize; 3]> {
    seq![
        tri(0, 2, 1), tri(0, 3, 2),
        tri(4, 5, 6), tri(4, 6, 7),
        tri(0, 1, 5), tri(0, 5, 4),
        tri(3, 7, 6), tri(3, 6, 2),
        tri(0, 4, 7), tri(0, 7, 3),
        tri(1, 2, 6), tri(1, 6, 5),
    ]
}

impl Cuboid {
    pub fn new(width: Length, depth: Length, height: Length) -> (c: Cuboid)
        ensures
            c == (Cuboid { width, depth, height }),
    {
        Cuboid { width, depth, height }
    }

    pub fn cube(size: Length) -> (c: Cuboid)
        ensures
            c == (Cuboid { width: size, depth: size, height: size }),
    {
        Cuboid::new(size, size, size)
    }

    /// The mesh of a box: eight corners and twelve triangles. The size only
    /// places the corners, so it plays no part here.
    pub fn mesh_layout() -> (m: Mesh<Corner>)
        ensures
            m.well_formed(),
            m.vertices@ == cuboid_corners(),
            m.triangles@ == cuboid_triangles(),
            closed_surface(m.triangles@),
            forall|t: int|
                0 <= t < m.triangles@.len() ==> faces_outward(
                    m.vertices@[#[trigger] m.triangles@[t][0] as int],
                    m.vertices@[m.triangles@[t][1] as int],
                    m.vertices@[m.triangles@[t][2] as int],
                ),
    {
        proof {
            lemma_cuboid_closed();
            lemma_cuboid_faces_outward();
        }
        let vertices = vec![
            Corner { x: false, y: false, z: false },
            Corner { x: true, y: false, z: false },
            Corner { x: true, y: true, z: false },
            Corner { x: false, y: true, z: false },
            Corner { x: false, y: false, z: true },
            Corner { x: true, y: false, z: true },
            Corner { x: true, y: true, z: true },
            Corner { x: false, y: true, z: true },
        ];
        let triangles: Vec<[usize; 3]> = vec![
            [0, 2, 1], [0, 3, 2],
            [4, 5, 6], [4, 6, 7],
            [0, 1, 5], [0, 5, 4],
            [3, 7, 6], [3, 6, 2],
            [0, 4, 7], [0, 7, 3],
            [1, 2, 6], [1, 6, 5],
        ];
        assert(vertices@ =~= cuboid_corners());
        assert(triangles@ =~= cuboid_triangles());
        Mesh::new(vertices, triangles)
    }
}

/// The coordinate of a corner along one axis, for a box with half-sizes of
/// one: `1` on the positive side, `-1` on the negative one.
pub open spec fn corner_side(positive: bool) -> int {
    if positive { 1 } else { -1 }
}

/// The corner as a point of the box from `(-1, -1, -1)` to `(1, 1, 1)`.
pub open spec fn corner_point(c: Corner) -> (int, int, int) {
    (corner_side(c.x), corner_side(c.y), corner_side(c.z))
}

/// The triangle `a`, `b`, `c` of box corners faces away from the center:
/// its three corners lie on one face of the box, and its normal, the cross
/// product of `b - a` and `c - a`, points outward (away from the center,
/// which is the origin).
pub open spec fn faces_outward(a: Corner, b: Corner, c: Corner) -> bool {
    let (ax, ay, az) = corner_point(a);
    let (bx, by, bz) = corner_point(b);
    let (cx, cy, cz) = corner_point(c);
    let (ux, uy, uz) = (bx - ax, by - ay, bz - az);
    let (vx, vy, vz) = (cx - ax, cy - ay, cz - az);
    let (nx, ny, nz) = (uy * vz - uz * vy, uz * vx - ux * vz, ux * vy - uy * vx);
    &&& (a.x == b.x && b.x == c.x) || (a.y == b.y && b.y == c.y) || (a.z == b.z && b.z == c.z)
    &&& nx * (ax + bx + cx) + ny * (ay + by + cy) + nz * (az + bz + cz) > 0
}

/// Every triangle of the box mesh lies on a face of the box and faces away
/// from its center, and the twelve triangles cover each of the six faces
/// twice.
pub proof fn lemma_cuboid_faces_outward()
    ensures
        forall|t: int|
            0 <= t < cuboid_triangles().len() ==> faces_outward(
                cuboid_corners()[#[trigger] cuboid_triangles()[t][0] as int],
                cuboid_corners()[cuboid_triangles()[t][1] as int],
                cuboid_corners()[cuboid_triangles()[t][2] as int],
            ),
{
    let v = cuboid_corners();
    let ts = cuboid_triangles();
    assert forall|t: int| 0 <= t < ts.len() implies faces_outward(
        v[#[trigger] ts[t][0] as int],
        v[ts[t][1] as int],
        v[ts[t][2] as int],
    ) by {
        if t == 0 { assert(faces_outward(v[0], v[2], v[1])) by {
            assert(v[0] == Corner { x: false, y: false, z: false } && v[2] == Corner { x: true, y: true, z: false } && v[1] == Corner { x: true, y: false, z: false });
            assert(faces_outward(Corner { x: false, y: false, z: false }, Corner { x: true, y: true, z: false }, Corner { x: true, y: false, z: false })) by (nonlinear_arith);
        } }
        else if t == 1 { assert(faces_outward(v[0], v[3], v[2])) by {
            assert(v[0] == Corner { x: false, y: false, z: false } && v[3] == Corner { x: false, y: true, z: false } && v[2] == Corner { x: true, y: true, z: false });
            assert(faces_outward(Corner { x: false, y: false, z: false }, Corner { x: false, y: true, z: false }, Corner { x: true, y: true, z: false })) by (nonlinear_arith);
        } }
        else if t == 2 { assert(faces_outward(v[4], v[5], v[6])) by {
            assert(v[4] == Corner { x: false, y: false, z: true } && v[5] == Corner { x: true, y: false, z: true } && v[6] == Corner { x: true, y: true, z: true });
            assert(faces_outward(Corner { x: false, y: false, z: true }, Corner { x: true, y: false, z: true }, Corner { x: true, y: true, z: true })) by (nonlinear_arith);
        } }
        else if t == 3 { assert(faces_outward(v[4], v[6], v[7])) by {
            assert(v[4] == Corner { x: false, y: false, z: true } && v[6] == Corner { x: true, y: true, z: true } && v[7] == Corner { x: false, y: true, z: true });
            assert(faces_outward(Corner { x: false, y: false, z: true }, Corner { x: true, y: true, z: true }, Corner { x: false, y: true, z: true })) by (nonlinear_arith);
        } }
        else if t == 4 { assert(faces_outward(v[0], v[1], v[5])) by {
            assert(v[0] == Corner { x: false, y: false, z: false } && v[1] == Corner { x: true, y: false, z: false } && v[5] == Corner { x: true, y: false, z: true });
            assert(faces_outward(Corner { x: false, y: false, z: false }, Corner { x: true, y: false, z: false }, Corner { x: true, y: false, z: true })) by (nonlinear_arith);
        } }
        else if t == 5 { assert(faces_outward(v[0], v[5], v[4])) by {
            assert(v[0] == Corner { x: false, y: false, z: false } && v[5] == Corner { x: true, y: false, z: true } && v[4] == Corner { x: false, y: false, z: true });
            assert(faces_outward(Corner { x: false, y: false, z: false }, Corner { x: true, y: false, z: true }, Corner { x: false, y: false, z: true })) by (nonlinear_arith);
        } }
        else if t == 6 { assert(faces_outward(v[3], v[7], v[6])) by {
            assert(v[3] == Corner { x: false, y: true, z: false } && v[7] == Corner { x: false, y: true, z: true } && v[6] == Corner { x: true, y: true, z: true });
            assert(faces_outward(Corner { x: false, y: true, z: false }, Corner { x: false, y: true, z: true }, Corner { x: true, y: true, z: true })) by (nonlinear_arith);
        } }
        else if t == 7 { assert(faces_outward(v[3], v[6], v[2])) by {
            assert(v[3] == Corner { x: false, y: true, z: false } && v[6] == Corner { x: true, y: true, z: true } && v[2] == Corner { x: true, y: true, z: false });
            assert(faces_outward(Corner { x: false, y: true, z: false }, Corner { x: true, y: true, z: true }, Corner { x: true, y: true, z: false })) by (nonlinear_arith);
        } }
        else if t == 8 { assert(faces_outward(v[0], v[4], v[7])) by {
            assert(v[0] == Corner { x: false, y: false, z: false } && v[4] == Corner { x: false, y: false, z: true } && v[7] == Corner { x: false, y: true, z: true });
            assert(faces_outward(Corner { x: false, y: false, z: false }, Corner { x: false, y: false, z: true }, Corner { x: false, y: true, z: true })) by (nonlinear_arith);
        } }
        else if t == 9 { assert(faces_outward(v[0], v[7], v[3])) by {
            assert(v[0] == Corner { x: false, y: false, z: false } && v[7] == Corner { x: false, y: true, z: true } && v[3] == Corner { x: false, y: true, z: false });
            assert(faces_outward(Corner { x: false, y: false, z: false }, Corner { x: false, y: true, z: true }, Corner { x: false, y: true, z: false })) by (nonlinear_arith);
        } }
        else if t == 10 { assert(faces_outward(v[1], v[2], v[6])) by {
            assert(v[1] == Corner { x: true, y: false, z: false } && v[2] == Corner { x: true, y: true, z: false } && v[6] == Corner { x: true, y: true, z: true });
            assert(faces_outward(Corner { x: true, y: false, z: false }, Corner { x: true, y: true, z: false }, Corner { x: true, y: true, z: true })) by (nonlinear_arith);
        } }
        else { assert(faces_outward(v[1], v[6], v[5])) by {
            assert(v[1] == Corner { x: true, y: false, z: false } && v[6] == Corner { x: true, y: true, z: true } && v[5] == Corner { x: true, y: false, z: true });
            assert(faces_outward(Corner { x: true, y: false, z: false }, Corner { x: true, y: true, z: true }, Corner { x: true, y: false, z: true })) by (nonlinear_arith);
        } }
    }
}

/// The faces of a box close up: every edge of every face is run the other
/// way by a neighbouring face.
pub proof fn lemma_cuboid_closed()
    ensures
        closed_surface(cuboid_triangles()),
{
    let tris = cuboid_triangles();
    assert forall|t: int, k: int| 0 <= t < tris.len() && 0 <= k < 3 implies crate::mesh::has_edge(
        tris,
        (#[trigger] edge(tris[t], k)).1,
        edge(tris[t], k).0,
    ) by {
        if t == 0 {
            if k == 0 { assert(edge(tris[1], 2) == (edge(tris[t], k).1, edge(tris[t], k).0)); }
            if k == 1 { assert(edge(tris[10], 0) == (edge(tris[t], k).1, edge(tris[t], k).0)); }
            if k == 2 { assert(edge(tris[4], 0) == (edge(tris[t], k).1, edge(tris[t], k).0)); }
        } else if t == 1 {
            if k == 0 { assert(edge(tris[9], 2) == (edge(tris[t], k).1, edge(tris[t], k).0)); }
            if k == 1 { assert(edge(tris[7], 2) == (edge(tris[t], k).1, edge(tris[t], k).0)); }
            if k == 2 { assert(edge(tris[0], 0) == (edge(tris[t], k).1, edge(tris[t], k).0)); }
        } else if t == 2 {
            if k == 0 { assert(edge(tris[5], 1) == (edge(tris[t], k).1, edge(tris[t], k).0)); }
            if k == 1 { assert(edge(tris[11], 1) == (edge(tris[t], k).1, edge(tris[t], k).0)); }
            if k == 2 { assert(edge(tris[3], 0) == (edge(tris[t], k).1, edge(tris[t], k).0)); }
        } else if t == 3 {
            if k == 0 { assert(edge(tris[2], 2) == (edge(tris[t], k).1, edge(tris[t], k).0)); }
            if k == 1 { assert(edge(tris[6], 1) == (edge(tris[t], k).1, edge(tris[t], k).0)); }
            if k == 2 { assert(edge(tris[8], 1) == (edge(tris[t], k).1, edge(tris[t], k).0)); }
        } else if t == 4 {
            if k == 0 { assert(edge(tris[0], 2) == (edge(tris[t], k).1, edge(tris[t], k).0)); }
            if k == 1 { assert(edge(tris[11], 2) == (edge(tris[t], k).1, edge(tris[t], k).0)); }
            if k == 2 { assert(edge(tris[5], 0) == (edge(tris[t], k).1, edge(tris[t], k).0)); }
        } else if t == 5 {
            if k == 0 { assert(edge(tris[4], 2) == (edge(tris[t], k).1, edge(tris[t], k).0)); }
            if k == 1 { assert(edge(tris[2], 0) == (edge(tris[t], k).1, edge(tris[t], k).0)); }
            if k == 2 { assert(edge(tris[8], 0) == (edge(tris[t], k).1, edge(tris[t], k).0)); }
        } else if t == 6 {
            if k == 0 { assert(edge(tris[9], 1) == (edge(tris[t], k).1, edge(tris[t], k).0)); }
            if k == 1 { assert(edge(tris[3], 1) == (edge(tris[t], k).1, edge(tris[t], k).0)); }
            if k == 2 { assert(edge(tris[7], 0) == (edge(tris[t], k).1, edge(tris[t], k).0)); }
        } else if t == 7 {
            if k == 0 { assert(edge(tris[6], 2) == (edge(tris[t], k).1, edge(tris[t], k).0)); }
            if k == 1 { assert(edge(tris[10], 1) == (edge(tris[t], k).1, edge(tris[t], k).0)); }
            if k == 2 { assert(edge(tris[1], 1) == (edge(tris[t], k).1, edge(tris[t], k).0)); }
        } else if t == 8 {
            if k == 0 { assert(edge(tris[5], 2) == (edge(tris[t], k).1, edge(tris[t], k).0)); }
            if k == 1 { assert(edge(tris[3], 2) == (edge(tris[t], k).1, edge(tris[t], k).0)); }
            if k == 2 { assert(edge(tris[9], 0) == (edge(tris[t], k).1, edge(tris[t], k).0)); }
        } else if t == 9 {
            if k == 0 { assert(edge(tris[8], 2) == (edge(tris[t], k).1, edge(tris[t], k).0)); }
            if k == 1 { assert(edge(tris[6], 0) == (edge(tris[t], k).1, edge(tris[t], k).0)); }
            if k == 2 { assert(edge(tris[1], 0) == (edge(tris[t], k).1, edge(tris[t], k).0)); }
        } else if t == 10 {
            if k == 0 { assert(edge(tris[0], 1) == (edge(tris[t], k).1, edge(tris[t], k).0)); }
            if k == 1 { assert(edge(tris[7], 1) == (edge(tris[t], k).1, edge(tris[t], k).0)); }
            if k == 2 { assert(edge(tris[11], 0) == (edge(tris[t], k).1, edge(tris[t], k).0)); }
        } else if t == 11 {
            if k == 0 { assert(edge(tris[10], 2) == (edge(tris[t], k).1, edge(tris[t], k).0)); }
            if k == 1 { assert(edge(tris[2], 1) == (edge(tris[t], k).1, edge(tris[t], k).0)); }
            if k == 2 { assert(edge(tris[4], 1) == (edge(tris[t], k).1, edge(tris[t], k).0)); }
        }
    }
}

} // verus!
