//! Cylinders, frustums and cones along the Z-axis.

use vstd::prelude::*;

use crate::length::Length;
use crate::mesh::{
    Mesh, closed_surface, edge, has_edge, lemma_flatten_uniform_index, lemma_flatten_uniform_len,
    lemma_group_position, lemma_ring_steps, tri, triangles_in_range,
};

verus! {

/// A solid cylinder along the Z-axis. The solid is centered on the origin.
///
/// Use [`Self::frustum`] when the two end radii are different. Use [`Self::cone`]
/// when the top end is a point.
#[derive(Debug, Clone, Copy, PartialEq, Eq, Structural)]
pub struct Cylinder {
    pub bottom_radius: Length,
    pub top_radius: Length,
    pub height: Length,
}

/// Where a vertex of a tessellated cylinder lies. Rim points are numbered
/// counterclockwise from the positive X-axis.
#[derive(Debug, Clone, Copy, PartialEq, Eq, Structural)]
pub enum CylinderVertex {
    BottomCenter,
    BottomRim(usize),
    TopCenter,
    TopRim(usize),
}

/// The vertices of a cylinder mesh with `segments` rim points per end that
/// has a bottom rim when `bottom` and a top rim when `top`: the bottom
/// center, the bottom rim, the top center, then the top rim.
pub open spec fn cylinder_vertices(bottom: bool, top: bool, segments: int) -> Seq<CylinderVertex> {
    let bottom_rim = if bottom {
        Seq::new(segments as nat, |i: int| CylinderVertex::BottomRim(i as usize))
    } else {
        Seq::empty()
    };
    let top_rim = if top {
        Seq::new(segments as nat, |i: int| CylinderVertex::TopRim(i as usize))
    } else {
        Seq::empty()
    };
    seq![CylinderVertex::BottomCenter] + bottom_rim + seq![CylinderVertex::TopCenter] + top_rim
}

/// Where each vertex of a cylinder mesh lies: vertex 0 is the bottom
/// center, vertex `1 + i` the bottom rim point `i` (when there is a bottom
/// rim), then the top center, and after it top rim point `i` at the same
/// offset `i`: both rims are numbered the same way round, counterclockwise.
pub proof fn lemma_cylinder_vertex_names(bottom: bool, top: bool, segments: int)
    requires
        segments >= 1,
    ensures
        ({
            let v = cylinder_vertices(bottom, top, segments);
            let tc = if bottom { 1 + segments } else { 1 };
            &&& v.len() == tc + 1 + (if top { segments } else { 0 })
            &&& v[0] == CylinderVertex::BottomCenter
            &&& v[tc] == CylinderVertex::TopCenter
            &&& bottom ==> forall|i: int| 0 <= i < segments ==> #[trigger] v[1 + i] == CylinderVertex::BottomRim(i as usize)
            &&& top ==> forall|i: int| 0 <= i < segments ==> #[trigger] v[tc + 1 + i] == CylinderVertex::TopRim(i as usize)
        }),
{
    let v = cylinder_vertices(bottom, top, segments);
    let tc = if bottom { 1 + segments } else { 1 };
    let bottom_rim = if bottom {
        Seq::new(segments as nat, |i: int| CylinderVertex::BottomRim(i as usize))
    } else {
        Seq::empty()
    };
    let top_rim = if top {
        Seq::new(segments as nat, |i: int| CylinderVertex::TopRim(i as usize))
    } else {
        Seq::empty()
    };
    assert(v == seq![CylinderVertex::BottomCenter] + bottom_rim + seq![CylinderVertex::TopCenter] + top_rim);
    assert(v[tc] == CylinderVertex::TopCenter);
    if bottom {
        assert forall|i: int| 0 <= i < segments implies #[trigger] v[1 + i] == CylinderVertex::BottomRim(i as usize) by {
            assert(v[1 + i] == bottom_rim[i]);
        }
    }
    if top {
        assert forall|i: int| 0 <= i < segments implies #[trigger] v[tc + 1 + i] == CylinderVertex::TopRim(i as usize) by {
            assert(v[tc + 1 + i] == top_rim[i]);
        }
    }
}

/// Index of the top center vertex.
pub open spec fn cylinder_top_center(bottom: bool, segments: int) -> int {
    if bottom { 1 + segments } else { 1 }
}

/// The triangles that segment `i` contributes: the bottom cap fan, the top
/// cap fan, then the side (two triangles between two rims, one toward an
/// apex).
pub open spec fn cylinder_segment(bottom: bool, top: bool, segments: int, i: int) -> Seq<[usize; 3]> {
    let next = (i + 1) % segments;
    let bc = 0int;
    let br = 1int;
    let tc = cylinder_top_center(bottom, segments);
    let tr = tc + 1;
    let bottom_cap = if bottom { seq![tri(bc, br + next, br + i)] } else { Seq::empty() };
    let top_cap = if top { seq![tri(tc, tr + i, tr + next)] } else { Seq::empty() };
    let side = if bottom && top {
        seq![tri(br + i, br + next, tr + next), tri(br + i, tr + next, tr + i)]
    } else if bottom {
        seq![tri(br + i, br + next, tc)]
    } else if top {
        seq![tri(bc, tr + next, tr + i)]
    } else {
        Seq::empty()
    };
    bottom_cap + top_cap + side
}

/// All triangles of a cylinder mesh, segment by segment.
pub open spec fn cylinder_triangles(bottom: bool, top: bool, segments: int) -> Seq<[usize; 3]> {
    Seq::new(segments as nat, |i: int| cylinder_segment(bottom, top, segments, i)).flatten()
}

impl Cylinder {
    pub fn new(radius: Length, height: Length) -> (c: Cylinder)
        ensures
            c == (Cylinder { bottom_radius: radius, top_radius: radius, height }),
    {
        Cylinder { bottom_radius: radius, top_radius: radius, height }
    }

    pub fn frustum(bottom_radius: Length, top_radius: Length, height: Length) -> (c: Cylinder)
        ensures
            c == (Cylinder { bottom_radius, top_radius, height }),
    {
        Cylinder { bottom_radius, top_radius, height }
    }

    pub fn cone(radius: Length, height: Length) -> (c: Cylinder)
        ensures
            c.bottom_radius == radius,
            c.top_radius@ == 0,
            c.height == height,
    {
        Cylinder::frustum(radius, Length::zero(), height)
    }

    /// The mesh of this cylinder with `segments` points on each rim, with
    /// each vertex named by where it lies. An end whose radius is zero or
    /// less has no rim: its center is an apex. When neither end has a rim
    /// the mesh is empty.
    pub fn mesh_layout(&self, segments: usize) -> (m: Mesh<CylinderVertex>)
        requires
            segments >= 1,
            segments <= (usize::MAX - 2) / 2,
        ensures
            m.well_formed(),
            ({
                let bottom = self.bottom_radius@ > 0;
                let top = self.top_radius@ > 0;
                if !bottom && !top {
                    m.vertices@.len() == 0 && m.triangles@.len() == 0
                } else {
                    &&& m.vertices@ == cylinder_vertices(bottom, top, segments as int)
                    &&& m.triangles@ == cylinder_triangles(bottom, top, segments as int)
                    &&& m.vertices@.len() == 2 + (if bottom { segments as int } else { 0 }) + (if top {
                        segments as int
                    } else {
                        0
                    })
                    &&& m.triangles@.len() == segments * (if bottom && top { 4int } else { 2int })
                    &&& closed_surface(m.triangles@)
                    &&& m.vertices@[0] == CylinderVertex::BottomCenter
                    &&& bottom ==> forall|i: int|
                        0 <= i < segments ==> #[trigger] m.vertices@[1 + i] == CylinderVertex::BottomRim(i as usize)
                    &&& bottom && top ==> forall|i: int|
                        0 <= i < segments ==> #[trigger] m.vertices@[2 + segments + i] == CylinderVertex::TopRim(i as usize)
                    &&& !bottom && top ==> forall|i: int|
                        0 <= i < segments ==> #[trigger] m.vertices@[2 + i] == CylinderVertex::TopRim(i as usize)
                }
            }),
    {
        let bottom = self.bottom_radius.as_um() > 0;
        let top = self.top_radius.as_um() > 0;
        if !bottom && !top {
            return Mesh::empty();
        }
        let ghost s = segments as int;
        let mut vertices: Vec<CylinderVertex> = Vec::new();
        vertices.push(CylinderVertex::BottomCenter);
        if bottom {
            let mut i: usize = 0;
            while i < segments
                invariant
                    0 <= i <= segments,
                    vertices@ == seq![CylinderVertex::BottomCenter]
                        + Seq::new(i as nat, |j: int| CylinderVertex::BottomRim(j as usize)),
                decreases segments - i,
            {
                vertices.push(CylinderVertex::BottomRim(i));
                i += 1;
                assert(vertices@ =~= seq![CylinderVertex::BottomCenter]
                    + Seq::new(i as nat, |j: int| CylinderVertex::BottomRim(j as usize)));
            }
        }
        let ghost lower = vertices@;
        assert(lower =~= seq![CylinderVertex::BottomCenter] + (if bottom {
            Seq::new(segments as nat, |i: int| CylinderVertex::BottomRim(i as usize))
        } else {
            Seq::empty()
        }));
        vertices.push(CylinderVertex::TopCenter);
        if top {
            let mut i: usize = 0;
            while i < segments
                invariant
                    0 <= i <= segments,
                    vertices@ == lower.push(CylinderVertex::TopCenter)
                        + Seq::new(i as nat, |j: int| CylinderVertex::TopRim(j as usize)),
                decreases segments - i,
            {
                vertices.push(CylinderVertex::TopRim(i));
                i += 1;
                assert(vertices@ =~= lower.push(CylinderVertex::TopCenter)
                    + Seq::new(i as nat, |j: int| CylinderVertex::TopRim(j as usize)));
            }
        }
        assert(vertices@ =~= cylinder_vertices(bottom, top, s));
        let vertex_count = vertices.len();
        assert(vertex_count == 2 + (if bottom { s } else { 0 }) + (if top { s } else { 0 }));

        let bc: usize = 0;
        let br: usize = 1;
        let tc: usize = if bottom { 1 + segments } else { 1 };
        let tr: usize = tc + 1;
        let ghost groups = Seq::new(segments as nat, |i: int| cylinder_segment(bottom, top, s, i));
        let mut triangles: Vec<[usize; 3]> = Vec::new();
        let mut i: usize = 0;
        while i < segments
            invariant
                0 <= i <= segments,
                segments == s,
                1 <= segments <= (usize::MAX - 2) / 2,
                bottom || top,
                vertex_count == 2 + (if bottom { s } else { 0 }) + (if top { s } else { 0 }),
                bc == 0,
                br == 1,
                tc == cylinder_top_center(bottom, s),
                tr == tc + 1,
                groups == Seq::new(segments as nat, |i: int| cylinder_segment(bottom, top, s, i)),
                triangles@ == groups.take(i as int).flatten(),
                triangles_in_range(triangles@, vertex_count as int),
            decreases segments - i,
        {
            let next = (i + 1) % segments;
            let ghost before = triangles@;
            if bottom {
                triangles.push([bc, br + next, br + i]);
            }
            if top {
                triangles.push([tc, tr + i, tr + next]);
            }
            if bottom && top {
                triangles.push([br + i, br + next, tr + next]);
                triangles.push([br + i, tr + next, tr + i]);
            } else if bottom {
                triangles.push([br + i, br + next, tc]);
            } else if top {
                triangles.push([bc, tr + next, tr + i]);
            }
            proof {
                assert(triangles@ =~= before + cylinder_segment(bottom, top, s, i as int));
                assert(groups.take(i as int + 1) =~= groups.take(i as int).push(groups[i as int]));
                groups.take(i as int).lemma_flatten_push(groups[i as int]);
            }
            i += 1;
        }
        assert(groups.take(s) =~= groups);
        proof {
            let per: int = if bottom && top { 4 } else { 2 };
            assert forall|k: int| 0 <= k < groups.len() implies #[trigger] groups[k].len() == per by {
                assert(groups[k] == cylinder_segment(bottom, top, s, k));
            }
            lemma_flatten_uniform_len(groups, per);
            lemma_cylinder_closed(bottom, top, s);
            lemma_cylinder_vertex_names(bottom, top, s);
            if bottom && top {
                assert forall|i: int| 0 <= i < s implies #[trigger] vertices@[2 + s + i] == CylinderVertex::TopRim(i as usize) by {
                    assert(2 + s + i == (1 + s) + 1 + i);
                }
            }
            if !bottom && top {
                assert forall|i: int| 0 <= i < s implies #[trigger] vertices@[2 + i] == CylinderVertex::TopRim(i as usize) by {
                    assert(2 + i == 1 + 1 + i);
                }
            }
        }
        Mesh::new(vertices, triangles)
    }
}

/// The faces of a cylinder, frustum or cone mesh close up: every edge of
/// every face is run the other way by a neighbouring face.
pub proof fn lemma_cylinder_closed(bottom: bool, top: bool, segments: int)
    requires
        segments >= 1,
        bottom || top,
    ensures
        closed_surface(cylinder_triangles(bottom, top, segments)),
{
    let s = segments;
    let per: int = if bottom && top { 4 } else { 2 };
    let groups = Seq::new(s as nat, |i: int| cylinder_segment(bottom, top, s, i));
    let tris = cylinder_triangles(bottom, top, s);
    assert(tris == groups.flatten());
    assert forall|j: int| 0 <= j < groups.len() implies #[trigger] groups[j].len() == per by {
        assert(groups[j] == cylinder_segment(bottom, top, s, j));
    }
    lemma_flatten_uniform_len(groups, per);
    assert forall|t: int, k: int| 0 <= t < tris.len() && 0 <= k < 3 implies has_edge(
        tris,
        (#[trigger] edge(tris[t], k)).1,
        edge(tris[t], k).0,
    ) by {
        lemma_group_position(t, per);
        let i = t / per;
        let r = t % per;
        assert(i < s) by (nonlinear_arith)
            requires
                t == i * per + r,
                0 <= r < per,
                t < s * per,
        ;
        lemma_flatten_uniform_index(groups, per, i, r);
        lemma_ring_steps(i, s);
        let next = (i + 1) % s;
        let prev = (i + s - 1) % s;
        let (d, r2, k2): (int, int, int) = if bottom && top {
            if r == 0 {
                if k == 0 { (next, 0, 2) } else if k == 1 { (i, 2, 0) } else { (prev, 0, 0) }
            } else if r == 1 {
                if k == 0 { (prev, 1, 2) } else if k == 1 { (i, 3, 1) } else { (next, 1, 0) }
            } else if r == 2 {
                if k == 0 { (i, 0, 1) } else if k == 1 { (next, 3, 2) } else { (i, 3, 0) }
            } else {
                if k == 0 { (i, 2, 2) } else if k == 1 { (i, 1, 1) } else { (prev, 2, 1) }
            }
        } else if bottom {
            if r == 0 {
                if k == 0 { (next, 0, 2) } else if k == 1 { (i, 1, 0) } else { (prev, 0, 0) }
            } else {
                if k == 0 { (i, 0, 1) } else if k == 1 { (next, 1, 2) } else { (prev, 1, 1) }
            }
        } else {
            if r == 0 {
                if k == 0 { (prev, 0, 2) } else if k == 1 { (i, 1, 1) } else { (next, 0, 0) }
            } else {
                if k == 0 { (next, 1, 2) } else if k == 1 { (i, 0, 1) } else { (prev, 1, 0) }
            }
        };
        lemma_flatten_uniform_index(groups, per, d, r2);
        assert(groups[i] == cylinder_segment(bottom, top, s, i));
        assert(groups[d] == cylinder_segment(bottom, top, s, d));
        assert(edge(tris[d * per + r2], k2) == (edge(tris[t], k).1, edge(tris[t], k).0));
    }
}

} // verus!
