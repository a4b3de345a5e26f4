//! Spheres centered on the origin.

use vstd::prelude::*;

use crate::length::{Length, trunc_div};
use crate::mesh::{
    Mesh, RingPoint, closed_surface, edge, has_edge, lemma_flatten_take_next, lemma_flatten_uniform_index,
    lemma_flatten_uniform_len, lemma_group_position, lemma_ring_index_bound, lemma_ring_steps,
    ring_point_vertices, ring_points, tri, triangles_in_range, lemma_ring_points_numbered, ring_numbered, ring_index,
};
use crate::solid::extrusion::{lemma_ring_sides_at, lemma_ring_sides_len, push_ring_sides, ring_sides};

verus! {

#[derive(Debug, Clone, Copy, PartialEq, Eq, Structural)]
pub struct Sphere {
    pub radius: Length,
}

impl Sphere {
    pub fn new(radius: Length) -> (s: Sphere)
        ensures
            s.radius == radius,
    {
        Sphere { radius }
    }

    /// The sphere of diameter `diameter`: its radius is half of it, rounded
    /// toward zero to whole micrometers.
    pub fn diameter(diameter: Length) -> (s: Sphere)
        ensures
            s.radius@ == trunc_div(diameter@, 2),
    {
        Sphere::new(diameter.halved())
    }
}

/// Where a vertex of a tessellated sphere lies: a pole, or point `point` of
/// latitude ring `ring`. Rings are numbered from the south pole up; points
/// counterclockwise from the positive X-axis.
#[derive(Debug, Clone, Copy, PartialEq, Eq, Structural)]
pub enum SphereVertex {
    SouthPole,
    Ring(RingPoint),
    NorthPole,
}

/// The vertices of a sphere mesh with `slices` points per ring and
/// `stacks - 1` rings: the south pole, the rings from the south, then the
/// north pole.
pub open spec fn sphere_vertices(slices: int, stacks: int) -> Seq<SphereVertex> {
    seq![SphereVertex::SouthPole]
        + ring_points(stacks - 1, slices).map_values(|p: RingPoint| SphereVertex::Ring(p))
        + seq![SphereVertex::NorthPole]
}

/// The fans around the two poles, one pair of triangles per slice: the
/// south fan on the first ring, the north fan on the last ring.
pub open spec fn sphere_pole_fans(slices: int, stacks: int) -> Seq<[usize; 3]> {
    let rings = stacks - 1;
    let north_pole = 1 + rings * slices;
    let north_ring = 1 + (rings - 1) * slices;
    Seq::new(
        slices as nat,
        |i: int|
            {
                let next = (i + 1) % slices;
                seq![tri(0, 1 + next, 1 + i), tri(north_pole, north_ring + i, north_ring + next)]
            },
    ).flatten()
}

/// The triangles of a sphere mesh: the pole fans, then the bands between
/// consecutive rings from the south.
pub open spec fn sphere_triangles(slices: int, stacks: int) -> Seq<[usize; 3]> {
    let rings = stacks - 1;
    sphere_pole_fans(slices, stacks) + Seq::new(
        (rings - 1) as nat,
        |r: int| ring_sides(slices, 1 + r * slices, 1 + (r + 1) * slices),
    ).flatten()
}

/// Where each vertex of a sphere mesh lies: vertex 0 is the south pole,
/// vertex `1 + r * slices + i` point `i` of ring `r` for every ring, so
/// that all rings are numbered the same way round, and the last vertex is
/// the north pole.
pub proof fn lemma_sphere_vertex_names(slices: int, stacks: int)
    requires
        slices >= 1,
        stacks >= 2,
    ensures
        ({
            let v = sphere_vertices(slices, stacks);
            &&& v.len() == 2 + (stacks - 1) * slices
            &&& v[0] == SphereVertex::SouthPole
            &&& v[v.len() - 1] == SphereVertex::NorthPole
            &&& forall|r: int, i: int|
                0 <= r < stacks - 1 && 0 <= i < slices ==> #[trigger] v[1 + ring_index(r, i, slices)]
                    == SphereVertex::Ring(RingPoint { ring: r as usize, point: i as usize })
        }),
{
    let v = sphere_vertices(slices, stacks);
    let rp = ring_points(stacks - 1, slices);
    let mid = rp.map_values(|p: RingPoint| SphereVertex::Ring(p));
    lemma_ring_points_numbered(stacks - 1, slices);
    assert(v == seq![SphereVertex::SouthPole] + mid + seq![SphereVertex::NorthPole]);
    assert forall|r: int, i: int| 0 <= r < stacks - 1 && 0 <= i < slices implies #[trigger] v[1 + ring_index(r, i, slices)]
        == SphereVertex::Ring(RingPoint { ring: r as usize, point: i as usize }) by {
        lemma_ring_index_bound(r, i, slices, stacks - 1);
        assert(rp[ring_index(r, i, slices)] == RingPoint { ring: r as usize, point: i as usize });
        assert(v[1 + ring_index(r, i, slices)] == mid[ring_index(r, i, slices)]);
    }
}

/// The mesh of a sphere with `slices` points around each ring and `stacks`
/// layers from pole to pole, with each vertex named by where it lies.
pub fn sphere_mesh(slices: usize, stacks: usize) -> (m: Mesh<SphereVertex>)
    requires
        slices >= 1,
        stacks >= 2,
        2 + (stacks - 1) * slices <= usize::MAX,
    ensures
        m.well_formed(),
        m.vertices@ == sphere_vertices(slices as int, stacks as int),
        m.triangles@ == sphere_triangles(slices as int, stacks as int),
        m.vertices@.len() == 2 + (stacks - 1) * slices,
        m.triangles@.len() == 2 * slices * (stacks - 1),
        closed_surface(m.triangles@),
        m.vertices@[0] == SphereVertex::SouthPole,
        m.vertices@[m.vertices@.len() - 1] == SphereVertex::NorthPole,
        forall|r: int, i: int|
            0 <= r < stacks - 1 && 0 <= i < slices ==> #[trigger] m.vertices@[1 + ring_index(r, i, slices as int)]
                == SphereVertex::Ring(RingPoint { ring: r as usize, point: i as usize }),
{
    proof {
        lemma_sphere_vertex_names(slices as int, stacks as int);
    }
    let rings = stacks - 1;
    let ring_vertices = ring_point_vertices(rings, slices);
    let mut vertices: Vec<SphereVertex> = Vec::new();
    vertices.push(SphereVertex::SouthPole);
    let mut k: usize = 0;
    while k < ring_vertices.len()
        invariant
            0 <= k <= ring_vertices@.len(),
            vertices@ == seq![SphereVertex::SouthPole]
                + ring_vertices@.take(k as int).map_values(|p: RingPoint| SphereVertex::Ring(p)),
        decreases ring_vertices@.len() - k,
    {
        vertices.push(SphereVertex::Ring(ring_vertices[k]));
        k += 1;
        assert(vertices@ =~= seq![SphereVertex::SouthPole]
            + ring_vertices@.take(k as int).map_values(|p: RingPoint| SphereVertex::Ring(p)));
    }
    vertices.push(SphereVertex::NorthPole);
    assert(ring_vertices@.take(ring_vertices@.len() as int) =~= ring_vertices@);
    assert(vertices@ =~= sphere_vertices(slices as int, stacks as int));
    let vertex_count = vertices.len();
    assert(vertex_count == 2 + rings * slices);

    proof {
        lemma_ring_index_bound(rings - 1, 0, slices as int, rings as int);
        assert((rings - 1) * slices + slices == rings * slices) by (nonlinear_arith);
    }
    let north_pole = 1 + rings * slices;
    let north_ring = 1 + (rings - 1) * slices;
    let ghost fans = Seq::new(
        slices as nat,
        |i: int|
            {
                let next = (i + 1) % (slices as int);
                seq![tri(0, 1 + next, 1 + i), tri(north_pole as int, north_ring + i, north_ring + next)]
            },
    );
    let mut triangles: Vec<[usize; 3]> = Vec::new();
    let mut i: usize = 0;
    while i < slices
        invariant
            0 <= i <= slices,
            slices >= 1,
            rings >= 1,
            vertex_count == 2 + rings * slices,
            north_pole == 1 + rings * slices,
            north_ring == 1 + (rings - 1) * slices,
            north_ring + slices == north_pole,
            fans == Seq::new(
                slices as nat,
                |i: int|
                    {
                        let next = (i + 1) % (slices as int);
                        seq![tri(0, 1 + next, 1 + i), tri(north_pole as int, north_ring + i, north_ring + next)]
                    },
            ),
            triangles@ == fans.take(i as int).flatten(),
            triangles_in_range(triangles@, vertex_count as int),
        decreases slices - i,
    {
        let next = (i + 1) % slices;
        triangles.push([0, 1 + next, 1 + i]);
        triangles.push([north_pole, north_ring + i, north_ring + next]);
        proof {
            lemma_flatten_take_next(fans, i as int);
            assert(triangles@ =~= fans.take(i as int + 1).flatten());
        }
        i += 1;
    }
    assert(fans.take(slices as int) =~= fans);
    let ghost after_fans = triangles@;
    let ghost bands = Seq::new(
        (rings - 1) as nat,
        |r: int| ring_sides(slices as int, 1 + r * slices, 1 + (r + 1) * slices),
    );
    let mut r: usize = 0;
    while r < rings - 1
        invariant
            0 <= r <= rings - 1,
            slices >= 1,
            rings >= 1,
            vertex_count == 2 + rings * slices,
            2 + rings * slices <= usize::MAX,
            bands == Seq::new(
                (rings - 1) as nat,
                |r: int| ring_sides(slices as int, 1 + r * slices, 1 + (r + 1) * slices),
            ),
            triangles@ == after_fans + bands.take(r as int).flatten(),
            triangles_in_range(triangles@, vertex_count as int),
        decreases rings - 1 - r,
    {
        proof {
            lemma_ring_index_bound(r + 1, 0, slices as int, rings as int);
            assert((r + 1) * slices == r * slices + slices) by (nonlinear_arith);
        }
        let south = 1 + r * slices;
        let north = 1 + (r + 1) * slices;
        push_ring_sides(&mut triangles, slices, south, north, vertex_count);
        proof {
            lemma_flatten_take_next(bands, r as int);
            assert(triangles@ =~= after_fans + bands.take(r as int + 1).flatten());
        }
        r += 1;
    }
    assert(bands.take((rings - 1) as int) =~= bands);
    proof {
        lemma_flatten_uniform_len(fans, 2);
        assert forall|k: int| 0 <= k < bands.len() implies #[trigger] bands[k].len() == 2 * slices by {
            lemma_ring_sides_len(slices as int, 1 + k * slices, 1 + (k + 1) * slices);
        }
        lemma_flatten_uniform_len(bands, 2 * slices);
        assert(2 * slices + (rings - 1) * (2 * slices) == 2 * slices * rings) by (nonlinear_arith);
        lemma_sphere_closed(slices as int, stacks as int);
    }
    Mesh::new(vertices, triangles)
}

/// Triangle `2 * i + q` of a sphere mesh is triangle `q` (south, then
/// north) of the pole fans at slice `i`.
proof fn lemma_sphere_fan_at(n: int, stacks: int, i: int, q: int)
    requires
        n >= 1,
        stacks >= 2,
        0 <= i < n,
        0 <= q < 2,
    ensures
        2 * i + q < sphere_triangles(n, stacks).len(),
        sphere_triangles(n, stacks)[2 * i + q] == (if q == 0 {
            tri(0, 1 + (i + 1) % n, 1 + i)
        } else {
            tri(1 + (stacks - 1) * n, 1 + (stacks - 2) * n + i, 1 + (stacks - 2) * n + (i + 1) % n)
        }),
{
    let rings = stacks - 1;
    let north_pole = 1 + rings * n;
    let north_ring = 1 + (rings - 1) * n;
    let fans = Seq::new(
        n as nat,
        |i: int|
            {
                let next = (i + 1) % n;
                seq![tri(0, 1 + next, 1 + i), tri(north_pole, north_ring + i, north_ring + next)]
            },
    );
    assert(sphere_pole_fans(n, stacks) == fans.flatten());
    lemma_flatten_uniform_len(fans, 2);
    lemma_flatten_uniform_index(fans, 2, i, q);
    assert(i * 2 + q == 2 * i + q);
    assert(rings - 1 == stacks - 2);
}

/// Triangle `2 * n + r * 2 * n + 2 * i + q` of a sphere mesh is triangle
/// `q` of the quad at slice `i` of band `r`, counted from the south.
proof fn lemma_sphere_band_at(n: int, stacks: int, r: int, i: int, q: int)
    requires
        n >= 1,
        0 <= r < stacks - 2,
        0 <= i < n,
        0 <= q < 2,
    ensures
        2 * n + r * (2 * n) + 2 * i + q < sphere_triangles(n, stacks).len(),
        sphere_triangles(n, stacks)[2 * n + r * (2 * n) + 2 * i + q] == (if q == 0 {
            tri(1 + r * n + i, 1 + r * n + (i + 1) % n, 1 + (r + 1) * n + (i + 1) % n)
        } else {
            tri(1 + r * n + i, 1 + (r + 1) * n + (i + 1) % n, 1 + (r + 1) * n + i)
        }),
{
    let rings = stacks - 1;
    let fans = sphere_pole_fans(n, stacks);
    let bands = Seq::new((rings - 1) as nat, |r: int| ring_sides(n, 1 + r * n, 1 + (r + 1) * n));
    let north_pole = 1 + rings * n;
    let north_ring = 1 + (rings - 1) * n;
    let fan_groups = Seq::new(
        n as nat,
        |i: int|
            {
                let next = (i + 1) % n;
                seq![tri(0, 1 + next, 1 + i), tri(north_pole, north_ring + i, north_ring + next)]
            },
    );
    assert(fans == fan_groups.flatten());
    lemma_flatten_uniform_len(fan_groups, 2);
    assert forall|j: int| 0 <= j < bands.len() implies #[trigger] bands[j].len() == 2 * n by {
        lemma_ring_sides_len(n, 1 + j * n, 1 + (j + 1) * n);
    }
    lemma_flatten_uniform_len(bands, 2 * n);
    lemma_ring_sides_at(n, 1 + r * n, 1 + (r + 1) * n, i, q);
    lemma_flatten_uniform_index(bands, 2 * n, r, 2 * i + q);
    assert(sphere_triangles(n, stacks) == fans + bands.flatten());
    assert(fans.len() == 2 * n);
    assert(r * (2 * n) + (2 * i + q) == 2 * n + r * (2 * n) + 2 * i + q - fans.len());
}

/// The faces of a sphere mesh close up: every edge of every face is run
/// the other way by a neighbouring face.
pub proof fn lemma_sphere_closed(slices: int, stacks: int)
    requires
        slices >= 1,
        stacks >= 2,
    ensures
        closed_surface(sphere_triangles(slices, stacks)),
{
    let n = slices;
    let rings = stacks - 1;
    let tris = sphere_triangles(n, stacks);
    assert(tris.len() == 2 * n + (rings - 1) * (2 * n)) by {
        lemma_sphere_fan_at(n, stacks, 0, 0);
        let bands = Seq::new((rings - 1) as nat, |r: int| ring_sides(n, 1 + r * n, 1 + (r + 1) * n));
        assert forall|j: int| 0 <= j < bands.len() implies #[trigger] bands[j].len() == 2 * n by {
            lemma_ring_sides_len(n, 1 + j * n, 1 + (j + 1) * n);
        }
        lemma_flatten_uniform_len(bands, 2 * n);
        let north_pole = 1 + rings * n;
        let north_ring = 1 + (rings - 1) * n;
        let fan_groups = Seq::new(
            n as nat,
            |i: int|
                {
                    let next = (i + 1) % n;
                    seq![tri(0, 1 + next, 1 + i), tri(north_pole, north_ring + i, north_ring + next)]
                },
        );
        assert(sphere_pole_fans(n, stacks) == fan_groups.flatten());
        lemma_flatten_uniform_len(fan_groups, 2);
    }
    assert forall|t: int, k: int| 0 <= t < tris.len() && 0 <= k < 3 implies has_edge(
        tris,
        (#[trigger] edge(tris[t], k)).1,
        edge(tris[t], k).0,
    ) by {
        if t < 2 * n {
            lemma_group_position(t, 2);
            let i = t / 2;
            let q = t % 2;
            lemma_sphere_fan_at(n, stacks, i, q);
            lemma_ring_steps(i, n);
            let next = (i + 1) % n;
            let prev = (i + n - 1) % n;
            if q == 0 {
                if k == 0 {
                    lemma_sphere_fan_at(n, stacks, next, 0);
                    assert(edge(tris[2 * next], 2) == (edge(tris[t], k).1, edge(tris[t], k).0));
                } else if k == 1 {
                    if rings >= 2 {
                        lemma_sphere_band_at(n, stacks, 0, i, 0);
                        assert(edge(tris[2 * n + 0 * (2 * n) + 2 * i + 0], 0) == (edge(tris[t], k).1, edge(tris[t], k).0));
                    } else {
                        lemma_sphere_fan_at(n, stacks, i, 1);
                        assert(edge(tris[2 * i + 1], 1) == (edge(tris[t], k).1, edge(tris[t], k).0));
                    }
                } else {
                    lemma_sphere_fan_at(n, stacks, prev, 0);
                    assert(edge(tris[2 * prev], 0) == (edge(tris[t], k).1, edge(tris[t], k).0));
                }
            } else {
                if k == 0 {
                    lemma_sphere_fan_at(n, stacks, prev, 1);
                    assert(edge(tris[2 * prev + 1], 2) == (edge(tris[t], k).1, edge(tris[t], k).0));
                } else if k == 1 {
                    if rings >= 2 {
                        lemma_sphere_band_at(n, stacks, rings - 2, i, 1);
                        assert(1 + (rings - 2 + 1) * n == 1 + (stacks - 2) * n);
                        assert(edge(tris[2 * n + (rings - 2) * (2 * n) + 2 * i + 1], 1) == (
                            edge(tris[t], k).1,
                            edge(tris[t], k).0,
                        ));
                    } else {
                        lemma_sphere_fan_at(n, stacks, i, 0);
                        assert(edge(tris[2 * i], 1) == (edge(tris[t], k).1, edge(tris[t], k).0));
                    }
                } else {
                    lemma_sphere_fan_at(n, stacks, next, 1);
                    assert(edge(tris[2 * next + 1], 0) == (edge(tris[t], k).1, edge(tris[t], k).0));
                }
            }
        } else {
            let j = t - 2 * n;
            lemma_group_position(j, 2 * n);
            let r = j / (2 * n);
            let rem = j % (2 * n);
            lemma_group_position(rem, 2);
            let i = rem / 2;
            let q = rem % 2;
            assert(r < rings - 1) by (nonlinear_arith)
                requires
                    j == r * (2 * n) + rem,
                    0 <= rem < 2 * n,
                    j < (rings - 1) * (2 * n),
                    n >= 1,
            ;
            assert(i < n);
            assert(t == 2 * n + r * (2 * n) + 2 * i + q);
            lemma_sphere_band_at(n, stacks, r, i, q);
            lemma_ring_steps(i, n);
            let next = (i + 1) % n;
            let prev = (i + n - 1) % n;
            if q == 0 {
                if k == 0 {
                    if r == 0 {
                        lemma_sphere_fan_at(n, stacks, i, 0);
                        assert(edge(tris[2 * i], 1) == (edge(tris[t], k).1, edge(tris[t], k).0));
                    } else {
                        lemma_sphere_band_at(n, stacks, r - 1, i, 1);
                        assert(1 + (r - 1 + 1) * n == 1 + r * n);
                        assert(edge(tris[2 * n + (r - 1) * (2 * n) + 2 * i + 1], 1) == (
                            edge(tris[t], k).1,
                            edge(tris[t], k).0,
                        ));
                    }
                } else if k == 1 {
                    lemma_sphere_band_at(n, stacks, r, next, 1);
                    assert(edge(tris[2 * n + r * (2 * n) + 2 * next + 1], 2) == (
                        edge(tris[t], k).1,
                        edge(tris[t], k).0,
                    ));
                } else {
                    lemma_sphere_band_at(n, stacks, r, i, 1);
                    assert(edge(tris[2 * n + r * (2 * n) + 2 * i + 1], 0) == (
                        edge(tris[t], k).1,
                        edge(tris[t], k).0,
                    ));
                }
            } else {
                if k == 0 {
                    lemma_sphere_band_at(n, stacks, r, i, 0);
                    assert(edge(tris[2 * n + r * (2 * n) + 2 * i], 2) == (
                        edge(tris[t], k).1,
                        edge(tris[t], k).0,
                    ));
                } else if k == 1 {
                    if r + 1 == rings - 1 {
                        lemma_sphere_fan_at(n, stacks, i, 1);
                        assert(1 + (r + 1) * n == 1 + (stacks - 2) * n);
                        assert(edge(tris[2 * i + 1], 1) == (edge(tris[t], k).1, edge(tris[t], k).0));
                    } else {
                        lemma_sphere_band_at(n, stacks, r + 1, i, 0);
                        assert(edge(tris[2 * n + (r + 1) * (2 * n) + 2 * i], 0) == (
                            edge(tris[t], k).1,
                            edge(tris[t], k).0,
                        ));
                    }
                } else {
                    lemma_sphere_band_at(n, stacks, r, prev, 0);
                    assert(edge(tris[2 * n + r * (2 * n) + 2 * prev], 1) == (
                        edge(tris[t], k).1,
                        edge(tris[t], k).0,
                    ));
                }
            }
        }
    }
}

} // verus!
