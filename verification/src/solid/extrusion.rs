//! Prisms: a sketch lifted along Z.

use vstd::prelude::*;

use crate::length::Length;
use crate::mesh::{
    Mesh, RingPoint, lemma_flatten_take_next, lemma_flatten_uniform_index, lemma_flatten_uniform_len,
    lemma_ring_index_bound, ring_point_vertices,
    ring_points, tri, triangles_in_range,
};
use crate::sketch::polygon::coordinates_bounded;
use crate::mesh::{closed_surface, edge, has_edge, lemma_group_position, lemma_ring_steps, lemma_ring_points_numbered, ring_numbered};
use crate::sketch::triangulate::{contour_indices, lemma_triangulation_tiles, succ, tiles, triangulate, triangulation};

verus! {

/// A solid produced by lifting a sketch along Z.
#[derive(Debug, Clone, Copy, PartialEq, Eq, Structural)]
pub struct Extrusion<S> {
    pub sketch: S,
    pub height: Length,
}

impl<S> Extrusion<S> {
    pub fn new(sketch: S, height: Length) -> (e: Extrusion<S>)
        ensures
            e.sketch == sketch,
            e.height == height,
    {
        Extrusion { sketch, height }
    }
}

/// The two end caps: each cap triangle `[a, b, c]` of the contour closes the
/// first ring turned around (`[a, c, b]`, facing down) and the ring that
/// starts at index `last` as it is (facing up).
pub open spec fn end_caps(caps: Seq<[usize; 3]>, last: int) -> Seq<[usize; 3]> {
    Seq::new(
        caps.len(),
        |c: int|
            seq![
                tri(caps[c][0] as int, caps[c][2] as int, caps[c][1] as int),
                tri(last + caps[c][0], last + caps[c][1], last + caps[c][2]),
            ],
    ).flatten()
}

/// The quad strip between a ring that starts at `r0` and the ring that
/// starts at `r1`, two triangles per contour edge.
pub open spec fn ring_sides(n: int, r0: int, r1: int) -> Seq<[usize; 3]> {
    Seq::new(
        n as nat,
        |i: int|
            {
                let next = (i + 1) % n;
                seq![tri(r0 + i, r0 + next, r1 + next), tri(r0 + i, r1 + next, r1 + i)]
            },
    ).flatten()
}

/// The end caps hold two triangles per cap triangle.
pub proof fn lemma_end_caps_len(caps: Seq<[usize; 3]>, last: int)
    ensures
        end_caps(caps, last).len() == 2 * caps.len(),
{
    let groups = Seq::new(
        caps.len(),
        |c: int|
            seq![
                tri(caps[c][0] as int, caps[c][2] as int, caps[c][1] as int),
                tri(last + caps[c][0], last + caps[c][1], last + caps[c][2]),
            ],
    );
    assert(end_caps(caps, last) == groups.flatten());
    lemma_flatten_uniform_len(groups, 2);
}

/// A quad strip holds two triangles per contour edge.
pub proof fn lemma_ring_sides_len(n: int, r0: int, r1: int)
    requires
        n >= 0,
    ensures
        ring_sides(n, r0, r1).len() == 2 * n,
{
    let groups = Seq::new(
        n as nat,
        |i: int|
            {
                let next = (i + 1) % n;
                seq![tri(r0 + i, r0 + next, r1 + next), tri(r0 + i, r1 + next, r1 + i)]
            },
    );
    assert(ring_sides(n, r0, r1) == groups.flatten());
    lemma_flatten_uniform_len(groups, 2);
}

/// Triangle `2 * i + q` of a quad strip is triangle `q` of the quad at
/// contour edge `i`.
pub proof fn lemma_ring_sides_at(n: int, r0: int, r1: int, i: int, q: int)
    requires
        0 <= i < n,
        0 <= q < 2,
    ensures
        ring_sides(n, r0, r1).len() == 2 * n,
        ring_sides(n, r0, r1)[2 * i + q] == (if q == 0 {
            tri(r0 + i, r0 + (i + 1) % n, r1 + (i + 1) % n)
        } else {
            tri(r0 + i, r1 + (i + 1) % n, r1 + i)
        }),
{
    let groups = Seq::new(
        n as nat,
        |i: int|
            {
                let next = (i + 1) % n;
                seq![tri(r0 + i, r0 + next, r1 + next), tri(r0 + i, r1 + next, r1 + i)]
            },
    );
    assert(ring_sides(n, r0, r1) == groups.flatten());
    lemma_ring_sides_len(n, r0, r1);
    lemma_flatten_uniform_index(groups, 2, i, q);
    assert(i * 2 + q == 2 * i + q);
}

/// Triangle `2 * c + q` of the end caps is the bottom (`q == 0`) or the top
/// (`q == 1`) copy of cap triangle `c`.
pub proof fn lemma_end_caps_at(caps: Seq<[usize; 3]>, last: int, c: int, q: int)
    requires
        0 <= c < caps.len(),
        0 <= q < 2,
    ensures
        end_caps(caps, last).len() == 2 * caps.len(),
        end_caps(caps, last)[2 * c + q] == (if q == 0 {
            tri(caps[c][0] as int, caps[c][2] as int, caps[c][1] as int)
        } else {
            tri(last + caps[c][0], last + caps[c][1], last + caps[c][2])
        }),
{
    let groups = Seq::new(
        caps.len(),
        |c: int|
            seq![
                tri(caps[c][0] as int, caps[c][2] as int, caps[c][1] as int),
                tri(last + caps[c][0], last + caps[c][1], last + caps[c][2]),
            ],
    );
    assert(end_caps(caps, last) == groups.flatten());
    lemma_end_caps_len(caps, last);
    lemma_flatten_uniform_index(groups, 2, c, q);
    assert(c * 2 + q == 2 * c + q);
}

/// Appends the end caps for the ring that starts at `last`.
pub(crate) fn push_end_caps(
    triangles: &mut Vec<[usize; 3]>,
    caps: &Vec<[usize; 3]>,
    n: usize,
    last: usize,
    vertex_count: usize,
)
    requires
        triangles_in_range(caps@, n as int),
        n <= vertex_count,
        last + n <= vertex_count,
        triangles_in_range(old(triangles)@, vertex_count as int),
    ensures
        final(triangles)@ == old(triangles)@ + end_caps(caps@, last as int),
        triangles_in_range(final(triangles)@, vertex_count as int),
{
    let ghost start = triangles@;
    let ghost groups = Seq::new(
        caps@.len(),
        |c: int|
            seq![
                tri(caps@[c][0] as int, caps@[c][2] as int, caps@[c][1] as int),
                tri(last + caps@[c][0], last + caps@[c][1], last + caps@[c][2]),
            ],
    );
    let mut c: usize = 0;
    while c < caps.len()
        invariant
            0 <= c <= caps@.len(),
            triangles_in_range(caps@, n as int),
            n <= vertex_count,
            last + n <= vertex_count,
            groups.len() == caps@.len(),
            groups == Seq::new(
                caps@.len(),
                |c: int|
                    seq![
                        tri(caps@[c][0] as int, caps@[c][2] as int, caps@[c][1] as int),
                        tri(last + caps@[c][0], last + caps@[c][1], last + caps@[c][2]),
                    ],
            ),
            triangles@ == start + groups.take(c as int).flatten(),
            triangles_in_range(triangles@, vertex_count as int),
        decreases caps@.len() - c,
    {
        let cap = caps[c];
        assert(cap[0] < n && cap[1] < n && cap[2] < n);
        triangles.push([cap[0], cap[2], cap[1]]);
        triangles.push([last + cap[0], last + cap[1], last + cap[2]]);
        proof {
            lemma_flatten_take_next(groups, c as int);
            assert(triangles@ =~= start + groups.take(c as int + 1).flatten());
        }
        c += 1;
    }
    assert(groups.take(caps@.len() as int) =~= groups);
}

/// Appends the quad strip between the rings that start at `r0` and `r1`.
pub(crate) fn push_ring_sides(
    triangles: &mut Vec<[usize; 3]>,
    n: usize,
    r0: usize,
    r1: usize,
    vertex_count: usize,
)
    requires
        n >= 1,
        r0 + n <= vertex_count,
        r1 + n <= vertex_count,
        triangles_in_range(old(triangles)@, vertex_count as int),
    ensures
        final(triangles)@ == old(triangles)@ + ring_sides(n as int, r0 as int, r1 as int),
        triangles_in_range(final(triangles)@, vertex_count as int),
{
    let ghost start = triangles@;
    let ghost groups = Seq::new(
        n as nat,
        |i: int|
            {
                let next = (i + 1) % (n as int);
                seq![tri(r0 + i, r0 + next, r1 + next), tri(r0 + i, r1 + next, r1 + i)]
            },
    );
    let mut i: usize = 0;
    while i < n
        invariant
            0 <= i <= n,
            n >= 1,
            r0 + n <= vertex_count,
            r1 + n <= vertex_count,
            groups == Seq::new(
                n as nat,
                |i: int|
                    {
                        let next = (i + 1) % (n as int);
                        seq![tri(r0 + i, r0 + next, r1 + next), tri(r0 + i, r1 + next, r1 + i)]
                    },
            ),
            triangles@ == start + groups.take(i as int).flatten(),
            triangles_in_range(triangles@, vertex_count as int),
        decreases n - i,
    {
        let next = (i + 1) % n;
        triangles.push([r0 + i, r0 + next, r1 + next]);
        triangles.push([r0 + i, r1 + next, r1 + i]);
        proof {
            lemma_flatten_take_next(groups, i as int);
            assert(triangles@ =~= start + groups.take(i as int + 1).flatten());
        }
        i += 1;
    }
    assert(groups.take(n as int) =~= groups);
}

/// The triangles of a prism over a contour of `n` points whose caps are
/// triangulated by `caps`: the caps, then the sides.
pub open spec fn prism_triangles(n: int, caps: Seq<[usize; 3]>) -> Seq<[usize; 3]> {
    end_caps(caps, n) + ring_sides(n, 0, n)
}

/// The mesh of a prism over a contour of `n` points, with each vertex named
/// by its ring (0 bottom, 1 top) and contour point. `caps` triangulates the
/// contour. With fewer than three points, or without cap triangles, the
/// mesh is empty.
pub fn prism_mesh(n: usize, caps: &Vec<[usize; 3]>) -> (m: Mesh<RingPoint>)
    requires
        triangles_in_range(caps@, n as int),
        2 * n <= usize::MAX,
    ensures
        m.well_formed(),
        if n < 3 || caps@.len() == 0 {
            m.vertices@.len() == 0 && m.triangles@.len() == 0
        } else {
            &&& m.vertices@ == ring_points(2, n as int)
            &&& ring_numbered(m.vertices@, 2, n as int)
            &&& m.triangles@ == prism_triangles(n as int, caps@)
            &&& m.vertices@.len() == 2 * n
            &&& m.triangles@.len() == 2 * caps@.len() + 2 * n
            &&& tiles(caps@, contour_indices(n as int)) ==> closed_surface(m.triangles@)
        },
{
    if n < 3 || caps.len() == 0 {
        return Mesh::empty();
    }
    proof {
        lemma_ring_points_numbered(2, n as int);
        lemma_end_caps_len(caps@, n as int);
        lemma_ring_sides_len(n as int, 0, n as int);
        if tiles(caps@, contour_indices(n as int)) {
            lemma_prism_closed(n as int, caps@);
        }
    }
    let vertices = ring_point_vertices(2, n);
    let vertex_count = vertices.len();
    assert(vertex_count == 2 * n);
    let mut triangles: Vec<[usize; 3]> = Vec::new();
    push_end_caps(&mut triangles, caps, n, n, vertex_count);
    push_ring_sides(&mut triangles, n, 0, n, vertex_count);
    assert(triangles@ =~= prism_triangles(n as int, caps@));
    Mesh::new(vertices, triangles)
}

/// The mesh of a prism over `contour`, its caps triangulated by ear
/// clipping. A contour of fewer than three points, or one that ear clipping
/// cannot split, gives an empty mesh.
pub fn contour_prism_mesh(contour: &Vec<[Length; 2]>) -> (m: Mesh<RingPoint>)
    requires
        coordinates_bounded(contour@),
        2 * contour@.len() <= usize::MAX,
    ensures
        m.well_formed(),
        if triangulation(contour@).len() == 0 {
            m.vertices@.len() == 0 && m.triangles@.len() == 0
        } else {
            &&& m.vertices@ == ring_points(2, contour@.len() as int)
            &&& ring_numbered(m.vertices@, 2, contour@.len() as int)
            &&& m.triangles@ == prism_triangles(contour@.len() as int, triangulation(contour@))
            &&& m.vertices@.len() == 2 * contour@.len()
            &&& m.triangles@.len() == 4 * contour@.len() - 4
            &&& closed_surface(m.triangles@)
        },
{
    let caps = triangulate(contour);
    proof {
        if triangulation(contour@).len() > 0 {
            lemma_triangulation_tiles(contour@);
            lemma_prism_closed(contour@.len() as int, triangulation(contour@));
        }
    }
    prism_mesh(contour.len(), &caps)
}

/// The triangles of a twisted prism over a contour of `n` points with
/// `slices` layers: the caps, then the sides of each layer from the bottom.
pub open spec fn twisted_prism_triangles(n: int, slices: int, caps: Seq<[usize; 3]>) -> Seq<[usize; 3]> {
    end_caps(caps, slices * n) + Seq::new(slices as nat, |r: int| ring_sides(n, r * n, (r + 1) * n)).flatten()
}

/// The mesh of a prism over a contour of `n` points cut into `slices`
/// layers, `slices + 1` rings from the bottom up. `caps` triangulates the
/// contour. With fewer than three points, or without cap triangles, the
/// mesh is empty.
pub fn twisted_prism_mesh(n: usize, slices: usize, caps: &Vec<[usize; 3]>) -> (m: Mesh<RingPoint>)
    requires
        triangles_in_range(caps@, n as int),
        slices >= 1,
        (slices + 1) * n <= usize::MAX,
    ensures
        m.well_formed(),
        if n < 3 || caps@.len() == 0 {
            m.vertices@.len() == 0 && m.triangles@.len() == 0
        } else {
            &&& m.vertices@ == ring_points(slices + 1, n as int)
            &&& ring_numbered(m.vertices@, slices + 1, n as int)
            &&& m.triangles@ == twisted_prism_triangles(n as int, slices as int, caps@)
            &&& m.vertices@.len() == (slices + 1) * n
            &&& m.triangles@.len() == 2 * caps@.len() + slices * (2 * n)
            &&& tiles(caps@, contour_indices(n as int)) ==> closed_surface(m.triangles@)
            &&& slices == 1 ==> m.triangles@ == prism_triangles(n as int, caps@)
        },
{
    if n < 3 || caps.len() == 0 {
        return Mesh::empty();
    }
    proof {
        lemma_one_layer_twist_is_prism(n as int, caps@);
        lemma_ring_points_numbered(slices + 1, n as int);
    }
    assert(slices + 1 <= (slices + 1) * n) by (nonlinear_arith)
        requires n >= 3;
    let vertices = ring_point_vertices(slices + 1, n);
    let vertex_count = vertices.len();
    proof {
        lemma_ring_index_bound(slices as int, 0, n as int, slices + 1);
    }
    let last = slices * n;
    let mut triangles: Vec<[usize; 3]> = Vec::new();
    push_end_caps(&mut triangles, caps, n, last, vertex_count);
    let ghost after_caps = triangles@;
    let ghost layers = Seq::new(slices as nat, |r: int| ring_sides(n as int, r * n, (r + 1) * n));
    let mut r: usize = 0;
    while r < slices
        invariant
            0 <= r <= slices,
            n >= 3,
            vertex_count == (slices + 1) * n,
            (slices + 1) * n <= usize::MAX,
            layers == Seq::new(slices as nat, |r: int| ring_sides(n as int, r * n, (r + 1) * n)),
            triangles@ == after_caps + layers.take(r as int).flatten(),
            triangles_in_range(triangles@, vertex_count as int),
        decreases slices - r,
    {
        proof {
            lemma_ring_index_bound(r + 1, 0, n as int, slices + 1);
            assert((r + 1) * n == r * n + n) by (nonlinear_arith);
        }
        let r0 = r * n;
        let r1 = (r + 1) * n;
        push_ring_sides(&mut triangles, n, r0, r1, vertex_count);
        proof {
            lemma_flatten_take_next(layers, r as int);
            assert(triangles@ =~= after_caps + layers.take(r as int + 1).flatten());
        }
        r += 1;
    }
    assert(layers.take(slices as int) =~= layers);
    proof {
        lemma_end_caps_len(caps@, last as int);
        assert forall|k: int| 0 <= k < layers.len() implies #[trigger] layers[k].len() == 2 * n by {
            lemma_ring_sides_len(n as int, k * n, (k + 1) * n);
        }
        lemma_flatten_uniform_len(layers, 2 * n);
        if tiles(caps@, contour_indices(n as int)) {
            lemma_twisted_prism_closed(n as int, slices as int, caps@);
        }
    }
    Mesh::new(vertices, triangles)
}

/// A twisted prism of one layer is the plain prism: a twist of zero gives
/// the same mesh as a straight extrusion.
pub proof fn lemma_one_layer_twist_is_prism(n: int, caps: Seq<[usize; 3]>)
    requires
        n >= 3,
    ensures
        twisted_prism_triangles(n, 1, caps) == prism_triangles(n, caps),
{
    let layers = Seq::new(1nat, |r: int| ring_sides(n, r * n, (r + 1) * n));
    assert(layers[0] == ring_sides(n, 0, n));
    assert(layers.len() == 1);
    layers.lemma_flatten_one_element();
    assert(end_caps(caps, 1 * n) == end_caps(caps, n));
}

/// The faces of a prism close up when its caps tile the contour: every
/// edge of every face is run the other way by a neighbouring face.
pub proof fn lemma_prism_closed(n: int, caps: Seq<[usize; 3]>)
    requires
        n >= 3,
        2 * n <= usize::MAX,
        triangles_in_range(caps, n),
        tiles(caps, contour_indices(n)),
    ensures
        closed_surface(prism_triangles(n, caps)),
{
    let tris = prism_triangles(n, caps);
    let cn = caps.len() as int;
    let init = contour_indices(n);
    lemma_end_caps_len(caps, n);
    lemma_ring_sides_len(n, 0, n);
    assert forall|t: int, k: int| 0 <= t < tris.len() && 0 <= k < 3 implies has_edge(
        tris,
        (#[trigger] edge(tris[t], k)).1,
        edge(tris[t], k).0,
    ) by {
        if t < 2 * cn {
            lemma_group_position(t, 2);
            let c = t / 2;
            let q = t % 2;
            lemma_end_caps_at(caps, n, c, q);
            assert(tris[t] == end_caps(caps, n)[2 * c + q]);
            assert(caps[c][0] < n && caps[c][1] < n && caps[c][2] < n);
            let ce = if q == 0 { 2 - k } else { k };
            let (x, y) = edge(caps[c], ce);
            if q == 0 {
                assert(edge(tris[t], k) == (y, x));
            } else {
                assert(edge(tris[t], k) == ((n + x) as usize, (n + y) as usize));
            }
            if has_edge(caps, y, x) {
                let (c2, k2) = choose|c2: int, k2: int|
                    0 <= c2 < caps.len() && 0 <= k2 < 3 && #[trigger] edge(caps[c2], k2) == (y, x);
                lemma_end_caps_at(caps, n, c2, q);
                assert(caps[c2][0] < n && caps[c2][1] < n && caps[c2][2] < n);
                let kk = if q == 0 { 2 - k2 } else { k2 };
                assert(tris[2 * c2 + q] == end_caps(caps, n)[2 * c2 + q]);
                assert(edge(tris[2 * c2 + q], kk) == (edge(tris[t], k).1, edge(tris[t], k).0));
            } else {
                assert(crate::sketch::triangulate::is_boundary(init, x, y));
                let j = choose|j: int| 0 <= j < init.len() && init[j] == x && #[trigger] succ(init, j) == y;
                lemma_ring_sides_at(n, 0, n, j, q);
                let w = 2 * cn + 2 * j + q;
                assert(tris[w] == ring_sides(n, 0, n)[2 * j + q]);
                let kk = if q == 0 { 0int } else { 1int };
                assert(edge(tris[w], kk) == (edge(tris[t], k).1, edge(tris[t], k).0));
            }
        } else {
            let j = t - 2 * cn;
            lemma_group_position(j, 2);
            let i = j / 2;
            let q = j % 2;
            assert(i < n);
            lemma_ring_sides_at(n, 0, n, i, q);
            assert(tris[t] == ring_sides(n, 0, n)[2 * i + q]);
            lemma_ring_steps(i, n);
            let next = (i + 1) % n;
            let prev = (i + n - 1) % n;
            if (q == 0 && k == 0) || (q == 1 && k == 1) {
                assert(init[i] == i as usize && succ(init, i) == next as usize);
                assert(has_edge(caps, init[i], succ(init, i)));
                let (c2, k2) = choose|c2: int, k2: int|
                    0 <= c2 < caps.len() && 0 <= k2 < 3 && #[trigger] edge(caps[c2], k2) == (
                        init[i],
                        succ(init, i),
                    );
                let q2 = if q == 0 { 0int } else { 1int };
                lemma_end_caps_at(caps, n, c2, q2);
                assert(caps[c2][0] < n && caps[c2][1] < n && caps[c2][2] < n);
                assert(tris[2 * c2 + q2] == end_caps(caps, n)[2 * c2 + q2]);
                let kk = if q == 0 { 2 - k2 } else { k2 };
                assert(edge(tris[2 * c2 + q2], kk) == (edge(tris[t], k).1, edge(tris[t], k).0));
            } else {
                let (i2, q2, k2): (int, int, int) = if q == 0 {
                    if k == 1 { (next, 1, 2) } else { (i, 1, 0) }
                } else {
                    if k == 0 { (i, 0, 2) } else { (prev, 0, 1) }
                };
                lemma_ring_sides_at(n, 0, n, i2, q2);
                let w = 2 * cn + 2 * i2 + q2;
                assert(tris[w] == ring_sides(n, 0, n)[2 * i2 + q2]);
                assert(edge(tris[w], k2) == (edge(tris[t], k).1, edge(tris[t], k).0));
            }
        }
    }
}

/// Triangle `2 * caps.len() + r * 2 * n + 2 * i + q` of a twisted prism is
/// triangle `q` of the quad at contour edge `i` of layer `r`.
proof fn lemma_twisted_side_at(n: int, slices: int, caps: Seq<[usize; 3]>, r: int, i: int, q: int)
    requires
        0 <= r < slices,
        0 <= i < n,
        0 <= q < 2,
    ensures
        twisted_prism_triangles(n, slices, caps).len() == 2 * caps.len() + slices * (2 * n),
        0 <= 2 * caps.len() + r * (2 * n) + 2 * i + q < twisted_prism_triangles(n, slices, caps).len(),
        twisted_prism_triangles(n, slices, caps)[2 * caps.len() + r * (2 * n) + 2 * i + q] == ring_sides(
            n,
            r * n,
            (r + 1) * n,
        )[2 * i + q],
{
    let layers = Seq::new(slices as nat, |r: int| ring_sides(n, r * n, (r + 1) * n));
    assert forall|k: int| 0 <= k < layers.len() implies #[trigger] layers[k].len() == 2 * n by {
        lemma_ring_sides_len(n, k * n, (k + 1) * n);
    }
    lemma_flatten_uniform_len(layers, 2 * n);
    lemma_end_caps_len(caps, slices * n);
    lemma_ring_sides_len(n, r * n, (r + 1) * n);
    lemma_flatten_uniform_index(layers, 2 * n, r, 2 * i + q);
}

/// The faces of a twisted prism close up when its caps tile the contour:
/// every edge of every face is run the other way by a neighbouring face.
pub proof fn lemma_twisted_prism_closed(n: int, slices: int, caps: Seq<[usize; 3]>)
    requires
        n >= 3,
        slices >= 1,
        (slices + 1) * n <= usize::MAX,
        triangles_in_range(caps, n),
        tiles(caps, contour_indices(n)),
    ensures
        closed_surface(twisted_prism_triangles(n, slices, caps)),
{
    let tris = twisted_prism_triangles(n, slices, caps);
    let cn = caps.len() as int;
    let init = contour_indices(n);
    let last = slices * n;
    lemma_end_caps_len(caps, last);
    lemma_twisted_side_at(n, slices, caps, 0, 0, 0);
    assert(last + n <= (slices + 1) * n) by (nonlinear_arith)
        requires
            last == slices * n,
    ;
    assert forall|t: int, k: int| 0 <= t < tris.len() && 0 <= k < 3 implies has_edge(
        tris,
        (#[trigger] edge(tris[t], k)).1,
        edge(tris[t], k).0,
    ) by {
        if t < 2 * cn {
            lemma_group_position(t, 2);
            let c = t / 2;
            let q = t % 2;
            lemma_end_caps_at(caps, last, c, q);
            assert(tris[t] == end_caps(caps, last)[2 * c + q]);
            assert(caps[c][0] < n && caps[c][1] < n && caps[c][2] < n);
            let ce = if q == 0 { 2 - k } else { k };
            let (x, y) = edge(caps[c], ce);
            if has_edge(caps, y, x) {
                let (c2, k2) = choose|c2: int, k2: int|
                    0 <= c2 < caps.len() && 0 <= k2 < 3 && #[trigger] edge(caps[c2], k2) == (y, x);
                lemma_end_caps_at(caps, last, c2, q);
                assert(caps[c2][0] < n && caps[c2][1] < n && caps[c2][2] < n);
                let kk = if q == 0 { 2 - k2 } else { k2 };
                assert(tris[2 * c2 + q] == end_caps(caps, last)[2 * c2 + q]);
                assert(edge(tris[2 * c2 + q], kk) == (edge(tris[t], k).1, edge(tris[t], k).0));
            } else {
                assert(crate::sketch::triangulate::is_boundary(init, x, y));
                let j = choose|j: int| 0 <= j < init.len() && init[j] == x && #[trigger] succ(init, j) == y;
                let r = if q == 0 { 0int } else { slices - 1 };
                lemma_twisted_side_at(n, slices, caps, r, j, q);
                lemma_ring_sides_at(n, r * n, (r + 1) * n, j, q);
                let w = 2 * cn + r * (2 * n) + 2 * j + q;
                let kk = if q == 0 { 0int } else { 1int };
                assert(edge(tris[w], kk) == (edge(tris[t], k).1, edge(tris[t], k).0));
            }
        } else {
            let j = t - 2 * cn;
            lemma_group_position(j, 2 * n);
            let r = j / (2 * n);
            let rem = j % (2 * n);
            lemma_group_position(rem, 2);
            let i = rem / 2;
            let q = rem % 2;
            assert(r < slices) by (nonlinear_arith)
                requires
                    j == r * (2 * n) + rem,
                    0 <= rem < 2 * n,
                    j < slices * (2 * n),
                    n >= 1,
            ;
            assert(i < n);
            lemma_twisted_side_at(n, slices, caps, r, i, q);
            lemma_ring_sides_at(n, r * n, (r + 1) * n, i, q);
            assert(tris[t] == ring_sides(n, r * n, (r + 1) * n)[2 * i + q]);
            assert(r * n + n <= (slices + 1) * n && (r + 1) * n == r * n + n) by (nonlinear_arith)
                requires
                    0 <= r < slices,
                    n >= 3,
            ;
            lemma_ring_steps(i, n);
            let next = (i + 1) % n;
            let prev = (i + n - 1) % n;
            let to_cap = (q == 0 && k == 0 && r == 0) || (q == 1 && k == 1 && r == slices - 1);
            if to_cap {
                assert(init[i] == i as usize && succ(init, i) == next as usize);
                assert(has_edge(caps, init[i], succ(init, i)));
                let (c2, k2) = choose|c2: int, k2: int|
                    0 <= c2 < caps.len() && 0 <= k2 < 3 && #[trigger] edge(caps[c2], k2) == (
                        init[i],
                        succ(init, i),
                    );
                lemma_end_caps_at(caps, last, c2, q);
                assert(caps[c2][0] < n && caps[c2][1] < n && caps[c2][2] < n);
                assert(tris[2 * c2 + q] == end_caps(caps, last)[2 * c2 + q]);
                let kk = if q == 0 { 2 - k2 } else { k2 };
                assert(edge(tris[2 * c2 + q], kk) == (edge(tris[t], k).1, edge(tris[t], k).0));
            } else {
                let (r2, i2, q2, k2): (int, int, int, int) = if q == 0 {
                    if k == 0 { (r - 1, i, 1, 1) } else if k == 1 { (r, next, 1, 2) } else { (r, i, 1, 0) }
                } else {
                    if k == 0 { (r, i, 0, 2) } else if k == 1 { (r + 1, i, 0, 0) } else { (r, prev, 0, 1) }
                };
                lemma_twisted_side_at(n, slices, caps, r2, i2, q2);
                lemma_ring_sides_at(n, r2 * n, (r2 + 1) * n, i2, q2);
                assert((r - 1 + 1) * n == r * n && (r + 1 + 1) * n == (r + 1) * n + n) by (nonlinear_arith);
                let w = 2 * cn + r2 * (2 * n) + 2 * i2 + q2;
                assert(edge(tris[w], k2) == (edge(tris[t], k).1, edge(tris[t], k).0));
            }
        }
    }
}

} // verus!
