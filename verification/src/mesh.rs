//! Triangle meshes: vertices plus triangles that index into them.

use vstd::prelude::*;

verus! {

/// A triangle of three vertex indices.
pub open spec fn tri(a: int, b: int, c: int) -> [usize; 3] {
    [a as usize, b as usize, c as usize]
}

/// The same triangle with the opposite winding: the last two corners swap.
pub open spec fn flipped(t: [usize; 3]) -> [usize; 3] {
    [t[0], t[2], t[1]]
}

/// Every corner of every triangle is an index below `n`.
pub open spec fn triangles_in_range(triangles: Seq<[usize; 3]>, n: int) -> bool {
    forall|t: int, k: int| 0 <= t < triangles.len() && 0 <= k < 3 ==> #[trigger] triangles[t][k] < n
}

/// A vertex of a mesh built from copies of a contour: point `point` of the
/// contour in copy (ring) `ring`. Its index in the mesh is `ring * n + point`
/// for a contour of `n` points.
#[derive(Debug, Clone, Copy, PartialEq, Eq, Structural)]
pub struct RingPoint {
    pub ring: usize,
    pub point: usize,
}

/// The vertices of `rings` copies of a contour of `n` points, ring by ring.
pub open spec fn ring_points(rings: int, n: int) -> Seq<RingPoint> {
    Seq::new((rings * n) as nat, |k: int| RingPoint { ring: (k / n) as usize, point: (k % n) as usize })
}

/// Point `i` of ring `r` sits at index `r * n + i`.
pub proof fn lemma_ring_index(r: int, i: int, n: int)
    requires
        0 <= r,
        0 <= i < n,
    ensures
        (r * n + i) / n == r,
        (r * n + i) % n == i,
{
    vstd::arithmetic::div_mod::lemma_fundamental_div_mod_converse(r * n + i, n, r, i);
}

/// The position of point `i` of ring `r`, in rings of `n` points.
pub open spec fn ring_index(r: int, i: int, n: int) -> int {
    r * n + i
}

/// The vertices are `rings` rings of `n` points, numbered ring by ring and,
/// within each ring, point by point in contour order: every ring the same
/// way round.
pub open spec fn ring_numbered(v: Seq<RingPoint>, rings: int, n: int) -> bool {
    &&& v.len() == rings * n
    &&& forall|r: int, i: int|
        0 <= r < rings && 0 <= i < n ==> #[trigger] v[ring_index(r, i, n)] == RingPoint {
            ring: r as usize,
            point: i as usize,
        }
}

/// The ring points are numbered ring by ring, each ring in contour order.
pub proof fn lemma_ring_points_numbered(rings: int, n: int)
    requires
        rings >= 0,
        n >= 1,
    ensures
        ring_numbered(ring_points(rings, n), rings, n),
{
    let v = ring_points(rings, n);
    assert(rings * n >= 0) by (nonlinear_arith)
        requires rings >= 0, n >= 1;
    assert forall|r: int, i: int| 0 <= r < rings && 0 <= i < n implies #[trigger] v[ring_index(r, i, n)] == RingPoint {
        ring: r as usize,
        point: i as usize,
    } by {
        lemma_ring_index(r, i, n);
        lemma_ring_index_bound(r, i, n, rings);
    }
}

/// An index into ring `r` of `rings` rings of `n` points lies below `rings * n`.
pub proof fn lemma_ring_index_bound(r: int, i: int, n: int, rings: int)
    requires
        0 <= r < rings,
        0 <= i < n,
    ensures
        0 <= r * n + i < rings * n,
        r * n + n <= rings * n,
{
    assert(r * n + n <= rings * n) by (nonlinear_arith)
        requires 0 <= r < rings, 0 <= i < n;
    assert(0 <= r * n) by (nonlinear_arith)
        requires 0 <= r, 0 <= i < n;
}

/// The vertices of `rings` copies of a contour of `n` points, ring by ring.
pub fn ring_point_vertices(rings: usize, n: usize) -> (v: Vec<RingPoint>)
    requires
        n >= 1,
        rings * n <= usize::MAX,
    ensures
        v@ == ring_points(rings as int, n as int),
{
    let mut v: Vec<RingPoint> = Vec::new();
    let mut r: usize = 0;
    while r < rings
        invariant
            0 <= r <= rings,
            n >= 1,
            rings * n <= usize::MAX,
            v@ == ring_points(r as int, n as int),
        decreases rings - r,
    {
        let mut i: usize = 0;
        proof {
            lemma_ring_index_bound(r as int, 0, n as int, rings as int);
        }
        while i < n
            invariant
                0 <= i <= n,
                0 <= r < rings,
                n >= 1,
                rings * n <= usize::MAX,
                r * n + n <= rings * n,
                v@ == ring_points(r as int, n as int) + Seq::new(i as nat, |j: int| RingPoint { ring: r, point: j as usize }),
            decreases n - i,
        {
            v.push(RingPoint { ring: r, point: i });
            i += 1;
            proof {
                assert(v@ =~= ring_points(r as int, n as int) + Seq::new(i as nat, |j: int| RingPoint { ring: r, point: j as usize }));
            }
        }
        proof {
            assert(r * n + n == (r + 1) * n) by (nonlinear_arith);
            assert forall|k: int| 0 <= k < (r + 1) * n implies #[trigger] v@[k] == ring_points(r + 1, n as int)[k] by {
                if k < r * n {
                    assert(v@[k] == ring_points(r as int, n as int)[k]);
                } else {
                    lemma_ring_index(r as int, k - r * n, n as int);
                }
            }
            assert(v@ =~= ring_points(r + 1, n as int));
        }
        r += 1;
    }
    v
}

/// The first `i` groups flattened, then group `i`, is the first `i + 1`
/// groups flattened.
pub proof fn lemma_flatten_take_next<A>(groups: Seq<Seq<A>>, i: int)
    requires
        0 <= i < groups.len(),
    ensures
        groups.take(i + 1).flatten() == groups.take(i).flatten() + groups[i],
{
    assert(groups.take(i + 1) =~= groups.take(i).push(groups[i]));
    groups.take(i).lemma_flatten_push(groups[i]);
}

/// Flattening groups that each hold `k` items gives `groups.len() * k` items.
pub proof fn lemma_flatten_uniform_len<A>(groups: Seq<Seq<A>>, k: int)
    requires
        forall|i: int| 0 <= i < groups.len() ==> #[trigger] groups[i].len() == k,
    ensures
        groups.flatten().len() == groups.len() * k,
    decreases groups.len(),
{
    if groups.len() > 0 {
        lemma_flatten_uniform_len(groups.drop_first(), k);
        assert(groups.flatten() == groups.first() + groups.drop_first().flatten());
        assert(groups.len() * k == k + (groups.len() - 1) * k) by (nonlinear_arith);
    }
}

/// Directed edge `k` of triangle `t`: from its corner `k` to the next
/// corner, around the triangle.
pub open spec fn edge(t: [usize; 3], k: int) -> (usize, usize) {
    if k == 0 {
        (t[0], t[1])
    } else if k == 1 {
        (t[1], t[2])
    } else {
        (t[2], t[0])
    }
}

/// Some triangle runs along the edge from `a` to `b`.
pub open spec fn has_edge(triangles: Seq<[usize; 3]>, a: usize, b: usize) -> bool {
    exists|t: int, k: int| 0 <= t < triangles.len() && 0 <= k < 3 && #[trigger] edge(triangles[t], k) == (a, b)
}

/// Every edge of every triangle is run the other way by some triangle: the
/// triangles close up into a surface without holes, and neighbouring faces
/// are wound the same way round.
pub open spec fn closed_surface(triangles: Seq<[usize; 3]>) -> bool {
    forall|t: int, k: int|
        0 <= t < triangles.len() && 0 <= k < 3 ==> has_edge(
            triangles,
            (#[trigger] edge(triangles[t], k)).1,
            edge(triangles[t], k).0,
        )
}

/// Item `r` of group `i`, when every group holds `k` items, is item
/// `i * k + r` of the groups flattened.
pub proof fn lemma_flatten_uniform_index<A>(groups: Seq<Seq<A>>, k: int, i: int, r: int)
    requires
        forall|j: int| 0 <= j < groups.len() ==> #[trigger] groups[j].len() == k,
        0 <= i < groups.len(),
        0 <= r < k,
    ensures
        0 <= i * k + r < groups.flatten().len(),
        groups.flatten()[i * k + r] == groups[i][r],
    decreases groups.len(),
{
    lemma_flatten_uniform_len(groups, k);
    assert(groups.flatten() == groups.first() + groups.drop_first().flatten());
    assert(i * k + r < groups.len() * k) by (nonlinear_arith)
        requires
            0 <= i < groups.len(),
            0 <= r < k,
    ;
    assert(0 <= i * k) by (nonlinear_arith)
        requires
            0 <= i,
            0 <= r < k,
    ;
    if i > 0 {
        let rest = groups.drop_first();
        assert forall|j: int| 0 <= j < rest.len() implies #[trigger] rest[j].len() == k by {
            assert(rest[j] == groups[j + 1]);
        }
        lemma_flatten_uniform_index(rest, k, i - 1, r);
        assert(i * k + r == k + ((i - 1) * k + r)) by (nonlinear_arith);
    }
}

/// Going one point back and then one forward around a ring of `s` points
/// comes back to point `i`.
pub proof fn lemma_ring_steps(i: int, s: int)
    requires
        0 <= i < s,
    ensures
        0 <= (i + 1) % s < s,
        0 <= (i + s - 1) % s < s,
        ((i + s - 1) % s + 1) % s == i,
{
    if i + 1 < s {
        vstd::arithmetic::div_mod::lemma_small_mod((i + 1) as nat, s as nat);
    } else {
        vstd::arithmetic::div_mod::lemma_mod_self_0(s);
    }
    if i == 0 {
        vstd::arithmetic::div_mod::lemma_small_mod((s - 1) as nat, s as nat);
        vstd::arithmetic::div_mod::lemma_mod_self_0(s);
    } else {
        vstd::arithmetic::div_mod::lemma_mod_add_multiples_vanish(i - 1, s);
        vstd::arithmetic::div_mod::lemma_small_mod((i - 1) as nat, s as nat);
        vstd::arithmetic::div_mod::lemma_small_mod(i as nat, s as nat);
    }
}

/// Item `t` of groups of `per` items each is item `t % per` of group
/// `t / per`.
pub proof fn lemma_group_position(t: int, per: int)
    requires
        0 <= t,
        per > 0,
    ensures
        t == (t / per) * per + t % per,
        0 <= t % per < per,
        0 <= t / per,
{
    vstd::arithmetic::div_mod::lemma_fundamental_div_mod(t, per);
    vstd::arithmetic::mul::lemma_mul_is_commutative(t / per, per);
    vstd::arithmetic::div_mod::lemma_mod_bound(t, per);
    vstd::arithmetic::div_mod::lemma_div_pos_is_pos(t, per);
}

/// Polygonal model: points plus the triangles that connect them.
///
/// The vertex type is left open: a mesh of coordinates, or a mesh whose
/// vertices name where each point comes from.
#[derive(Debug, Clone)]
pub struct Mesh<V> {
    /// Unique points (geometry).
    pub vertices: Vec<V>,
    /// Faces as indices into `vertices` (topology); each triple is one triangle.
    pub triangles: Vec<[usize; 3]>,
}

impl<V> Mesh<V> {
    /// Every triangle indexes existing vertices.
    pub open spec fn well_formed(&self) -> bool {
        triangles_in_range(self.triangles@, self.vertices@.len() as int)
    }

    pub fn new(vertices: Vec<V>, triangles: Vec<[usize; 3]>) -> (m: Mesh<V>)
        ensures
            m.vertices == vertices,
            m.triangles == triangles,
    {
        Mesh { vertices, triangles }
    }

    /// A mesh without vertices or triangles.
    pub fn empty() -> (m: Mesh<V>)
        ensures
            m.vertices@.len() == 0,
            m.triangles@.len() == 0,
    {
        Mesh { vertices: Vec::new(), triangles: Vec::new() }
    }

    /// Swaps the last two corners of every triangle, which turns each face
    /// around. The vertices stay as they are.
    pub fn reverse_winding(&mut self)
        ensures
            final(self).vertices == old(self).vertices,
            final(self).triangles@ == old(self).triangles@.map_values(|t: [usize; 3]| flipped(t)),
    {
        let n = self.triangles.len();
        let mut i: usize = 0;
        while i < n
            invariant
                n == old(self).triangles@.len(),
                self.vertices == old(self).vertices,
                self.triangles@.len() == n,
                0 <= i <= n,
                forall|j: int| 0 <= j < i ==> #[trigger] self.triangles@[j] == flipped(old(self).triangles@[j]),
                forall|j: int| i <= j < n ==> #[trigger] self.triangles@[j] == old(self).triangles@[j],
            decreases n - i,
        {
            let t = self.triangles[i];
            self.triangles.set(i, [t[0], t[2], t[1]]);
            i += 1;
        }
        assert(self.triangles@ =~= old(self).triangles@.map_values(|t: [usize; 3]| flipped(t)));
    }
}

/// Turning every face around keeps a mesh well formed.
pub proof fn lemma_reverse_winding_well_formed(triangles: Seq<[usize; 3]>, n: int)
    requires
        triangles_in_range(triangles, n),
    ensures
        triangles_in_range(triangles.map_values(|t: [usize; 3]| flipped(t)), n),
{
    let flipped_all = triangles.map_values(|t: [usize; 3]| flipped(t));
    assert forall|t: int, k: int| 0 <= t < flipped_all.len() && 0 <= k < 3 implies #[trigger] flipped_all[t][k] < n by {
        assert(triangles[t][0] < n && triangles[t][1] < n && triangles[t][2] < n);
    }
}

/// Turning every face around twice gives back the original triangles.
pub proof fn lemma_reverse_winding_involution(triangles: Seq<[usize; 3]>)
    ensures
        triangles.map_values(|t: [usize; 3]| flipped(t)).map_values(|t: [usize; 3]| flipped(t)) == triangles,
{
    let twice = triangles.map_values(|t: [usize; 3]| flipped(t)).map_values(|t: [usize; 3]| flipped(t));
    assert forall|j: int| 0 <= j < triangles.len() implies #[trigger] twice[j] == triangles[j] by {
        let t = triangles[j];
        assert(flipped(flipped(t)) =~= t);
    }
    assert(twice =~= triangles);
}

} // verus!
