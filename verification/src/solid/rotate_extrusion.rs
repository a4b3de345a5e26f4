//! Topology of solids swept around the Z-axis.

use vstd::prelude::*;

use crate::mesh::{
    Mesh, RingPoint, closed_surface, edge, has_edge, lemma_flatten_take_next, lemma_flatten_uniform_index,
    lemma_flatten_uniform_len, lemma_group_position, lemma_ring_index_bound, lemma_ring_steps, ring_point_vertices,
    ring_points, tri, triangles_in_range, lemma_ring_points_numbered, ring_numbered,
};

use crate::sketch::triangulate::{contour_indices, is_boundary, succ, tiles};

verus! {

/// The triangles between contour edge `i -> j` in one ring (`i0`, `j0`) and
/// the same edge in the next ring (`i1`, `j1`). A point on the axis does
/// not move between rings, so an edge with one end on the axis gives one
/// triangle and an edge on the axis gives none. `flip` reverses the winding
/// for a sweep in the negative direction.
pub open spec fn side_triangles(
    i0: int,
    j0: int,
    i1: int,
    j1: int,
    i_on_axis: bool,
    j_on_axis: bool,
    flip: bool,
) -> Seq<[usize; 3]> {
    if i_on_axis && j_on_axis {
        Seq::empty()
    } else if i_on_axis {
        if flip {
            seq![tri(i0, j0, j1)]
        } else {
            seq![tri(i0, j1, j0)]
        }
    } else if j_on_axis {
        if flip {
            seq![tri(i0, j0, i1)]
        } else {
            seq![tri(i0, i1, j1)]
        }
    } else if flip {
        seq![tri(i0, j0, j1), tri(i0, j1, i1)]
    } else {
        seq![tri(i0, j1, j0), tri(i0, i1, j1)]
    }
}

/// Side triangles only use the four corners they are given.
pub proof fn lemma_side_triangles_in_range(
    i0: int,
    j0: int,
    i1: int,
    j1: int,
    i_on_axis: bool,
    j_on_axis: bool,
    flip: bool,
    bound: int,
)
    requires
        0 <= i0 < bound,
        0 <= j0 < bound,
        0 <= i1 < bound,
        0 <= j1 < bound,
    ensures
        triangles_in_range(side_triangles(i0, j0, i1, j1, i_on_axis, j_on_axis, flip), bound),
{
}

/// `b` is the triangle `a` started at another corner: the same three
/// corners, wound the same way round.
pub open spec fn same_turn(a: [usize; 3], b: [usize; 3]) -> bool {
    b == a || b == [a[1], a[2], a[0]] || b == [a[2], a[0], a[1]]
}

/// A corner with the copies of the axis points merged: the next ring's copy
/// of a point on the axis is the same vertex as this ring's.
pub open spec fn merge_axis(v: usize, i0: int, j0: int, i1: int, j1: int, i_on_axis: bool, j_on_axis: bool) -> usize {
    if i_on_axis && v == i1 {
        i0 as usize
    } else if j_on_axis && v == j1 {
        j0 as usize
    } else {
        v
    }
}

/// A triangle with the copies of the axis points merged.
pub open spec fn merge_axis_tri(t: [usize; 3], i0: int, j0: int, i1: int, j1: int, i_on_axis: bool, j_on_axis: bool) -> [usize; 3] {
    [
        merge_axis(t[0], i0, j0, i1, j1, i_on_axis, j_on_axis),
        merge_axis(t[1], i0, j0, i1, j1, i_on_axis, j_on_axis),
        merge_axis(t[2], i0, j0, i1, j1, i_on_axis, j_on_axis),
    ]
}

/// Three different corners.
pub open spec fn proper(t: [usize; 3]) -> bool {
    t[0] != t[1] && t[1] != t[2] && t[0] != t[2]
}

/// An edge with an end on the axis is the quad of an edge off the axis with
/// that end's two copies merged into one vertex: its triangles are exactly
/// the quad's triangles that do not collapse, wound the same way.
pub proof fn lemma_axis_side_is_merged_quad(
    i0: int,
    j0: int,
    i1: int,
    j1: int,
    i_on_axis: bool,
    j_on_axis: bool,
    flip: bool,
)
    requires
        0 <= i0 <= usize::MAX,
        0 <= j0 <= usize::MAX,
        0 <= i1 <= usize::MAX,
        0 <= j1 <= usize::MAX,
        i0 != j0 && i0 != i1 && i0 != j1 && j0 != i1 && j0 != j1 && i1 != j1,
    ensures
        ({
            let side = side_triangles(i0, j0, i1, j1, i_on_axis, j_on_axis, flip);
            let quad = side_triangles(i0, j0, i1, j1, false, false, flip);
            &&& quad.len() == 2
            &&& forall|k: int|
                0 <= k < side.len() ==> {
                    let m = merge_axis_tri(#[trigger] side[k], i0, j0, i1, j1, i_on_axis, j_on_axis);
                    &&& proper(m)
                    &&& exists|q: int|
                        0 <= q < 2 && same_turn(merge_axis_tri(quad[q], i0, j0, i1, j1, i_on_axis, j_on_axis), m)
                }
            &&& forall|q: int|
                0 <= q < 2 && proper(#[trigger] merge_axis_tri(quad[q], i0, j0, i1, j1, i_on_axis, j_on_axis))
                    ==> exists|k: int|
                    0 <= k < side.len() && same_turn(
                        merge_axis_tri(quad[q], i0, j0, i1, j1, i_on_axis, j_on_axis),
                        merge_axis_tri(side[k], i0, j0, i1, j1, i_on_axis, j_on_axis),
                    )
        }),
{
    let side = side_triangles(i0, j0, i1, j1, i_on_axis, j_on_axis, flip);
    let quad = side_triangles(i0, j0, i1, j1, false, false, flip);
    let mq0 = merge_axis_tri(quad[0], i0, j0, i1, j1, i_on_axis, j_on_axis);
    let mq1 = merge_axis_tri(quad[1], i0, j0, i1, j1, i_on_axis, j_on_axis);
    if side.len() > 0 {
        let ms0 = merge_axis_tri(side[0], i0, j0, i1, j1, i_on_axis, j_on_axis);
        if proper(mq0) {
            assert(same_turn(mq0, ms0) || same_turn(ms0, mq0));
        }
    }
    if side.len() > 1 {
        let ms1 = merge_axis_tri(side[1], i0, j0, i1, j1, i_on_axis, j_on_axis);
        assert(same_turn(mq1, ms1));
    }
}

/// Appends the side triangles for one contour edge between two rings.
pub fn push_side(
    triangles: &mut Vec<[usize; 3]>,
    i0: usize,
    j0: usize,
    i1: usize,
    j1: usize,
    i_on_axis: bool,
    j_on_axis: bool,
    flip: bool,
)
    ensures
        final(triangles)@ == old(triangles)@ + side_triangles(
            i0 as int,
            j0 as int,
            i1 as int,
            j1 as int,
            i_on_axis,
            j_on_axis,
            flip,
        ),
{
    let ghost start = triangles@;
    if i_on_axis && j_on_axis {
        assert(triangles@ =~= start + Seq::<[usize; 3]>::empty());
        return;
    }
    if i_on_axis {
        if flip {
            triangles.push([i0, j0, j1]);
        } else {
            triangles.push([i0, j1, j0]);
        }
    } else if j_on_axis {
        if flip {
            triangles.push([i0, j0, i1]);
        } else {
            triangles.push([i0, i1, j1]);
        }
    } else if flip {
        triangles.push([i0, j0, j1]);
        triangles.push([i0, j1, i1]);
    } else {
        triangles.push([i0, j1, j0]);
        triangles.push([i0, i1, j1]);
    }
    assert(triangles@ =~= start + side_triangles(
        i0 as int,
        j0 as int,
        i1 as int,
        j1 as int,
        i_on_axis,
        j_on_axis,
        flip,
    ));
}

/// The side triangles between ring `r` and the ring after it, edge by edge.
/// The ring after the last one is the first one again.
pub open spec fn revolve_band(n: int, rings: int, r: int, on_axis: Seq<bool>, flip: bool) -> Seq<[usize; 3]> {
    let r0 = r;
    let r1 = (r + 1) % rings;
    Seq::new(
        n as nat,
        |i: int|
            {
                let j = (i + 1) % n;
                side_triangles(r0 * n + i, r0 * n + j, r1 * n + i, r1 * n + j, on_axis[i], on_axis[j], flip)
            },
    ).flatten()
}

/// The caps of an open sweep: the first ring and the ring that starts at
/// `last`, wound so both face outward.
pub open spec fn revolve_caps(caps: Seq<[usize; 3]>, last: int, flip: bool) -> Seq<[usize; 3]> {
    Seq::new(
        caps.len(),
        |c: int|
            {
                let a = caps[c][0] as int;
                let b = caps[c][1] as int;
                let d = caps[c][2] as int;
                if flip {
                    seq![tri(a, d, b), tri(last + a, last + b, last + d)]
                } else {
                    seq![tri(a, b, d), tri(last + a, last + d, last + b)]
                }
            },
    ).flatten()
}

/// The triangles of a sweep of a contour of `n` points through `rings`
/// rings: the bands between consecutive rings (and, when `closed`, between
/// the last ring and the first), then for an open sweep the two caps.
pub open spec fn revolve_triangles(
    n: int,
    rings: int,
    closed: bool,
    on_axis: Seq<bool>,
    flip: bool,
    caps: Seq<[usize; 3]>,
) -> Seq<[usize; 3]> {
    let pairs = if closed { rings } else { rings - 1 };
    let bands = Seq::new(pairs as nat, |r: int| revolve_band(n, rings, r, on_axis, flip)).flatten();
    if closed {
        bands
    } else {
        bands + revolve_caps(caps, (rings - 1) * n, flip)
    }
}

/// The mesh of a contour of `n` points swept around the Z-axis in `rings`
/// copies, each vertex named by its ring and contour point. `on_axis[i]`
/// tells whether contour point `i` lies on the axis; `flip` reverses the
/// winding for a sweep in the negative direction. A `closed` sweep joins
/// the last ring to the first; an open one is closed by two caps
/// triangulated by `caps`. With fewer than three points, or an open sweep
/// without cap triangles, the mesh is empty.
pub fn revolve_mesh(
    n: usize,
    rings: usize,
    closed: bool,
    on_axis: &Vec<bool>,
    flip: bool,
    caps: &Vec<[usize; 3]>,
) -> (m: Mesh<RingPoint>)
    requires
        rings >= 1,
        on_axis@.len() == n,
        triangles_in_range(caps@, n as int),
        rings * n <= usize::MAX,
    ensures
        m.well_formed(),
        if n < 3 || (!closed && caps@.len() == 0) {
            m.vertices@.len() == 0 && m.triangles@.len() == 0
        } else {
            &&& m.vertices@ == ring_points(rings as int, n as int)
            &&& ring_numbered(m.vertices@, rings as int, n as int)
            &&& m.triangles@ == revolve_triangles(n as int, rings as int, closed, on_axis@, flip, caps@)
            &&& off_axis(on_axis@) && (closed || rings >= 2) && (closed || tiles(
                caps@,
                contour_indices(n as int),
            )) ==> closed_surface(m.triangles@)
        },
{
    if n < 3 || (!closed && caps.len() == 0) {
        return Mesh::empty();
    }
    proof {
        lemma_ring_points_numbered(rings as int, n as int);
    }
    let vertices = ring_point_vertices(rings, n);
    let vertex_count = vertices.len();
    let pairs: usize = if closed { rings } else { rings - 1 };
    let ghost bands = Seq::new(pairs as nat, |r: int| revolve_band(n as int, rings as int, r, on_axis@, flip));
    let mut triangles: Vec<[usize; 3]> = Vec::new();
    let mut r: usize = 0;
    while r < pairs
        invariant
            0 <= r <= pairs,
            pairs <= rings,
            rings >= 1,
            n >= 3,
            on_axis@.len() == n,
            vertex_count == rings * n,
            rings * n <= usize::MAX,
            bands == Seq::new(pairs as nat, |r: int| revolve_band(n as int, rings as int, r, on_axis@, flip)),
            triangles@ == bands.take(r as int).flatten(),
            triangles_in_range(triangles@, vertex_count as int),
        decreases pairs - r,
    {
        let r0 = r;
        let r1 = (r + 1) % rings;
        proof {
            lemma_ring_index_bound(r0 as int, 0, n as int, rings as int);
            lemma_ring_index_bound(r1 as int, 0, n as int, rings as int);
        }
        let base0 = r0 * n;
        let base1 = r1 * n;
        let ghost before = triangles@;
        let ghost sides = Seq::new(
            n as nat,
            |i: int|
                {
                    let j = (i + 1) % (n as int);
                    side_triangles(
                        r0 * n + i,
                        r0 * n + j,
                        r1 * n + i,
                        r1 * n + j,
                        on_axis@[i],
                        on_axis@[j],
                        flip,
                    )
                },
        );
        let mut i: usize = 0;
        while i < n
            invariant
                0 <= i <= n,
                n >= 3,
                on_axis@.len() == n,
                base0 == r0 * n,
                base1 == r1 * n,
                base0 + n <= vertex_count,
                base1 + n <= vertex_count,
                sides == Seq::new(
                    n as nat,
                    |i: int|
                        {
                            let j = (i + 1) % (n as int);
                            side_triangles(
                                r0 * n + i,
                                r0 * n + j,
                                r1 * n + i,
                                r1 * n + j,
                                on_axis@[i],
                                on_axis@[j],
                                flip,
                            )
                        },
                ),
                triangles@ == before + sides.take(i as int).flatten(),
                triangles_in_range(triangles@, vertex_count as int),
            decreases n - i,
        {
            let j = (i + 1) % n;
            let ghost mid = triangles@;
            push_side(
                &mut triangles,
                base0 + i,
                base0 + j,
                base1 + i,
                base1 + j,
                on_axis[i],
                on_axis[j],
                flip,
            );
            proof {
                lemma_flatten_take_next(sides, i as int);
                assert(triangles@ =~= before + sides.take(i as int + 1).flatten());
                let added = side_triangles(
                    (base0 + i) as int,
                    (base0 + j) as int,
                    (base1 + i) as int,
                    (base1 + j) as int,
                    on_axis@[i as int],
                    on_axis@[j as int],
                    flip,
                );
                lemma_side_triangles_in_range(
                    (base0 + i) as int,
                    (base0 + j) as int,
                    (base1 + i) as int,
                    (base1 + j) as int,
                    on_axis@[i as int],
                    on_axis@[j as int],
                    flip,
                    vertex_count as int,
                );
                assert forall|t: int, k: int| 0 <= t < triangles@.len() && 0 <= k < 3 implies #[trigger] triangles@[t][k] < vertex_count by {
                    if t >= mid.len() {
                        assert(triangles@[t] == added[t - mid.len()]);
                    } else {
                        assert(triangles@[t] == mid[t]);
                    }
                }
            }
            i += 1;
        }
        proof {
            assert(sides.take(n as int) =~= sides);
            assert(bands[r as int] == sides.flatten());
            lemma_flatten_take_next(bands, r as int);
            assert(triangles@ =~= bands.take(r as int + 1).flatten());
        }
        r += 1;
    }
    assert(bands.take(pairs as int) =~= bands);
    if !closed {
        proof {
            lemma_ring_index_bound(rings - 1, 0, n as int, rings as int);
        }
        let last = (rings - 1) * n;
        let ghost before = triangles@;
        let ghost groups = Seq::new(
            caps@.len(),
            |c: int|
                {
                    let a = caps@[c][0] as int;
                    let b = caps@[c][1] as int;
                    let d = caps@[c][2] as int;
                    if flip {
                        seq![tri(a, d, b), tri(last + a, last + b, last + d)]
                    } else {
                        seq![tri(a, b, d), tri(last + a, last + d, last + b)]
                    }
                },
        );
        let mut c: usize = 0;
        while c < caps.len()
            invariant
                0 <= c <= caps@.len(),
                triangles_in_range(caps@, n as int),
                n <= vertex_count,
                last + n <= vertex_count,
                groups == Seq::new(
                    caps@.len(),
                    |c: int|
                        {
                            let a = caps@[c][0] as int;
                            let b = caps@[c][1] as int;
                            let d = caps@[c][2] as int;
                            if flip {
                                seq![tri(a, d, b), tri(last + a, last + b, last + d)]
                            } else {
                                seq![tri(a, b, d), tri(last + a, last + d, last + b)]
                            }
                        },
                ),
                triangles@ == before + groups.take(c as int).flatten(),
                triangles_in_range(triangles@, vertex_count as int),
            decreases caps@.len() - c,
        {
            let cap = caps[c];
            assert(cap[0] < n && cap[1] < n && cap[2] < n);
            if flip {
                triangles.push([cap[0], cap[2], cap[1]]);
                triangles.push([last + cap[0], last + cap[1], last + cap[2]]);
            } else {
                triangles.push([cap[0], cap[1], cap[2]]);
                triangles.push([last + cap[0], last + cap[2], last + cap[1]]);
            }
            proof {
                lemma_flatten_take_next(groups, c as int);
                assert(triangles@ =~= before + groups.take(c as int + 1).flatten());
            }
            c += 1;
        }
        assert(groups.take(caps@.len() as int) =~= groups);
    }
    proof {
        if off_axis(on_axis@) && (closed || rings >= 2) && (closed || tiles(caps@, contour_indices(n as int))) {
            lemma_revolve_closed(n as int, rings as int, closed, on_axis@, flip, caps@);
        }
    }
    Mesh::new(vertices, triangles)
}

/// No contour point lies on the axis.
pub open spec fn off_axis(on_axis: Seq<bool>) -> bool {
    forall|i: int| 0 <= i < on_axis.len() ==> !#[trigger] on_axis[i]
}

/// The two side triangles of contour edge `i` between ring `r` and the ring
/// after it, when neither end lies on the axis.
pub open spec fn quad(n: int, rings: int, r: int, i: int, flip: bool) -> Seq<[usize; 3]> {
    let r1 = (r + 1) % rings;
    let j = (i + 1) % n;
    side_triangles(r * n + i, r * n + j, r1 * n + i, r1 * n + j, false, false, flip)
}

/// Triangle `r * 2 * n + 2 * i + q` of a sweep off the axis is triangle
/// `q` of the quad at contour edge `i` of band `r`.
proof fn lemma_revolve_side_at(
    n: int,
    rings: int,
    closed: bool,
    on_axis: Seq<bool>,
    flip: bool,
    caps: Seq<[usize; 3]>,
    r: int,
    i: int,
    q: int,
)
    requires
        n >= 1,
        rings >= 1,
        on_axis.len() == n,
        off_axis(on_axis),
        0 <= r < (if closed { rings } else { rings - 1 }),
        0 <= i < n,
        0 <= q < 2,
    ensures
        0 <= r * (2 * n) + 2 * i + q < revolve_triangles(n, rings, closed, on_axis, flip, caps).len(),
        revolve_triangles(n, rings, closed, on_axis, flip, caps)[r * (2 * n) + 2 * i + q] == quad(
            n,
            rings,
            r,
            i,
            flip,
        )[q],
        revolve_triangles(n, rings, closed, on_axis, flip, caps).len() == (if closed { rings } else { rings - 1 })
            * (2 * n) + (if closed { 0 } else { 2 * caps.len() }),
{
    let pairs = if closed { rings } else { rings - 1 };
    let bands = Seq::new(pairs as nat, |r: int| revolve_band(n, rings, r, on_axis, flip));
    assert forall|b: int| 0 <= b < bands.len() implies #[trigger] bands[b].len() == 2 * n by {
        let r0 = b;
        let r1 = (b + 1) % rings;
        let groups = Seq::new(
            n as nat,
            |i: int|
                {
                    let j = (i + 1) % n;
                    side_triangles(r0 * n + i, r0 * n + j, r1 * n + i, r1 * n + j, on_axis[i], on_axis[j], flip)
                },
        );
        assert(bands[b] == groups.flatten());
        assert forall|g: int| 0 <= g < groups.len() implies #[trigger] groups[g].len() == 2 by {
            lemma_ring_steps(g, n);
            assert(!on_axis[g] && !on_axis[(g + 1) % n]);
        }
        lemma_flatten_uniform_len(groups, 2);
    }
    lemma_flatten_uniform_len(bands, 2 * n);
    let r0 = r;
    let r1 = (r + 1) % rings;
    let groups = Seq::new(
        n as nat,
        |i: int|
            {
                let j = (i + 1) % n;
                side_triangles(r0 * n + i, r0 * n + j, r1 * n + i, r1 * n + j, on_axis[i], on_axis[j], flip)
            },
    );
    assert(bands[r] == groups.flatten());
    assert forall|g: int| 0 <= g < groups.len() implies #[trigger] groups[g].len() == 2 by {
        lemma_ring_steps(g, n);
        assert(!on_axis[g] && !on_axis[(g + 1) % n]);
    }
    lemma_flatten_uniform_index(groups, 2, i, q);
    lemma_ring_steps(i, n);
    assert(!on_axis[i] && !on_axis[(i + 1) % n]);
    assert(groups[i] == quad(n, rings, r, i, flip));
    lemma_flatten_uniform_index(bands, 2 * n, r, 2 * i + q);
    assert(i * 2 + q == 2 * i + q);
    if !closed {
        let cap_groups = Seq::new(
            caps.len(),
            |c: int|
                {
                    let a = caps[c][0] as int;
                    let b = caps[c][1] as int;
                    let d = caps[c][2] as int;
                    if flip {
                        seq![tri(a, d, b), tri((rings - 1) * n + a, (rings - 1) * n + b, (rings - 1) * n + d)]
                    } else {
                        seq![tri(a, b, d), tri((rings - 1) * n + a, (rings - 1) * n + d, (rings - 1) * n + b)]
                    }
                },
        );
        assert(revolve_caps(caps, (rings - 1) * n, flip) == cap_groups.flatten());
        lemma_flatten_uniform_len(cap_groups, 2);
    }
}

/// Triangle `pairs * 2 * n + 2 * c + q` of an open sweep is the first-ring
/// (`q == 0`) or last-ring (`q == 1`) copy of cap triangle `c`.
proof fn lemma_revolve_cap_at(
    n: int,
    rings: int,
    on_axis: Seq<bool>,
    flip: bool,
    caps: Seq<[usize; 3]>,
    c: int,
    q: int,
)
    requires
        n >= 1,
        rings >= 2,
        on_axis.len() == n,
        off_axis(on_axis),
        0 <= c < caps.len(),
        0 <= q < 2,
    ensures
        0 <= (rings - 1) * (2 * n) + 2 * c + q < revolve_triangles(n, rings, false, on_axis, flip, caps).len(),
        revolve_triangles(n, rings, false, on_axis, flip, caps)[(rings - 1) * (2 * n) + 2 * c + q] == ({
            let last = (rings - 1) * n;
            let a = caps[c][0] as int;
            let b = caps[c][1] as int;
            let d = caps[c][2] as int;
            if flip {
                if q == 0 { tri(a, d, b) } else { tri(last + a, last + b, last + d) }
            } else {
                if q == 0 { tri(a, b, d) } else { tri(last + a, last + d, last + b) }
            }
        }),
{
    lemma_revolve_side_at(n, rings, false, on_axis, flip, caps, 0, 0, 0);
    let pairs = rings - 1;
    let bands = Seq::new(pairs as nat, |r: int| revolve_band(n, rings, r, on_axis, flip));
    assert forall|b: int| 0 <= b < bands.len() implies #[trigger] bands[b].len() == 2 * n by {
        lemma_revolve_side_at(n, rings, false, on_axis, flip, caps, b, 0, 0);
        let r0 = b;
        let r1 = (b + 1) % rings;
        let groups = Seq::new(
            n as nat,
            |i: int|
                {
                    let j = (i + 1) % n;
                    side_triangles(r0 * n + i, r0 * n + j, r1 * n + i, r1 * n + j, on_axis[i], on_axis[j], flip)
                },
        );
        assert(bands[b] == groups.flatten());
        assert forall|g: int| 0 <= g < groups.len() implies #[trigger] groups[g].len() == 2 by {
            lemma_ring_steps(g, n);
            assert(!on_axis[g] && !on_axis[(g + 1) % n]);
        }
        lemma_flatten_uniform_len(groups, 2);
    }
    lemma_flatten_uniform_len(bands, 2 * n);
    let cap_groups = Seq::new(
        caps.len(),
        |c: int|
            {
                let a = caps[c][0] as int;
                let b = caps[c][1] as int;
                let d = caps[c][2] as int;
                if flip {
                    seq![tri(a, d, b), tri((rings - 1) * n + a, (rings - 1) * n + b, (rings - 1) * n + d)]
                } else {
                    seq![tri(a, b, d), tri((rings - 1) * n + a, (rings - 1) * n + d, (rings - 1) * n + b)]
                }
            },
    );
    assert(revolve_caps(caps, (rings - 1) * n, flip) == cap_groups.flatten());
    lemma_flatten_uniform_len(cap_groups, 2);
    lemma_flatten_uniform_index(cap_groups, 2, c, q);
    assert(c * 2 + q == 2 * c + q);
}

/// Edge `k` of triangle `q` of the quad at contour edge `i` of band `r` is
/// run the other way by some face of the sweep.
proof fn lemma_revolve_band_edge(
    n: int,
    rings: int,
    closed: bool,
    on_axis: Seq<bool>,
    flip: bool,
    caps: Seq<[usize; 3]>,
    r: int,
    i: int,
    q: int,
    k: int,
)
    requires
        n >= 3,
        rings >= 1,
        closed || rings >= 2,
        rings * n <= usize::MAX,
        on_axis.len() == n,
        off_axis(on_axis),
        !closed ==> triangles_in_range(caps, n) && tiles(caps, contour_indices(n)),
        0 <= r < (if closed { rings } else { rings - 1 }),
        0 <= i < n,
        0 <= q < 2,
        0 <= k < 3,
    ensures
        has_edge(
            revolve_triangles(n, rings, closed, on_axis, flip, caps),
            edge(revolve_triangles(n, rings, closed, on_axis, flip, caps)[r * (2 * n) + 2 * i + q], k).1,
            edge(revolve_triangles(n, rings, closed, on_axis, flip, caps)[r * (2 * n) + 2 * i + q], k).0,
        ),
{
    assert(n <= usize::MAX) by (nonlinear_arith)
        requires
            rings * n <= usize::MAX,
            rings >= 1,
            n >= 3,
    ;
    let tris = revolve_triangles(n, rings, closed, on_axis, flip, caps);
    let pairs = if closed { rings } else { rings - 1 };
    let bn = pairs * (2 * n);
    let init = contour_indices(n);
    let last = (rings - 1) * n;
    let t = r * (2 * n) + 2 * i + q;
    lemma_revolve_side_at(n, rings, closed, on_axis, flip, caps, r, i, q);
    lemma_ring_steps(i, n);
    lemma_ring_steps(r, rings);
    let next = (i + 1) % n;
    let prev = (i + n - 1) % n;
    let r1 = (r + 1) % rings;
    if r + 1 < rings {
        vstd::arithmetic::div_mod::lemma_small_mod((r + 1) as nat, rings as nat);
    }
    // the edge along ring `r` (from the band before) or ring `r1` (from the band after)
    let down = (!flip && q == 0 && k == 2) || (flip && q == 0 && k == 0);
    let up = q == 1 && k == 1;
    if down && (closed || r >= 1) {
        let rb = if closed { (r + rings - 1) % rings } else { r - 1 };
        if !closed {
            vstd::arithmetic::div_mod::lemma_small_mod(r as nat, rings as nat);
        }
        assert((rb + 1) % rings == r);
        lemma_revolve_side_at(n, rings, closed, on_axis, flip, caps, rb, i, 1);
        let w = rb * (2 * n) + 2 * i + 1;
        assert(edge(tris[w], 1) == (edge(tris[t], k).1, edge(tris[t], k).0));
    } else if up && (closed || r + 1 < pairs) {
        let ra = if closed { r1 } else { r + 1 };
        lemma_revolve_side_at(n, rings, closed, on_axis, flip, caps, ra, i, 0);
        let w = ra * (2 * n) + 2 * i;
        let k2 = if flip { 0int } else { 2int };
        assert(edge(tris[w], k2) == (edge(tris[t], k).1, edge(tris[t], k).0));
    } else if down || up {
        assert(!closed);
        assert(init[i] == i as usize && succ(init, i) == next as usize);
        assert(has_edge(caps, init[i], succ(init, i)));
        let (c2, k2) = choose|c2: int, k2: int|
            0 <= c2 < caps.len() && 0 <= k2 < 3 && #[trigger] edge(caps[c2], k2) == (
                init[i],
                succ(init, i),
            );
        let q2 = if down { 0int } else { 1int };
        lemma_revolve_cap_at(n, rings, on_axis, flip, caps, c2, q2);
        assert(caps[c2][0] < n && caps[c2][1] < n && caps[c2][2] < n);
        if up {
            assert(r == rings - 2);
            assert(r1 * n == last);
        }
        let same = (q2 == 0) != flip;
        let kk = if same { k2 } else { 2 - k2 };
        let w = bn + 2 * c2 + q2;
        if down {
            assert(r == 0 && r1 == 1);
            assert(r * n == 0 && r1 * n == n) by (nonlinear_arith)
                requires
                    r == 0,
                    r1 == 1,
            ;
        } else {
            assert(r == rings - 2 && r1 == rings - 1);
            assert(r * n == last - n && r1 * n == last) by (nonlinear_arith)
                requires
                    r == rings - 2,
                    r1 == rings - 1,
                    last == (rings - 1) * n,
            ;
        }
        if k2 == 0 {
            assert(edge(tris[w], kk) == (edge(tris[t], k).1, edge(tris[t], k).0));
        } else if k2 == 1 {
            assert(edge(tris[w], kk) == (edge(tris[t], k).1, edge(tris[t], k).0));
        } else {
            assert(edge(tris[w], kk) == (edge(tris[t], k).1, edge(tris[t], k).0));
        }
    } else {
        let (i2, q2, k2): (int, int, int) = if !flip {
            if q == 0 {
                if k == 0 { (i, 1, 2) } else { (next, 1, 0) }
            } else {
                if k == 0 { (prev, 0, 1) } else { (i, 0, 0) }
            }
        } else {
            if q == 0 {
                if k == 1 { (next, 1, 2) } else { (i, 1, 0) }
            } else {
                if k == 0 { (i, 0, 2) } else { (prev, 0, 1) }
            }
        };
        lemma_revolve_side_at(n, rings, closed, on_axis, flip, caps, r, i2, q2);
        let w = r * (2 * n) + 2 * i2 + q2;
        assert(edge(tris[w], k2) == (edge(tris[t], k).1, edge(tris[t], k).0));
    }
}

/// Edge `k` of the first-ring (`q == 0`) or last-ring (`q == 1`) copy of
/// cap triangle `c` is run the other way by some face of an open sweep.
proof fn lemma_revolve_cap_edge(
    n: int,
    rings: int,
    on_axis: Seq<bool>,
    flip: bool,
    caps: Seq<[usize; 3]>,
    c: int,
    q: int,
    k: int,
)
    requires
        n >= 3,
        rings >= 2,
        rings * n <= usize::MAX,
        on_axis.len() == n,
        off_axis(on_axis),
        triangles_in_range(caps, n),
        tiles(caps, contour_indices(n)),
        0 <= c < caps.len(),
        0 <= q < 2,
        0 <= k < 3,
    ensures
        has_edge(
            revolve_triangles(n, rings, false, on_axis, flip, caps),
            edge(revolve_triangles(n, rings, false, on_axis, flip, caps)[(rings - 1) * (2 * n) + 2 * c + q], k).1,
            edge(revolve_triangles(n, rings, false, on_axis, flip, caps)[(rings - 1) * (2 * n) + 2 * c + q], k).0,
        ),
{
    assert(n <= usize::MAX) by (nonlinear_arith)
        requires
            rings * n <= usize::MAX,
            rings >= 1,
            n >= 3,
    ;
    let tris = revolve_triangles(n, rings, false, on_axis, flip, caps);
    let bn = (rings - 1) * (2 * n);
    let init = contour_indices(n);
    let last = (rings - 1) * n;
    let t = bn + 2 * c + q;
    lemma_revolve_cap_at(n, rings, on_axis, flip, caps, c, q);
    assert(caps[c][0] < n && caps[c][1] < n && caps[c][2] < n);
    let same = (q == 0) != flip;
    let ce = if same { k } else { 2 - k };
    let (x, y) = edge(caps[c], ce);
    if has_edge(caps, y, x) {
        let (c2, k2) = choose|c2: int, k2: int|
            0 <= c2 < caps.len() && 0 <= k2 < 3 && #[trigger] edge(caps[c2], k2) == (y, x);
        lemma_revolve_cap_at(n, rings, on_axis, flip, caps, c2, q);
        assert(caps[c2][0] < n && caps[c2][1] < n && caps[c2][2] < n);
        let kk = if same { k2 } else { 2 - k2 };
        let w = bn + 2 * c2 + q;
        assert(edge(tris[w], kk) == (edge(tris[t], k).1, edge(tris[t], k).0));
    } else {
        assert(is_boundary(init, x, y));
        let jj = choose|jj: int| 0 <= jj < init.len() && init[jj] == x && #[trigger] succ(init, jj) == y;
        lemma_ring_steps(jj, n);
        let rw = if q == 0 { 0int } else { rings - 2 };
        let (q2, k2): (int, int) = if q == 0 {
            if flip { (0, 0) } else { (0, 2) }
        } else {
            (1, 1)
        };
        lemma_revolve_side_at(n, rings, false, on_axis, flip, caps, rw, jj, q2);
        if rw + 1 < rings {
            vstd::arithmetic::div_mod::lemma_small_mod((rw + 1) as nat, rings as nat);
        }
        let w = rw * (2 * n) + 2 * jj + q2;
        let rw1 = (rw + 1) % rings;
        if q == 0 {
            assert(rw == 0 && rw1 == 1);
            assert(rw * n == 0 && rw1 * n == n) by (nonlinear_arith)
                requires
                    rw == 0,
                    rw1 == 1,
            ;
        } else {
            assert(rw == rings - 2 && rw1 == rings - 1);
            assert(rw * n == last - n && rw1 * n == last) by (nonlinear_arith)
                requires
                    rw == rings - 2,
                    rw1 == rings - 1,
                    last == (rings - 1) * n,
            ;
        }
        assert(init[jj] == jj as usize && succ(init, jj) == ((jj + 1) % n) as usize);
        if k == 0 {
            assert(edge(tris[w], k2) == (edge(tris[t], k).1, edge(tris[t], k).0));
        } else if k == 1 {
            assert(edge(tris[w], k2) == (edge(tris[t], k).1, edge(tris[t], k).0));
        } else {
            assert(edge(tris[w], k2) == (edge(tris[t], k).1, edge(tris[t], k).0));
        }
    }
}

/// The faces of a sweep around the axis close up when no contour point lies
/// on the axis and, for an open sweep, the caps tile the contour: every
/// edge of every face is run the other way by a neighbouring face.
pub proof fn lemma_revolve_closed(
    n: int,
    rings: int,
    closed: bool,
    on_axis: Seq<bool>,
    flip: bool,
    caps: Seq<[usize; 3]>,
)
    requires
        n >= 3,
        rings >= 1,
        closed || rings >= 2,
        rings * n <= usize::MAX,
        on_axis.len() == n,
        off_axis(on_axis),
        !closed ==> triangles_in_range(caps, n) && tiles(caps, contour_indices(n)),
    ensures
        closed_surface(revolve_triangles(n, rings, closed, on_axis, flip, caps)),
{
    let tris = revolve_triangles(n, rings, closed, on_axis, flip, caps);
    let pairs = if closed { rings } else { rings - 1 };
    let bn = pairs * (2 * n);
    lemma_revolve_side_at(n, rings, closed, on_axis, flip, caps, 0, 0, 0);
    assert forall|t: int, k: int| 0 <= t < tris.len() && 0 <= k < 3 implies has_edge(
        tris,
        (#[trigger] edge(tris[t], k)).1,
        edge(tris[t], k).0,
    ) by {
        if t < bn {
            lemma_group_position(t, 2 * n);
            let r = t / (2 * n);
            let rem = t % (2 * n);
            lemma_group_position(rem, 2);
            let i = rem / 2;
            let q = rem % 2;
            assert(r < pairs) by (nonlinear_arith)
                requires
                    t == r * (2 * n) + rem,
                    0 <= rem < 2 * n,
                    t < pairs * (2 * n),
                    n >= 1,
            ;
            assert(t == r * (2 * n) + 2 * i + q);
            lemma_revolve_band_edge(n, rings, closed, on_axis, flip, caps, r, i, q, k);
        } else {
            let u = t - bn;
            lemma_group_position(u, 2);
            let c = u / 2;
            let q = u % 2;
            assert(c < caps.len());
            lemma_revolve_cap_edge(n, rings, on_axis, flip, caps, c, q, k);
        }
    }
}

} // verus!
