//! Convex hulls of point sets, by Andrew's monotone chain.
//!
//! The points are sorted by X, then by Y, and repeated points dropped. The
//! lower chain walks them from left to right and the upper chain from right
//! to left; each keeps only corners that turn strictly left, so points on a
//! hull edge are not corners. The two chains, each without its last point,
//! make the hull, counterclockwise.

use vstd::prelude::*;
use vstd::relations::{sorted_by, total_ordering};

use crate::length::{Length, group_length};
use crate::sketch::polygon::{
    Polygon, coordinate_limit, coordinates_bounded, dedup, is_clockwise, lemma_reverse_negates_area,
    orientation, same_point, same_point_exec, twice_signed_area,
};
use crate::sketch::triangulate::orientation_parts;

verus! {

broadcast use group_length;

/// `a` comes no later than `b` in the order by X, then by Y.
pub open spec fn point_leq(a: [Length; 2], b: [Length; 2]) -> bool {
    a[0]@ < b[0]@ || (a[0]@ == b[0]@ && a[1]@ <= b[1]@)
}

/// The order by X, then by Y, as a relation.
pub open spec fn by_position() -> spec_fn([Length; 2], [Length; 2]) -> bool {
    |a: [Length; 2], b: [Length; 2]| point_leq(a, b)
}

/// The points sorted by X, then by Y.
pub open spec fn sorted_points(points: Seq<[Length; 2]>) -> Seq<[Length; 2]> {
    points.sort_by(by_position())
}

/// `chain` with `p` added after dropping, from the end, every point that
/// would not make a strict left turn toward `p`.
pub open spec fn chain_push(chain: Seq<[Length; 2]>, p: [Length; 2]) -> Seq<[Length; 2]>
    decreases chain.len(),
{
    if chain.len() >= 2 && orientation(chain[chain.len() - 2], chain[chain.len() - 1], p) <= 0 {
        chain_push(chain.drop_last(), p)
    } else {
        chain.push(p)
    }
}

/// The monotone chain over `points`, taken in order.
pub open spec fn monotone_chain(points: Seq<[Length; 2]>) -> Seq<[Length; 2]>
    decreases points.len(),
{
    if points.len() == 0 {
        Seq::empty()
    } else {
        chain_push(monotone_chain(points.drop_last()), points.last())
    }
}

/// The convex hull of `points`: the lower chain and the upper chain of the
/// sorted points without repeats, each without its last point, turned
/// counterclockwise. Fewer than three corners give an empty hull.
pub open spec fn hull_of(points: Seq<[Length; 2]>) -> Seq<[Length; 2]> {
    let s = dedup(sorted_points(points));
    if s.len() < 3 {
        Seq::empty()
    } else {
        let h = monotone_chain(s).drop_last() + monotone_chain(s.reverse()).drop_last();
        if h.len() < 3 {
            Seq::empty()
        } else if twice_signed_area(h) < 0 {
            h.reverse()
        } else {
            h
        }
    }
}

/// The order by X, then by Y, is total.
pub proof fn lemma_point_order_total()
    ensures
        total_ordering(by_position()),
{
    assert forall|a: [Length; 2], b: [Length; 2]|
        #[trigger] by_position()(a, b) && #[trigger] by_position()(b, a) implies a == b by {
        assert(a[0] == b[0]);
        assert(a[1] == b[1]);
        assert(a =~= b);
    }
}

fn point_leq_exec(a: [Length; 2], b: [Length; 2]) -> (r: bool)
    ensures
        r == point_leq(a, b),
{
    a[0].as_um() < b[0].as_um() || (a[0].as_um() == b[0].as_um() && a[1].as_um() <= b[1].as_um())
}

/// The points in the order by X, then by Y.
fn sort_points(points: &Vec<[Length; 2]>) -> (r: Vec<[Length; 2]>)
    requires
        coordinates_bounded(points@),
    ensures
        r@ == sorted_points(points@),
        coordinates_bounded(r@),
{
    broadcast use vstd::seq_lib::group_to_multiset_ensures, vstd::seq_lib::to_multiset_insert;

    let mut out: Vec<[Length; 2]> = Vec::new();
    let mut i: usize = 0;
    while i < points.len()
        invariant
            0 <= i <= points@.len(),
            coordinates_bounded(points@),
            coordinates_bounded(out@),
            forall|a: int, b: int| 0 <= a < b < out@.len() ==> point_leq(#[trigger] out@[a], #[trigger] out@[b]),
            out@.to_multiset() == points@.take(i as int).to_multiset(),
        decreases points@.len() - i,
    {
        let p = points[i];
        let mut k: usize = 0;
        while k < out.len() && point_leq_exec(out[k], p)
            invariant
                0 <= k <= out@.len(),
                forall|j: int| 0 <= j < k ==> point_leq(#[trigger] out@[j], p),
            decreases out@.len() - k,
        {
            k += 1;
        }
        let ghost before = out@;
        out.insert(k, p);
        proof {
            assert(points@.take(i + 1) =~= points@.take(i as int).push(p));
            vstd::seq_lib::to_multiset_insert(before, k as int, p);
            points@.take(i as int).to_multiset_ensures();
            assert(out@.to_multiset() == before.to_multiset().insert(p));
            assert(points@.take(i + 1).to_multiset() == points@.take(i as int).to_multiset().insert(p));
            assert forall|a: int, b: int| 0 <= a < b < out@.len() implies point_leq(
                #[trigger] out@[a],
                #[trigger] out@[b],
            ) by {
                if b < k {
                    assert(out@[a] == before[a] && out@[b] == before[b]);
                } else if b == k {
                    assert(out@[a] == before[a]);
                } else if a < k {
                    assert(out@[a] == before[a] && out@[b] == before[b - 1]);
                    assert(point_leq(before[a], p));
                    assert(!point_leq(before[k as int], p));
                    assert(point_leq(before[k as int], before[b - 1]) || k == b - 1);
                } else if a == k {
                    assert(out@[b] == before[b - 1]);
                    assert(!point_leq(before[k as int], p));
                    assert(point_leq(before[k as int], before[b - 1]) || k == b - 1);
                } else {
                    assert(out@[a] == before[a - 1] && out@[b] == before[b - 1]);
                }
            }
            assert forall|j: int, c: int| 0 <= j < out@.len() && 0 <= c < 2 implies -coordinate_limit()
                <= #[trigger] out@[j][c]@ <= coordinate_limit() by {
                if j < k {
                    assert(out@[j] == before[j]);
                } else if j > k {
                    assert(out@[j] == before[j - 1]);
                }
            }
        }
        i += 1;
    }
    proof {
        assert(points@.take(points@.len() as int) =~= points@);
        lemma_point_order_total();
        points@.lemma_sort_by_ensures(by_position());
        assert(sorted_by(out@, by_position())) by {
            assert forall|a: int, b: int| 0 <= a < b < out@.len() implies #[trigger] by_position()(
                out@[a],
                out@[b],
            ) by {
                assert(point_leq(out@[a], out@[b]));
            }
        }
        vstd::seq_lib::lemma_sorted_unique(out@, sorted_points(points@), by_position());
    }
    out
}

/// The points with every run of repeated consecutive points kept once.
fn dedup_points(points: &Vec<[Length; 2]>) -> (r: Vec<[Length; 2]>)
    requires
        coordinates_bounded(points@),
    ensures
        r@ == dedup(points@),
        coordinates_bounded(r@),
{
    let mut kept: Vec<[Length; 2]> = Vec::new();
    let mut i: usize = 0;
    while i < points.len()
        invariant
            0 <= i <= points@.len(),
            coordinates_bounded(points@),
            coordinates_bounded(kept@),
            kept@ == dedup(points@.take(i as int)),
        decreases points@.len() - i,
    {
        proof {
            assert(points@.take(i + 1).drop_last() =~= points@.take(i as int));
        }
        if i == 0 || !same_point_exec(points[i - 1], points[i]) {
            kept.push(points[i]);
            proof {
                assert forall|j: int, c: int| 0 <= j < kept@.len() && 0 <= c < 2 implies -coordinate_limit()
                    <= #[trigger] kept@[j][c]@ <= coordinate_limit() by {
                    if j == kept@.len() - 1 {
                        assert(kept@[j] == points@[i as int]);
                    }
                }
            }
        }
        i += 1;
    }
    assert(points@.take(points@.len() as int) =~= points@);
    kept
}

/// The monotone chain over `points`, taken in order.
fn chain_of(points: &Vec<[Length; 2]>) -> (c: Vec<[Length; 2]>)
    requires
        coordinates_bounded(points@),
    ensures
        c@ == monotone_chain(points@),
        coordinates_bounded(c@),
{
    let mut chain: Vec<[Length; 2]> = Vec::new();
    let mut i: usize = 0;
    while i < points.len()
        invariant
            0 <= i <= points@.len(),
            coordinates_bounded(points@),
            coordinates_bounded(chain@),
            chain@ == monotone_chain(points@.take(i as int)),
        decreases points@.len() - i,
    {
        let p = points[i];
        proof {
            assert(points@.take(i + 1).drop_last() =~= points@.take(i as int));
        }
        let ghost target = chain_push(chain@, p);
        assert(forall|c: int| 0 <= c < 2 ==> -coordinate_limit() <= #[trigger] p[c]@ <= coordinate_limit()) by {
            assert(p == points@[i as int]);
        }
        loop
            invariant
                coordinates_bounded(chain@),
                forall|c: int| 0 <= c < 2 ==> -coordinate_limit() <= #[trigger] p[c]@ <= coordinate_limit(),
                chain_push(chain@, p) == target,
            ensures
                target == chain@.push(p),
                coordinates_bounded(chain@),
            decreases chain@.len(),
        {
            let n = chain.len();
            if n < 2 {
                break;
            }
            let a = chain[n - 2];
            let b = chain[n - 1];
            assert(forall|c: int| 0 <= c < 2 ==> -coordinate_limit() <= #[trigger] a[c]@ <= coordinate_limit()) by {
                assert(a == chain@[n - 2]);
            }
            assert(forall|c: int| 0 <= c < 2 ==> -coordinate_limit() <= #[trigger] b[c]@ <= coordinate_limit()) by {
                assert(b == chain@[n - 1]);
            }
            let turn = orientation_parts(a, b, p);
            if turn.0 > turn.1 {
                break;
            }
            chain.pop();
        }
        let ghost before = chain@;
        chain.push(p);
        proof {
            assert(points@.take(i + 1).last() == p);
            assert(monotone_chain(points@.take(i + 1)) == chain_push(monotone_chain(points@.take(i as int)), p));
            assert forall|j: int, c: int| 0 <= j < chain@.len() && 0 <= c < 2 implies -coordinate_limit()
                <= #[trigger] chain@[j][c]@ <= coordinate_limit() by {
                if j < before.len() {
                    assert(chain@[j] == before[j]);
                }
            }
        }
        i += 1;
    }
    assert(points@.take(points@.len() as int) =~= points@);
    chain
}

/// A chain grown from anything ends with the point pushed last.
proof fn lemma_chain_push_last(chain: Seq<[Length; 2]>, p: [Length; 2])
    ensures
        chain_push(chain, p).len() >= 1,
        chain_push(chain, p).last() == p,
    decreases chain.len(),
{
    if chain.len() >= 2 && orientation(chain[chain.len() - 2], chain[chain.len() - 1], p) <= 0 {
        lemma_chain_push_last(chain.drop_last(), p);
    }
}

/// The convex hull of `points`, counterclockwise, without repeating the
/// first point. Fewer than three corners give an empty hull.
pub fn convex_hull(points: &Vec<[Length; 2]>) -> (h: Vec<[Length; 2]>)
    requires
        coordinates_bounded(points@),
    ensures
        h@ == hull_of(points@),
{
    let sorted = sort_points(points);
    let pts = dedup_points(&sorted);
    if pts.len() < 3 {
        return Vec::new();
    }
    let mut lower = chain_of(&pts);
    let n = pts.len();
    let mut reversed: Vec<[Length; 2]> = Vec::new();
    let mut k: usize = 0;
    while k < n
        invariant
            0 <= k <= n,
            n == pts@.len(),
            coordinates_bounded(pts@),
            reversed@ == pts@.reverse().take(k as int),
        decreases n - k,
    {
        reversed.push(pts[n - 1 - k]);
        k += 1;
        assert(reversed@ =~= pts@.reverse().take(k as int));
    }
    assert(pts@.reverse().take(n as int) =~= pts@.reverse());
    assert(coordinates_bounded(reversed@)) by {
        assert forall|j: int, c: int| 0 <= j < reversed@.len() && 0 <= c < 2 implies -coordinate_limit()
            <= #[trigger] reversed@[j][c]@ <= coordinate_limit() by {
            assert(reversed@[j] == pts@[n - 1 - j]);
        }
    }
    let mut upper = chain_of(&reversed);
    proof {
        lemma_chain_push_last(monotone_chain(pts@.drop_last()), pts@.last());
        lemma_chain_push_last(monotone_chain(reversed@.drop_last()), reversed@.last());
    }
    lower.pop();
    upper.pop();
    let ghost lower_part = lower@;
    let ghost upper_part = upper@;
    let mut hull = lower;
    let mut j: usize = 0;
    while j < upper.len()
        invariant
            0 <= j <= upper_part.len(),
            upper@ == upper_part,
            hull@ == lower_part + upper_part.take(j as int),
        decreases upper_part.len() - j,
    {
        hull.push(upper[j]);
        j += 1;
        assert(hull@ =~= lower_part + upper_part.take(j as int));
    }
    assert(upper_part.take(upper_part.len() as int) =~= upper_part);
    if hull.len() < 3 {
        return Vec::new();
    }
    assert(coordinates_bounded(hull@)) by {
        assert forall|q: int, c: int| 0 <= q < hull@.len() && 0 <= c < 2 implies -coordinate_limit()
            <= #[trigger] hull@[q][c]@ <= coordinate_limit() by {
            if q < lower_part.len() {
                assert(hull@[q] == monotone_chain(pts@)[q]);
            } else {
                assert(hull@[q] == monotone_chain(reversed@)[q - lower_part.len()]);
            }
        }
    }
    if is_clockwise(&hull) {
        let m = hull.len();
        let mut turned: Vec<[Length; 2]> = Vec::new();
        let mut k: usize = 0;
        while k < m
            invariant
                0 <= k <= m,
                m == hull@.len(),
                turned@ == hull@.reverse().take(k as int),
            decreases m - k,
        {
            turned.push(hull[m - 1 - k]);
            k += 1;
            assert(turned@ =~= hull@.reverse().take(k as int));
        }
        assert(hull@.reverse().take(m as int) =~= hull@.reverse());
        turned
    } else {
        hull
    }
}

/// Convex hull of `points` as a polygon. Fewer than three unique points,
/// or points on one line, give an empty polygon.
pub fn hull_points(points: Vec<[Length; 2]>) -> (p: Polygon)
    requires
        coordinates_bounded(points@),
    ensures
        p.points@ == hull_of(points@),
{
    Polygon::new(convex_hull(&points))
}

/// Every corner of `chain` turns strictly left.
pub open spec fn turns_left(chain: Seq<[Length; 2]>) -> bool {
    forall|i: int| 1 <= i < chain.len() - 1 ==> orientation(chain[i - 1], #[trigger] chain[i], chain[i + 1]) > 0
}

/// Pushing onto a chain keeps a prefix of it, at least its first point,
/// and adds the point; the last kept corner turns strictly left toward it,
/// and the first dropped corner did not.
proof fn lemma_chain_push_prefix(chain: Seq<[Length; 2]>, p: [Length; 2]) -> (m: int)
    ensures
        0 <= m <= chain.len(),
        chain.len() >= 1 ==> m >= 1,
        chain_push(chain, p) == chain.take(m).push(p),
        m < 2 || orientation(chain[m - 2], chain[m - 1], p) > 0,
        1 <= m < chain.len() ==> orientation(chain[m - 1], chain[m], p) <= 0,
    decreases chain.len(),
{
    if chain.len() >= 2 && orientation(chain[chain.len() - 2], chain[chain.len() - 1], p) <= 0 {
        let shorter = chain.drop_last();
        let m = lemma_chain_push_prefix(shorter, p);
        assert(shorter.take(m) =~= chain.take(m));
        if m >= 2 {
            assert(shorter[m - 2] == chain[m - 2] && shorter[m - 1] == chain[m - 1]);
        }
        if 1 <= m < shorter.len() {
            assert(shorter[m - 1] == chain[m - 1] && shorter[m] == chain[m]);
        }
        m
    } else {
        assert(chain.take(chain.len() as int) =~= chain);
        chain.len() as int
    }
}

/// Every corner of a monotone chain turns strictly left, and every point of
/// it is one of the points it was built from.
pub proof fn lemma_monotone_chain_shape(points: Seq<[Length; 2]>)
    ensures
        turns_left(monotone_chain(points)),
        forall|i: int| 0 <= i < monotone_chain(points).len() ==> points.contains(#[trigger] monotone_chain(points)[i]),
    decreases points.len(),
{
    if points.len() > 0 {
        let rest = points.drop_last();
        let p = points.last();
        let c = monotone_chain(rest);
        lemma_monotone_chain_shape(rest);
        let m = lemma_chain_push_prefix(c, p);
        let r = c.take(m).push(p);
        assert forall|i: int| 1 <= i < r.len() - 1 implies orientation(r[i - 1], #[trigger] r[i], r[i + 1]) > 0 by {
            if i + 1 < m {
                assert(r[i - 1] == c[i - 1] && r[i] == c[i] && r[i + 1] == c[i + 1]);
            } else {
                assert(i == m - 1);
                assert(r[i - 1] == c[m - 2] && r[i] == c[m - 1] && r[i + 1] == p);
            }
        }
        assert forall|i: int| 0 <= i < r.len() implies points.contains(#[trigger] r[i]) by {
            if i < m {
                assert(r[i] == c[i]);
                assert(rest.contains(c[i]));
                let j = choose|j: int| 0 <= j < rest.len() && rest[j] == c[i];
                assert(points[j] == rest[j]);
            } else {
                assert(points[points.len() - 1] == p);
            }
        }
    }
}

proof fn lemma_dedup_subset(points: Seq<[Length; 2]>)
    ensures
        dedup(points).len() <= points.len(),
        forall|i: int| 0 <= i < dedup(points).len() ==> points.contains(#[trigger] dedup(points)[i]),
    decreases points.len(),
{
    if points.len() > 1 {
        let rest = points.drop_last();
        lemma_dedup_subset(rest);
        assert forall|i: int| 0 <= i < dedup(points).len() implies points.contains(#[trigger] dedup(points)[i]) by {
            if i < dedup(rest).len() {
                assert(dedup(points)[i] == dedup(rest)[i]);
                let j = choose|j: int| 0 <= j < rest.len() && rest[j] == dedup(rest)[i];
                assert(points[j] == rest[j]);
            } else {
                assert(dedup(points)[i] == points.last());
                assert(points[points.len() - 1] == points.last());
            }
        }
    } else {
        assert forall|i: int| 0 <= i < dedup(points).len() implies points.contains(#[trigger] dedup(points)[i]) by {
            assert(points[i] == dedup(points)[i]);
        }
    }
}

/// A convex hull is empty or has at least three corners, goes
/// counterclockwise, and each of its corners is one of the given points.
pub proof fn lemma_hull_shape(points: Seq<[Length; 2]>)
    ensures
        hull_of(points).len() == 0 || hull_of(points).len() >= 3,
        twice_signed_area(hull_of(points)) >= 0,
        forall|i: int| 0 <= i < hull_of(points).len() ==> points.contains(#[trigger] hull_of(points)[i]),
{
    let sorted = sorted_points(points);
    let s = dedup(sorted);
    if s.len() >= 3 {
        let lower = monotone_chain(s);
        let upper = monotone_chain(s.reverse());
        let h = lower.drop_last() + upper.drop_last();
        if h.len() >= 3 {
            if twice_signed_area(h) < 0 {
                lemma_reverse_negates_area(h);
            }
            lemma_point_order_total();
            points.lemma_sort_by_ensures(by_position());
            lemma_dedup_subset(sorted);
            lemma_monotone_chain_shape(s);
            lemma_monotone_chain_shape(s.reverse());
            lemma_chain_push_last(monotone_chain(s.drop_last()), s.last());
            lemma_chain_push_last(monotone_chain(s.reverse().drop_last()), s.reverse().last());
            assert(lower.len() >= 1 && upper.len() >= 1);
            assert forall|q: [Length; 2]| #[trigger] h.contains(q) implies points.contains(q) by {
                let i = choose|i: int| 0 <= i < h.len() && h[i] == q;
                let in_s: [Length; 2] = if i < lower.len() - 1 {
                    assert(h[i] == lower[i]);
                    lower[i]
                } else {
                    assert(h[i] == upper[i - (lower.len() - 1)]);
                    let u = upper[i - (lower.len() - 1)];
                    assert(s.reverse().contains(u));
                    let j = choose|j: int| 0 <= j < s.reverse().len() && s.reverse()[j] == u;
                    assert(s[s.len() - 1 - j] == u);
                    u
                };
                assert(s.contains(q));
                let k = choose|k: int| 0 <= k < s.len() && s[k] == q;
                assert(sorted.contains(s[k]));
                if !points.contains(q) {
                    assert(!sorted.contains(q));
                }
            }
            assert forall|i: int| 0 <= i < hull_of(points).len() implies points.contains(#[trigger] hull_of(points)[i]) by {
                if twice_signed_area(h) < 0 {
                    assert(hull_of(points)[i] == h[h.len() - 1 - i]);
                    assert(h.contains(h[h.len() - 1 - i]));
                } else {
                    assert(h.contains(h[i]));
                }
            }
        }
    }
}

/// `a` comes strictly before `b` in the order by X, then by Y.
pub open spec fn point_lt(a: [Length; 2], b: [Length; 2]) -> bool {
    a[0]@ < b[0]@ || (a[0]@ == b[0]@ && a[1]@ < b[1]@)
}

/// Every point of `s` comes strictly before every later one, by `lt`.
pub open spec fn strictly_by(s: Seq<[Length; 2]>, lt: spec_fn([Length; 2], [Length; 2]) -> bool) -> bool {
    forall|i: int, j: int| 0 <= i < j < s.len() ==> #[trigger] lt(s[i], s[j])
}

/// Dropping repeated consecutive points of a sorted sequence leaves it
/// strictly sorted.
proof fn lemma_dedup_strictly_sorted(s: Seq<[Length; 2]>)
    requires
        forall|i: int, j: int| 0 <= i < j < s.len() ==> point_leq(#[trigger] s[i], #[trigger] s[j]),
    ensures
        strictly_by(dedup(s), |a: [Length; 2], b: [Length; 2]| point_lt(a, b)),
    decreases s.len(),
{
    let lt = |a: [Length; 2], b: [Length; 2]| point_lt(a, b);
    if s.len() > 1 {
        let prefix = s.drop_last();
        assert forall|i: int, j: int| 0 <= i < j < prefix.len() implies point_leq(
            #[trigger] prefix[i],
            #[trigger] prefix[j],
        ) by {
            assert(prefix[i] == s[i] && prefix[j] == s[j]);
        }
        lemma_dedup_strictly_sorted(prefix);
        if !same_point(s[s.len() - 2], s.last()) {
            let d = dedup(prefix);
            lemma_dedup_subset(prefix);
            assert forall|i: int, j: int| 0 <= i < j < dedup(s).len() implies #[trigger] lt(
                dedup(s)[i],
                dedup(s)[j],
            ) by {
                if j == d.len() {
                    assert(dedup(s)[j] == s.last());
                    assert(prefix.contains(d[i]));
                    let k = choose|k: int| 0 <= k < prefix.len() && prefix[k] == d[i];
                    assert(point_leq(s[k], s[s.len() - 2]) || k == s.len() - 2);
                    assert(point_leq(s[s.len() - 2], s[s.len() - 1]));
                } else {
                    assert(dedup(s)[i] == d[i] && dedup(s)[j] == d[j]);
                }
            }
        }
    }
}

/// A monotone chain over points strictly sorted by `lt` is strictly sorted
/// by `lt` too; it starts with the first point and ends with the last.
proof fn lemma_chain_order(s: Seq<[Length; 2]>, lt: spec_fn([Length; 2], [Length; 2]) -> bool)
    requires
        strictly_by(s, lt),
    ensures
        strictly_by(monotone_chain(s), lt),
        s.len() >= 1 ==> monotone_chain(s).len() >= 1 && monotone_chain(s)[0] == s[0]
            && monotone_chain(s).last() == s.last(),
        s.len() >= 2 ==> monotone_chain(s).len() >= 2,
    decreases s.len(),
{
    if s.len() > 0 {
        let rest = s.drop_last();
        let p = s.last();
        let c = monotone_chain(rest);
        assert(strictly_by(rest, lt)) by {
            assert forall|i: int, j: int| 0 <= i < j < rest.len() implies #[trigger] lt(rest[i], rest[j]) by {
                assert(rest[i] == s[i] && rest[j] == s[j]);
            }
        }
        lemma_chain_order(rest, lt);
        lemma_monotone_chain_shape(rest);
        let m = lemma_chain_push_prefix(c, p);
        let r = c.take(m).push(p);
        assert forall|i: int, j: int| 0 <= i < j < r.len() implies #[trigger] lt(r[i], r[j]) by {
            if j < m {
                assert(r[i] == c[i] && r[j] == c[j]);
            } else {
                assert(r[i] == c[i]);
                assert(rest.contains(c[i]));
                let k = choose|k: int| 0 <= k < rest.len() && rest[k] == c[i];
                assert(lt(s[k], s[s.len() - 1]));
            }
        }
        if rest.len() >= 1 {
            assert(r[0] == c[0]);
        }
    }
}

/// No two neighbouring corners, the last and the first included, lie at
/// the same place.
pub open spec fn corners_distinct(h: Seq<[Length; 2]>) -> bool {
    &&& forall|i: int| 0 <= i < h.len() - 1 ==> !same_point(#[trigger] h[i], h[i + 1])
    &&& h.len() > 0 ==> !same_point(h.last(), h[0])
}

/// Joining a chain that rises from `first` to `last` with one that falls
/// from `last` back to `first`, each without its end point, gives corners
/// that all differ from their neighbours.
proof fn lemma_joined_chains_distinct(lower: Seq<[Length; 2]>, upper: Seq<[Length; 2]>)
    requires
        lower.len() >= 2,
        upper.len() >= 2,
        strictly_by(lower, |a: [Length; 2], b: [Length; 2]| point_lt(a, b)),
        strictly_by(upper, |a: [Length; 2], b: [Length; 2]| point_lt(b, a)),
        upper[0] == lower.last(),
        upper.last() == lower[0],
    ensures
        corners_distinct(lower.drop_last() + upper.drop_last()),
{
    let lt = |a: [Length; 2], b: [Length; 2]| point_lt(a, b);
    let gt = |a: [Length; 2], b: [Length; 2]| point_lt(b, a);
    let h = lower.drop_last() + upper.drop_last();
    let a = lower.len() - 1;
    let b = upper.len() - 1;
    let n = h.len() as int;
    assert forall|i: int| 0 <= i < n - 1 implies !same_point(#[trigger] h[i], h[i + 1]) by {
        if i + 1 < a {
            assert(h[i] == lower[i] && h[i + 1] == lower[i + 1]);
            assert(lt(lower[i], lower[i + 1]));
        } else if i + 1 == a {
            assert(h[i] == lower[i] && h[i + 1] == upper[0]);
            assert(lt(lower[i], lower[a]));
        } else {
            assert(h[i] == upper[i - a] && h[i + 1] == upper[i + 1 - a]);
            assert(gt(upper[i - a], upper[i + 1 - a]));
        }
    }
    assert(h.last() == upper[b - 1] && h[0] == lower[0]);
    assert(gt(upper[b - 1], upper[b]));
}

/// Turning corners around keeps neighbours apart.
proof fn lemma_reverse_corners_distinct(h: Seq<[Length; 2]>)
    requires
        corners_distinct(h),
    ensures
        corners_distinct(h.reverse()),
{
    let n = h.len() as int;
    let rev = h.reverse();
    assert forall|i: int| 0 <= i < n - 1 implies !same_point(#[trigger] rev[i], rev[i + 1]) by {
        assert(rev[i] == h[n - 1 - i] && rev[i + 1] == h[n - 2 - i]);
        assert(!same_point(h[n - 2 - i], h[n - 2 - i + 1]));
    }
    if n > 0 {
        assert(rev.last() == h[0] && rev[0] == h[n - 1]);
    }
}

/// The points without repeats, sorted by X then Y, come strictly in order.
proof fn lemma_sorted_unique_points(points: Seq<[Length; 2]>)
    ensures
        strictly_by(dedup(sorted_points(points)), |a: [Length; 2], b: [Length; 2]| point_lt(a, b)),
{
    let sorted = sorted_points(points);
    lemma_point_order_total();
    points.lemma_sort_by_ensures(by_position());
    assert forall|i: int, j: int| 0 <= i < j < sorted.len() implies point_leq(
        #[trigger] sorted[i],
        #[trigger] sorted[j],
    ) by {
        assert(by_position()(sorted[i], sorted[j]));
    }
    lemma_dedup_strictly_sorted(sorted);
}

/// No two neighbouring corners of a convex hull, the last and the first
/// included, lie at the same place: in particular the hull does not repeat
/// its first point at the end.
pub proof fn lemma_hull_corners_distinct(points: Seq<[Length; 2]>)
    ensures
        corners_distinct(hull_of(points)),
{
    let s = dedup(sorted_points(points));
    if s.len() >= 3 {
        let lower = monotone_chain(s);
        let upper = monotone_chain(s.reverse());
        let h = lower.drop_last() + upper.drop_last();
        if h.len() >= 3 {
            let lt = |a: [Length; 2], b: [Length; 2]| point_lt(a, b);
            let gt = |a: [Length; 2], b: [Length; 2]| point_lt(b, a);
            lemma_sorted_unique_points(points);
            let r = s.reverse();
            assert(strictly_by(r, gt)) by {
                assert forall|i: int, j: int| 0 <= i < j < r.len() implies #[trigger] gt(r[i], r[j]) by {
                    assert(r[i] == s[s.len() - 1 - i] && r[j] == s[s.len() - 1 - j]);
                    assert(lt(s[s.len() - 1 - j], s[s.len() - 1 - i]));
                }
            }
            lemma_chain_order(s, lt);
            lemma_chain_order(r, gt);
            assert(r[0] == s.last() && r.last() == s[0]);
            lemma_joined_chains_distinct(lower, upper);
            if twice_signed_area(h) < 0 {
                lemma_reverse_corners_distinct(h);
            }
        }
    }
}

/// The cross product of the vectors `(ux, uy)` and `(vx, vy)`.
pub open spec fn wedge(ux: int, uy: int, vx: int, vy: int) -> int {
    ux * vy - uy * vx
}

/// The vector `(x, y)` points forward: toward larger X, or straight toward
/// larger Y, when `up`; the opposite way otherwise.
pub open spec fn forward(x: int, y: int, up: bool) -> bool {
    if up {
        x > 0 || (x == 0 && y > 0)
    } else {
        x < 0 || (x == 0 && y < 0)
    }
}

/// `b` comes after `a`: by X, then by Y when `up`, the other way round
/// otherwise.
pub open spec fn ahead(a: [Length; 2], b: [Length; 2], up: bool) -> bool {
    if up {
        point_lt(a, b)
    } else {
        point_lt(b, a)
    }
}

/// Among vectors that all point forward, turning left is transitive: the
/// directions lie in one half-plane, where the cross product orders them.
proof fn lemma_wedge_order_up(ux: int, uy: int, vx: int, vy: int, wx: int, wy: int)
    requires
        forward(ux, uy, true),
        forward(vx, vy, true),
        forward(wx, wy, true),
        wedge(ux, uy, vx, vy) >= 0,
        wedge(vx, vy, wx, wy) >= 0,
    ensures
        wedge(ux, uy, wx, wy) >= 0,
{
    if vx == 0 {
        assert(wx == 0) by (nonlinear_arith)
            requires
                vy > 0,
                wx >= 0,
                vx == 0,
                vx * wy - vy * wx >= 0,
        ;
        assert(ux * wy - uy * wx >= 0) by (nonlinear_arith)
            requires
                ux >= 0,
                wy > 0,
                wx == 0,
        ;
    } else {
        assert(ux > 0) by (nonlinear_arith)
            requires
                vx > 0,
                ux > 0 || (ux == 0 && uy > 0),
                ux * vy - uy * vx >= 0,
        ;
        if wx == 0 {
            assert(ux * wy - uy * wx >= 0) by (nonlinear_arith)
                requires
                    ux > 0,
                    wy > 0,
                    wx == 0,
            ;
        } else {
            assert(ux * vy * wx >= uy * vx * wx) by (nonlinear_arith)
                requires
                    wx > 0,
                    ux * vy - uy * vx >= 0,
            ;
            assert(ux * vx * wy >= ux * vy * wx) by (nonlinear_arith)
                requires
                    ux > 0,
                    vx * wy - vy * wx >= 0,
            ;
            assert(vx * (ux * wy - uy * wx) >= 0) by (nonlinear_arith)
                requires
                    ux * vy * wx >= uy * vx * wx,
                    ux * vx * wy >= ux * vy * wx,
            ;
            assert(ux * wy - uy * wx >= 0) by (nonlinear_arith)
                requires
                    vx > 0,
                    vx * (ux * wy - uy * wx) >= 0,
            ;
        }
    }
}

/// Turning left is transitive among vectors that all point forward, in
/// either direction.
proof fn lemma_wedge_order(ux: int, uy: int, vx: int, vy: int, wx: int, wy: int, up: bool)
    requires
        forward(ux, uy, up),
        forward(vx, vy, up),
        forward(wx, wy, up),
        wedge(ux, uy, vx, vy) >= 0,
        wedge(vx, vy, wx, wy) >= 0,
    ensures
        wedge(ux, uy, wx, wy) >= 0,
{
    if up {
        lemma_wedge_order_up(ux, uy, vx, vy, wx, wy);
    } else {
        assert(wedge(-ux, -uy, -vx, -vy) == wedge(ux, uy, vx, vy)) by (nonlinear_arith);
        assert(wedge(-vx, -vy, -wx, -wy) == wedge(vx, vy, wx, wy)) by (nonlinear_arith);
        assert(wedge(-ux, -uy, -wx, -wy) == wedge(ux, uy, wx, wy)) by (nonlinear_arith);
        lemma_wedge_order_up(-ux, -uy, -vx, -vy, -wx, -wy);
    }
}

/// Seen from `o`, with `a`, `b` and `c` all after it: if `b` is left of
/// `o` to `a`, and `c` left of `o` to `b`, then `c` is left of `o` to `a`.
proof fn lemma_turns_from(o: [Length; 2], a: [Length; 2], b: [Length; 2], c: [Length; 2], up: bool)
    requires
        ahead(o, a, up),
        ahead(o, b, up),
        ahead(o, c, up),
        orientation(o, a, b) >= 0,
        orientation(o, b, c) >= 0,
    ensures
        orientation(o, a, c) >= 0,
{
    lemma_wedge_order(
        a[0]@ - o[0]@,
        a[1]@ - o[1]@,
        b[0]@ - o[0]@,
        b[1]@ - o[1]@,
        c[0]@ - o[0]@,
        c[1]@ - o[1]@,
        up,
    );
}

/// Along `x`, `y`, `w` turning left, a point `p` after `y` that is left of
/// `y` to `w` is left of `x` to `y` too.
proof fn lemma_turns_along(x: [Length; 2], y: [Length; 2], w: [Length; 2], p: [Length; 2], up: bool)
    requires
        ahead(x, y, up),
        ahead(y, w, up),
        ahead(y, p, up),
        orientation(x, y, w) >= 0,
        orientation(y, w, p) >= 0,
    ensures
        orientation(x, y, p) >= 0,
{
    let (ax, ay) = (y[0]@ - x[0]@, y[1]@ - x[1]@);
    let (bx, by) = (w[0]@ - y[0]@, w[1]@ - y[1]@);
    let (cx, cy) = (p[0]@ - y[0]@, p[1]@ - y[1]@);
    assert(wedge(ax, ay, bx, by) == ax * (by + ay) - ay * (bx + ax)) by (nonlinear_arith);
    assert(wedge(ax, ay, cx, cy) == ax * (cy + ay) - ay * (cx + ax)) by (nonlinear_arith);
    lemma_wedge_order(ax, ay, bx, by, cx, cy, up);
}

/// With `q` and `z` both before `a`, and `q` left of `z` to `a`: a point
/// `p` after `a` that is left of `z` to `a` has `q` on its left, seen from
/// `a` to `p`.
proof fn lemma_turns_back(z: [Length; 2], a: [Length; 2], q: [Length; 2], p: [Length; 2], up: bool)
    requires
        ahead(z, a, up),
        ahead(q, a, up),
        ahead(a, p, up),
        orientation(z, a, q) >= 0,
        orientation(z, a, p) >= 0,
    ensures
        orientation(a, p, q) >= 0,
{
    let (qx, qy) = (a[0]@ - q[0]@, a[1]@ - q[1]@);
    let (zx, zy) = (a[0]@ - z[0]@, a[1]@ - z[1]@);
    let (px, py) = (p[0]@ - a[0]@, p[1]@ - a[1]@);
    let (dx, dy) = (q[0]@ - z[0]@, q[1]@ - z[1]@);
    assert(orientation(z, a, q) == zx * dy - zy * dx);
    assert(dx == zx - qx && dy == zy - qy);
    assert(wedge(qx, qy, zx, zy) == zx * (zy - qy) - zy * (zx - qx)) by (nonlinear_arith);
    let (ex, ey) = (p[0]@ - z[0]@, p[1]@ - z[1]@);
    assert(ex == zx + px && ey == zy + py);
    assert(orientation(z, a, p) == zx * ey - zy * ex);
    assert(wedge(zx, zy, px, py) == zx * (zy + py) - zy * (zx + px)) by (nonlinear_arith);
    let (fx, fy) = (q[0]@ - a[0]@, q[1]@ - a[1]@);
    assert(fx == -qx && fy == -qy);
    assert(orientation(a, p, q) == px * fy - py * fx);
    assert(wedge(qx, qy, px, py) == px * (-qy) - py * (-qx)) by (nonlinear_arith);
    lemma_wedge_order(qx, qy, zx, zy, px, py, up);
}

/// `q` lies left of every edge of `chain`, or on its line.
pub open spec fn left_of_edges(chain: Seq<[Length; 2]>, q: [Length; 2]) -> bool {
    forall|t: int| 0 <= t < chain.len() - 1 ==> #[trigger] orientation(chain[t], chain[t + 1], q) >= 0
}

/// Every point of `s` comes after every earlier one.
pub open spec fn ahead_in_order(s: Seq<[Length; 2]>, up: bool) -> bool {
    forall|i: int, j: int| 0 <= i < j < s.len() ==> ahead(#[trigger] s[i], #[trigger] s[j], up)
}

/// A point `p` after a chain that turns left, and left of its last kept
/// edge, is left of every earlier edge too.
proof fn lemma_left_of_earlier_edges(chain: Seq<[Length; 2]>, m: int, p: [Length; 2], t: int, up: bool)
    requires
        2 <= m <= chain.len(),
        0 <= t <= m - 2,
        ahead_in_order(chain, up),
        forall|j: int| 0 <= j < chain.len() ==> ahead(#[trigger] chain[j], p, up),
        forall|j: int| 0 <= j < chain.len() ==> left_of_edges(chain, #[trigger] chain[j]),
        orientation(chain[m - 2], chain[m - 1], p) > 0,
    ensures
        orientation(chain[t], chain[t + 1], p) >= 0,
    decreases m - 2 - t,
{
    if t < m - 2 {
        lemma_left_of_earlier_edges(chain, m, p, t + 1, up);
        assert(left_of_edges(chain, chain[t + 2]));
        assert(orientation(chain[t], chain[t + 1], chain[t + 2]) >= 0);
        assert(ahead(chain[t], chain[t + 1], up));
        assert(ahead(chain[t + 1], chain[t + 2], up));
        assert(ahead(chain[t + 1], p, up));
        lemma_turns_along(chain[t], chain[t + 1], chain[t + 2], p, up);
    }
}

/// A triangle with a repeated corner has no area.
proof fn lemma_flat_orientation(a: [Length; 2], b: [Length; 2])
    ensures
        orientation(a, b, b) == 0,
        orientation(a, b, a) == 0,
{
    let (x, y) = (b[0]@ - a[0]@, b[1]@ - a[1]@);
    assert(x * y - y * x == 0) by (nonlinear_arith);
}

/// Every point that a monotone chain is built from, in order, lies left of
/// each of its edges or on its line.
#[verifier::spinoff_prover]
#[verifier::rlimit(40)]
proof fn lemma_chain_left_of_edges(s: Seq<[Length; 2]>, up: bool)
    requires
        ahead_in_order(s, up),
    ensures
        forall|k: int| 0 <= k < s.len() ==> left_of_edges(monotone_chain(s), #[trigger] s[k]),
    decreases s.len(),
{
    if s.len() > 0 {
        let rest = s.drop_last();
        let p = s.last();
        let n = s.len() as int;
        assert(ahead_in_order(rest, up)) by {
            assert forall|i: int, j: int| 0 <= i < j < rest.len() implies ahead(#[trigger] rest[i], #[trigger] rest[j], up) by {
                assert(rest[i] == s[i] && rest[j] == s[j]);
            }
        }
        lemma_chain_left_of_edges(rest, up);
        let c = monotone_chain(rest);
        let lt = |a: [Length; 2], b: [Length; 2]| ahead(a, b, up);
        assert(strictly_by(rest, lt));
        lemma_chain_order(rest, lt);
        lemma_monotone_chain_shape(rest);
        let m = lemma_chain_push_prefix(c, p);
        let r = c.take(m).push(p);
        assert(r == monotone_chain(s));
        if rest.len() > 0 {
            assert(ahead_in_order(c, up)) by {
                assert forall|i: int, j: int| 0 <= i < j < c.len() implies ahead(#[trigger] c[i], #[trigger] c[j], up) by {
                    assert(lt(c[i], c[j]));
                }
            }
            // Each point of the chain is one of the points before `p`.
            assert forall|j: int| 0 <= j < c.len() implies ahead(#[trigger] c[j], p, up) && left_of_edges(c, c[j]) by {
                assert(rest.contains(c[j]));
                let k = choose|k: int| 0 <= k < rest.len() && rest[k] == c[j];
                assert(rest[k] == s[k]);
                assert(ahead(s[k], s[n - 1], up));
            }
            let a = c[m - 1];
            assert forall|k: int| 0 <= k < n implies left_of_edges(r, #[trigger] s[k]) by {
                let q = s[k];
                assert forall|t: int| 0 <= t < r.len() - 1 implies #[trigger] orientation(r[t], r[t + 1], q) >= 0 by {
                    if t < m - 1 {
                        assert(r[t] == c[t] && r[t + 1] == c[t + 1]);
                        if k < n - 1 {
                            assert(q == rest[k]);
                            assert(left_of_edges(c, rest[k]));
                        } else {
                            lemma_left_of_earlier_edges(c, m, p, t, up);
                        }
                    } else {
                        assert(t == m - 1);
                        assert(r[t] == a && r[t + 1] == p);
                        if k == n - 1 {
                            lemma_flat_orientation(a, p);
                        } else {
                            assert(q == rest[k]);
                            assert(rest.contains(a));
                            let ia = choose|ia: int| 0 <= ia < rest.len() && rest[ia] == a;
                            assert(rest[ia] == s[ia]);
                            assert(ahead(a, p, up));
                            if ia == k {
                                lemma_flat_orientation(a, p);
                            } else if ia < k {
                                assert(ahead(a, q, up));
                                // `a` is not the last point of the chain, so some corner was dropped.
                                if m == c.len() {
                                    assert(a == rest.last());
                                    assert(rest.last() == s[n - 2]);
                                    if k < n - 2 {
                                        assert(ahead(s[k], s[n - 2], up));
                                    }
                                }
                                assert(m < c.len());
                                let d = c[m];
                                assert(ahead(a, d, up));
                                assert(ahead(d, p, up));
                                assert(orientation(a, d, p) <= 0);
                                crate::sketch::triangulate::lemma_orientation_symmetry(a, d, p);
                                assert(orientation(a, p, d) >= 0);
                                assert(left_of_edges(c, q));
                                assert(orientation(c[m - 1], c[m], q) >= 0);
                                lemma_turns_from(a, p, d, q, up);
                            } else {
                                assert(ahead(q, a, up));
                                if m == 1 {
                                    assert(a == rest[0]);
                                    assert(rest[0] == s[0]);
                                    if k > 0 {
                                        assert(ahead(s[0], s[k], up));
                                    }
                                }
                                assert(m >= 2);
                                let z = c[m - 2];
                                assert(ahead(z, a, up));
                                assert(left_of_edges(c, q));
                                assert(orientation(c[m - 2], c[m - 1], q) >= 0);
                                lemma_turns_back(z, a, q, p, up);
                            }
                        }
                    }
                }
            }
        } else {
            assert(r.len() == 1);
        }
    }
}

/// Every point of `points` has a point at the same place among the points
/// without repeats.
proof fn lemma_dedup_covers(points: Seq<[Length; 2]>, j: int)
    requires
        0 <= j < points.len(),
    ensures
        exists|k: int| 0 <= k < dedup(points).len() && same_point(#[trigger] dedup(points)[k], points[j]),
    decreases points.len(),
{
    let n = points.len() as int;
    if n == 1 {
        assert(same_point(dedup(points)[0], points[0]));
    } else {
        let rest = points.drop_last();
        let d = dedup(rest);
        if j < n - 1 {
            lemma_dedup_covers(rest, j);
            let k = choose|k: int| 0 <= k < d.len() && same_point(#[trigger] d[k], rest[j]);
            assert(dedup(points)[k] == d[k]);
            assert(same_point(dedup(points)[k], points[j]));
        } else if same_point(points[n - 2], points.last()) {
            lemma_dedup_covers(rest, n - 2);
            let k = choose|k: int| 0 <= k < d.len() && same_point(#[trigger] d[k], rest[n - 2]);
            assert(same_point(dedup(points)[k], points[j]));
        } else {
            assert(dedup(points)[d.len() as int] == points[j]);
            assert(same_point(dedup(points)[d.len() as int], points[j]));
        }
    }
}

/// A closed polygon whose first point lies left of every one of its edges,
/// or on its line, has a signed area that is not negative; positive when
/// its first three corners turn strictly left.
proof fn lemma_fan_area(h: Seq<[Length; 2]>)
    requires
        forall|i: int| 1 <= i < h.len() ==> orientation(h[i - 1], #[trigger] h[i], h[0]) >= 0,
    ensures
        twice_signed_area(h) >= 0,
        h.len() >= 3 && orientation(h[1], h[2], h[0]) > 0 ==> twice_signed_area(h) > 0,
    decreases h.len(),
{
    let n = h.len() as int;
    if n >= 3 {
        let shorter = h.drop_last();
        assert forall|i: int| 1 <= i < shorter.len() implies orientation(shorter[i - 1], #[trigger] shorter[i], shorter[0]) >= 0 by {
            assert(shorter[i - 1] == h[i - 1] && shorter[i] == h[i] && shorter[0] == h[0]);
        }
        lemma_fan_area(shorter);
        crate::sketch::polygon::lemma_remove_point_area(h, n - 1);
        assert(h.remove(n - 1) =~= shorter);
        assert((n - 1 + n - 1) % n == n - 2) by {
            vstd::arithmetic::div_mod::lemma_mod_add_multiples_vanish(n - 2, n);
            vstd::arithmetic::div_mod::lemma_small_mod((n - 2) as nat, n as nat);
        }
        assert((n - 1 + 1) % n == 0) by {
            vstd::arithmetic::div_mod::lemma_mod_self_0(n);
        }
        assert(orientation(h[n - 2], h[n - 1], h[0]) >= 0);
        if n > 3 {
            assert(shorter[1] == h[1] && shorter[2] == h[2] && shorter[0] == h[0]);
        }
    }
}

/// The lower chain and the upper chain, each without its last point.
pub open spec fn joined_chains(s: Seq<[Length; 2]>) -> Seq<[Length; 2]> {
    monotone_chain(s).drop_last() + monotone_chain(s.reverse()).drop_last()
}

/// When the joined chains have three corners or more, they are the hull,
/// unturned, and every point lies left of each of their edges or on its
/// line.
#[verifier::spinoff_prover]
#[verifier::rlimit(40)]
proof fn lemma_joined_hull(points: Seq<[Length; 2]>)
    ensures
        ({
            let s = dedup(sorted_points(points));
            let h = joined_chains(s);
            s.len() >= 3 && h.len() >= 3 ==> {
                &&& hull_of(points) == h
                &&& forall|k: int, i: int|
                    0 <= k < s.len() && 0 <= i < h.len() ==> #[trigger] orientation(
                        h[i],
                        h[(i + 1) % (h.len() as int)],
                        s[k],
                    ) >= 0
            }
        }),
{
    let s = dedup(sorted_points(points));
    if s.len() >= 3 {
        let lower = monotone_chain(s);
        let r = s.reverse();
        let upper = monotone_chain(r);
        let h = lower.drop_last() + upper.drop_last();
        if h.len() >= 3 {
            let lt = |a: [Length; 2], b: [Length; 2]| point_lt(a, b);
            let gt = |a: [Length; 2], b: [Length; 2]| point_lt(b, a);
            lemma_sorted_unique_points(points);
            assert(ahead_in_order(s, true)) by {
                assert forall|i: int, j: int| 0 <= i < j < s.len() implies ahead(#[trigger] s[i], #[trigger] s[j], true) by {
                    assert(lt(s[i], s[j]));
                }
            }
            assert(strictly_by(r, gt)) by {
                assert forall|i: int, j: int| 0 <= i < j < r.len() implies #[trigger] gt(r[i], r[j]) by {
                    assert(r[i] == s[s.len() - 1 - i] && r[j] == s[s.len() - 1 - j]);
                    assert(lt(s[s.len() - 1 - j], s[s.len() - 1 - i]));
                }
            }
            assert(ahead_in_order(r, false)) by {
                assert forall|i: int, j: int| 0 <= i < j < r.len() implies ahead(#[trigger] r[i], #[trigger] r[j], false) by {
                    assert(gt(r[i], r[j]));
                }
            }
            lemma_chain_order(s, lt);
            lemma_chain_order(r, gt);
            lemma_chain_left_of_edges(s, true);
            lemma_chain_left_of_edges(r, false);
            assert(r[0] == s.last() && r.last() == s[0]);
            let nl = lower.len() - 1;
            let n = h.len() as int;
            // Every edge of `h` is an edge of one of the two chains.
            assert forall|k: int, i: int| 0 <= k < s.len() && 0 <= i < n implies #[trigger] orientation(
                h[i],
                h[(i + 1) % n],
                s[k],
            ) >= 0 by {
                assert(r[s.len() - 1 - k] == s[k]);
                assert(left_of_edges(lower, s[k]));
                assert(left_of_edges(upper, r[s.len() - 1 - k]));
                if i + 1 < n {
                    vstd::arithmetic::div_mod::lemma_small_mod((i + 1) as nat, n as nat);
                } else {
                    vstd::arithmetic::div_mod::lemma_mod_self_0(n);
                }
                if i < nl {
                    assert(h[i] == lower[i]);
                    if i + 1 < nl {
                        assert(h[i + 1] == lower[i + 1]);
                    } else {
                        assert(h[i + 1] == upper[0]);
                    }
                    assert(h[(i + 1) % n] == lower[i + 1]);
                    assert(orientation(lower[i], lower[i + 1], s[k]) >= 0);
                } else {
                    let t = i - nl;
                    assert(h[i] == upper[t]);
                    if i + 1 < n {
                        assert(h[i + 1] == upper[t + 1]);
                    } else {
                        assert(h[0] == lower[0]);
                        assert(t + 1 == upper.len() - 1);
                    }
                    assert(h[(i + 1) % n] == upper[t + 1]);
                    assert(orientation(upper[t], upper[t + 1], s[k]) >= 0);
                }
            }
            // The first corner is one of the points, so the hull is not turned.
            assert forall|i: int| 1 <= i < h.len() implies orientation(h[i - 1], #[trigger] h[i], h[0]) >= 0 by {
                assert(h[0] == s[0]);
                vstd::arithmetic::div_mod::lemma_small_mod(i as nat, n as nat);
                assert(orientation(h[i - 1], h[(i - 1 + 1) % n], s[0]) >= 0);
            }
            lemma_fan_area(h);
            assert(hull_of(points) == h);
        }
    }
}

/// A convex hull holds every given point: each point lies left of every
/// edge of the hull, the closing edge from the last corner back to the
/// first included, or on its line.
pub proof fn lemma_hull_contains_points(points: Seq<[Length; 2]>)
    ensures
        forall|q: [Length; 2], i: int|
            #![trigger points.contains(q), hull_of(points)[i]]
            points.contains(q) && 0 <= i < hull_of(points).len() ==> orientation(
                hull_of(points)[i],
                hull_of(points)[(i + 1) % (hull_of(points).len() as int)],
                q,
            ) >= 0,
{
    let s = dedup(sorted_points(points));
    let h = joined_chains(s);
    if s.len() >= 3 && h.len() >= 3 {
        lemma_joined_hull(points);
        let n = h.len() as int;
            let sorted = sorted_points(points);
        lemma_point_order_total();
        points.lemma_sort_by_ensures(by_position());
        points.to_multiset_ensures();
        sorted.to_multiset_ensures();
        assert forall|q: [Length; 2], i: int|
            #![trigger points.contains(q), hull_of(points)[i]]
            points.contains(q) && 0 <= i < hull_of(points).len() implies orientation(
                hull_of(points)[i],
                hull_of(points)[(i + 1) % (hull_of(points).len() as int)],
                q,
            ) >= 0 by {
            assert(points.to_multiset().count(q) > 0);
            assert(sorted.to_multiset().count(q) > 0);
            assert(sorted.contains(q));
            let j = choose|j: int| 0 <= j < sorted.len() && sorted[j] == q;
            lemma_dedup_covers(sorted, j);
            let k = choose|k: int| 0 <= k < s.len() && same_point(#[trigger] s[k], sorted[j]);
            assert(orientation(h[i], h[(i + 1) % n], s[k]) >= 0);
        }
    }
}

/// Two forward vectors along one line see every third vector on the same
/// side: when one turns strictly left toward it, so does the other.
proof fn lemma_parallel_same_side(dx: int, dy: int, ex: int, ey: int, wx: int, wy: int, up: bool)
    requires
        forward(dx, dy, up),
        forward(ex, ey, up),
        wedge(dx, dy, ex, ey) == 0,
        wedge(dx, dy, wx, wy) > 0,
    ensures
        wedge(ex, ey, wx, wy) > 0,
    decreases (if up { 0int } else { 1int }),
{
    if !up {
        assert(wedge(-dx, -dy, -ex, -ey) == wedge(dx, dy, ex, ey)) by (nonlinear_arith);
        assert(wedge(-dx, -dy, -wx, -wy) == wedge(dx, dy, wx, wy)) by (nonlinear_arith);
        assert(wedge(-ex, -ey, -wx, -wy) == wedge(ex, ey, wx, wy)) by (nonlinear_arith);
        lemma_parallel_same_side(-dx, -dy, -ex, -ey, -wx, -wy, true);
    } else if dx == 0 {
        assert(ex == 0) by (nonlinear_arith)
            requires
                dy > 0,
                dx == 0,
                dx * ey - dy * ex == 0,
        ;
        assert(ex * wy - ey * wx > 0) by (nonlinear_arith)
            requires
                dy > 0,
                ey > 0,
                dx == 0,
                ex == 0,
                dx * wy - dy * wx > 0,
        ;
    } else {
        assert(ex > 0) by (nonlinear_arith)
            requires
                dx > 0,
                ex > 0 || (ex == 0 && ey > 0),
                dx * ey - dy * ex == 0,
        ;
        assert(dx * (ex * wy - ey * wx) == ex * (dx * wy - dy * wx)) by (nonlinear_arith)
            requires
                dx * ey - dy * ex == 0,
        ;
        assert(ex * (dx * wy - dy * wx) > 0) by (nonlinear_arith)
            requires
                ex > 0,
                dx * wy - dy * wx > 0,
        ;
        assert(ex * wy - ey * wx > 0) by (nonlinear_arith)
            requires
                dx > 0,
                dx * (ex * wy - ey * wx) > 0,
        ;
    }
}

/// Two vectors along a nonzero vector `d` are along each other.
proof fn lemma_parallel_pair(dx: int, dy: int, ux: int, uy: int, vx: int, vy: int)
    requires
        dx != 0 || dy != 0,
        wedge(dx, dy, ux, uy) == 0,
        wedge(dx, dy, vx, vy) == 0,
    ensures
        wedge(ux, uy, vx, vy) == 0,
{
    if dx != 0 {
        assert(dx * (ux * vy - uy * vx) == 0) by (nonlinear_arith)
            requires
                dx * uy - dy * ux == 0,
                dx * vy - dy * vx == 0,
        ;
        assert(ux * vy - uy * vx == 0) by (nonlinear_arith)
            requires
                dx != 0,
                dx * (ux * vy - uy * vx) == 0,
        ;
    } else {
        assert(ux == 0 && vx == 0) by (nonlinear_arith)
            requires
                dx == 0,
                dy != 0,
                dx * uy - dy * ux == 0,
                dx * vy - dy * vx == 0,
        ;
    }
}

/// Three points on the line through two different points make no turn.
proof fn lemma_on_one_line(a: [Length; 2], b: [Length; 2], p: [Length; 2], q: [Length; 2], r: [Length; 2])
    requires
        !same_point(a, b),
        orientation(a, b, p) == 0,
        orientation(a, b, q) == 0,
        orientation(a, b, r) == 0,
    ensures
        orientation(p, q, r) == 0,
{
    let (dx, dy) = (b[0]@ - a[0]@, b[1]@ - a[1]@);
    let (px, py) = (p[0]@ - a[0]@, p[1]@ - a[1]@);
    let (qx, qy) = (q[0]@ - a[0]@, q[1]@ - a[1]@);
    let (rx, ry) = (r[0]@ - a[0]@, r[1]@ - a[1]@);
    lemma_parallel_pair(dx, dy, px, py, qx, qy);
    lemma_parallel_pair(dx, dy, px, py, rx, ry);
    lemma_parallel_pair(dx, dy, qx, qy, rx, ry);
    assert((qx - px) * (ry - py) - (qy - py) * (rx - px) == 0) by (nonlinear_arith)
        requires
            px * qy - py * qx == 0,
            px * ry - py * rx == 0,
            qx * ry - qy * rx == 0,
    ;
    assert(q[0]@ - p[0]@ == qx - px && q[1]@ - p[1]@ == qy - py);
    assert(r[0]@ - p[0]@ == rx - px && r[1]@ - p[1]@ == ry - py);
}

/// A monotone chain over points that all lie on one line keeps at most
/// its two ends.
proof fn lemma_flat_chain(s: Seq<[Length; 2]>)
    requires
        forall|i: int, j: int, k: int|
            0 <= i < s.len() && 0 <= j < s.len() && 0 <= k < s.len() ==> #[trigger] orientation(s[i], s[j], s[k])
                == 0,
    ensures
        monotone_chain(s).len() <= 2,
    decreases s.len(),
{
    if s.len() > 0 {
        let rest = s.drop_last();
        let p = s.last();
        assert forall|i: int, j: int, k: int|
            0 <= i < rest.len() && 0 <= j < rest.len() && 0 <= k < rest.len() implies #[trigger] orientation(
            rest[i],
            rest[j],
            rest[k],
        ) == 0 by {
            assert(rest[i] == s[i] && rest[j] == s[j] && rest[k] == s[k]);
        }
        lemma_flat_chain(rest);
        let c = monotone_chain(rest);
        lemma_monotone_chain_shape(rest);
        if c.len() == 2 {
            assert(rest.contains(c[0]) && rest.contains(c[1]));
            let i = choose|i: int| 0 <= i < rest.len() && rest[i] == c[0];
            let j = choose|j: int| 0 <= j < rest.len() && rest[j] == c[1];
            assert(orientation(s[i], s[j], s[s.len() - 1]) == 0);
            assert(chain_push(c, p) == chain_push(c.drop_last(), p));
        }
    }
}

/// At a corner `b` with both neighbours before it, two edges that keep
/// every point on their left or on their line, and that run along one
/// line, have every point on that line.
proof fn lemma_flat_corner(a: [Length; 2], b: [Length; 2], c: [Length; 2], q: [Length; 2], up: bool)
    requires
        ahead(a, b, up),
        ahead(c, b, up),
        orientation(a, b, c) == 0,
        orientation(a, b, q) >= 0,
        orientation(b, c, q) >= 0,
    ensures
        orientation(a, b, q) == 0,
{
    let (dx, dy) = (b[0]@ - a[0]@, b[1]@ - a[1]@);
    let (ex, ey) = (b[0]@ - c[0]@, b[1]@ - c[1]@);
    let (wx, wy) = (q[0]@ - b[0]@, q[1]@ - b[1]@);
    assert(q[0]@ - a[0]@ == wx + dx && q[1]@ - a[1]@ == wy + dy);
    assert(orientation(a, b, q) == dx * (wy + dy) - dy * (wx + dx));
    assert(dx * (wy + dy) - dy * (wx + dx) == wedge(dx, dy, wx, wy)) by (nonlinear_arith);
    assert(c[0]@ - a[0]@ == dx - ex && c[1]@ - a[1]@ == dy - ey);
    assert(orientation(a, b, c) == dx * (dy - ey) - dy * (dx - ex));
    assert(dx * (dy - ey) - dy * (dx - ex) == -wedge(dx, dy, ex, ey)) by (nonlinear_arith);
    assert(orientation(b, c, q) == (-ex) * wy - (-ey) * wx);
    assert((-ex) * wy - (-ey) * wx == -wedge(ex, ey, wx, wy)) by (nonlinear_arith);
    if wedge(dx, dy, wx, wy) > 0 {
        lemma_parallel_same_side(dx, dy, ex, ey, wx, wy, up);
    }
}

/// A corner of the hull whose two edges run along one line would put every
/// point on that line, and then the hull has no corners: so each corner
/// turns strictly left.
proof fn lemma_join_turns(
    points: Seq<[Length; 2]>,
    a: [Length; 2],
    b: [Length; 2],
    c: [Length; 2],
    up: bool,
)
    requires
        ({
            let s = dedup(sorted_points(points));
            &&& s.len() >= 3
            &&& joined_chains(s).len() >= 3
            &&& s.contains(c)
            &&& forall|k: int| 0 <= k < s.len() ==> orientation(a, b, #[trigger] s[k]) >= 0
            &&& forall|k: int| 0 <= k < s.len() ==> orientation(b, c, #[trigger] s[k]) >= 0
        }),
        ahead(a, b, up),
        ahead(c, b, up),
    ensures
        orientation(a, b, c) > 0,
{
    let s = dedup(sorted_points(points));
    let kc = choose|k: int| 0 <= k < s.len() && s[k] == c;
    assert(orientation(a, b, s[kc]) >= 0);
    if orientation(a, b, c) == 0 {
        assert forall|k: int| 0 <= k < s.len() implies orientation(a, b, #[trigger] s[k]) == 0 by {
            lemma_flat_corner(a, b, c, s[k], up);
        }
        assert forall|i: int, j: int, k: int|
            0 <= i < s.len() && 0 <= j < s.len() && 0 <= k < s.len() implies #[trigger] orientation(s[i], s[j], s[k])
                == 0 by {
            assert(orientation(a, b, s[i]) == 0 && orientation(a, b, s[j]) == 0 && orientation(a, b, s[k]) == 0);
            lemma_on_one_line(a, b, s[i], s[j], s[k]);
        }
        let r = s.reverse();
        assert forall|i: int, j: int, k: int|
            0 <= i < r.len() && 0 <= j < r.len() && 0 <= k < r.len() implies #[trigger] orientation(r[i], r[j], r[k])
                == 0 by {
            let n = s.len() as int;
            assert(r[i] == s[n - 1 - i] && r[j] == s[n - 1 - j] && r[k] == s[n - 1 - k]);
            assert(orientation(s[n - 1 - i], s[n - 1 - j], s[n - 1 - k]) == 0);
        }
        lemma_flat_chain(s);
        lemma_flat_chain(r);
        lemma_chain_push_last(monotone_chain(s.drop_last()), s.last());
        lemma_chain_push_last(monotone_chain(r.drop_last()), r.last());
        assert(joined_chains(s).len() <= 2);
    }
}

/// Every corner of a convex hull, the first and the last included, turns
/// strictly left: no three neighbouring corners lie on one line.
#[verifier::spinoff_prover]
#[verifier::rlimit(40)]
pub proof fn lemma_hull_turns_left(points: Seq<[Length; 2]>)
    ensures
        forall|j: int|
            0 <= j < hull_of(points).len() ==> orientation(
                hull_of(points)[(j + hull_of(points).len() - 1) % (hull_of(points).len() as int)],
                #[trigger] hull_of(points)[j],
                hull_of(points)[(j + 1) % (hull_of(points).len() as int)],
            ) > 0,
{
    let s = dedup(sorted_points(points));
    let h = joined_chains(s);
    if s.len() >= 3 && h.len() >= 3 {
        lemma_joined_hull(points);
        let lower = monotone_chain(s);
        let r = s.reverse();
        let upper = monotone_chain(r);
        let lt = |a: [Length; 2], b: [Length; 2]| point_lt(a, b);
        let gt = |a: [Length; 2], b: [Length; 2]| point_lt(b, a);
        lemma_sorted_unique_points(points);
        assert(strictly_by(r, gt)) by {
            assert forall|i: int, j: int| 0 <= i < j < r.len() implies #[trigger] gt(r[i], r[j]) by {
                assert(r[i] == s[s.len() - 1 - i] && r[j] == s[s.len() - 1 - j]);
                assert(lt(s[s.len() - 1 - j], s[s.len() - 1 - i]));
            }
        }
        lemma_chain_order(s, lt);
        lemma_chain_order(r, gt);
        lemma_monotone_chain_shape(s);
        lemma_monotone_chain_shape(r);
        assert(r[0] == s.last() && r.last() == s[0]);
        let nl = lower.len() - 1;
        let nu = upper.len() - 1;
        let n = h.len() as int;
        assert(n == nl + nu);
        assert forall|j: int| 0 <= j < n implies orientation(
            h[(j + n - 1) % n],
            #[trigger] h[j],
            h[(j + 1) % n],
        ) > 0 by {
            if j + 1 < n {
                vstd::arithmetic::div_mod::lemma_small_mod((j + 1) as nat, n as nat);
            } else {
                vstd::arithmetic::div_mod::lemma_mod_self_0(n);
            }
            if j == 0 {
                vstd::arithmetic::div_mod::lemma_small_mod((n - 1) as nat, n as nat);
            } else {
                vstd::arithmetic::div_mod::lemma_mod_add_multiples_vanish(j - 1, n);
                vstd::arithmetic::div_mod::lemma_small_mod((j - 1) as nat, n as nat);
            }
            let prev = (j + n - 1) % n;
            let next = (j + 1) % n;
            if j == 0 {
                // The leftmost point: from the upper chain back onto the lower one.
                assert(h[0] == lower[0] && lower[0] == s[0]);
                assert(h[n - 1] == upper[nu - 1]);
                if nl >= 2 {
                    assert(h[1] == lower[1]);
                } else {
                    assert(h[1] == upper[0]);
                }
                assert(gt(upper[nu - 1], upper[nu]));
                assert(lt(lower[0], lower[1]));
                assert(s.contains(lower[1]));
                assert forall|k: int| 0 <= k < s.len() implies orientation(h[n - 1], h[0], #[trigger] s[k]) >= 0 by {
                    assert(orientation(h[n - 1], h[(n - 1 + 1) % n], s[k]) >= 0);
                }
                assert forall|k: int| 0 <= k < s.len() implies orientation(h[0], h[1], #[trigger] s[k]) >= 0 by {
                    assert(orientation(h[0], h[(0int + 1) % n], s[k]) >= 0);
                }
                lemma_join_turns(points, h[n - 1], h[0], h[1], false);
            } else if j < nl {
                assert(h[j - 1] == lower[j - 1] && h[j] == lower[j]);
                if j + 1 < nl {
                    assert(h[j + 1] == lower[j + 1]);
                } else {
                    assert(h[j + 1] == upper[0]);
                }
                assert(orientation(lower[j - 1], lower[j], lower[j + 1]) > 0);
            } else if j == nl {
                // The rightmost point: from the lower chain onto the upper one.
                assert(h[j - 1] == lower[nl - 1] && h[j] == upper[0]);
                if j + 1 < n {
                    assert(h[j + 1] == upper[1]);
                } else {
                    assert(h[0] == lower[0]);
                }
                assert(h[next] == upper[1]);
                assert(lt(lower[nl - 1], lower[nl]));
                assert(gt(upper[0], upper[1]));
                assert(s.contains(upper[1])) by {
                    assert(r.contains(upper[1]));
                    let q = choose|q: int| 0 <= q < r.len() && r[q] == upper[1];
                    assert(r[q] == s[s.len() - 1 - q]);
                }
                assert forall|k: int| 0 <= k < s.len() implies orientation(h[j - 1], h[j], #[trigger] s[k]) >= 0 by {
                    vstd::arithmetic::div_mod::lemma_small_mod(j as nat, n as nat);
                    assert(orientation(h[j - 1], h[(j - 1 + 1) % n], s[k]) >= 0);
                }
                assert forall|k: int| 0 <= k < s.len() implies orientation(h[j], h[next], #[trigger] s[k]) >= 0 by {
                    assert(orientation(h[j], h[(j + 1) % n], s[k]) >= 0);
                }
                lemma_join_turns(points, h[j - 1], h[j], h[next], true);
            } else {
                let t = j - nl;
                assert(h[j - 1] == upper[t - 1] && h[j] == upper[t]);
                if j + 1 < n {
                    assert(h[j + 1] == upper[t + 1]);
                } else {
                    assert(h[0] == lower[0]);
                }
                assert(h[next] == upper[t + 1]);
                assert(orientation(upper[t - 1], upper[t], upper[t + 1]) > 0);
            }
        }
    }
}

/// A triangle with two corners at one place has no area.
proof fn lemma_repeated_corner(a: [Length; 2], b: [Length; 2], c: [Length; 2])
    requires
        same_point(a, b) || same_point(b, c) || same_point(a, c),
    ensures
        orientation(a, b, c) == 0,
{
    let (ax, ay, bx, by, cx, cy) = (a[0]@, a[1]@, b[0]@, b[1]@, c[0]@, c[1]@);
    assert((bx - ax) * (cy - ay) - (by - ay) * (cx - ax) == 0) by (nonlinear_arith)
        requires
            (ax == bx && ay == by) || (bx == cx && by == cy) || (ax == cx && ay == cy),
    ;
}

/// Every given point has a point at the same place among the sorted points
/// without repeats.
proof fn lemma_points_covered(points: Seq<[Length; 2]>, i: int)
    requires
        0 <= i < points.len(),
    ensures
        exists|k: int|
            0 <= k < dedup(sorted_points(points)).len() && same_point(
                #[trigger] dedup(sorted_points(points))[k],
                points[i],
            ),
{
    let sorted = sorted_points(points);
    let q = points[i];
    lemma_point_order_total();
    points.lemma_sort_by_ensures(by_position());
    points.to_multiset_ensures();
    sorted.to_multiset_ensures();
    assert(points.contains(q));
    assert(points.to_multiset().count(q) > 0);
    assert(sorted.to_multiset().count(q) > 0);
    assert(sorted.contains(q));
    let j = choose|j: int| 0 <= j < sorted.len() && sorted[j] == q;
    lemma_dedup_covers(sorted, j);
}

/// When the two chains join into fewer than three corners, every point
/// lies on the line through the first and the last point, which differ.
#[verifier::spinoff_prover]
proof fn lemma_flat_joined(points: Seq<[Length; 2]>)
    requires
        dedup(sorted_points(points)).len() >= 3,
        joined_chains(dedup(sorted_points(points))).len() < 3,
    ensures
        ({
            let s = dedup(sorted_points(points));
            &&& !same_point(s[0], s[s.len() - 1])
            &&& forall|x: int| 0 <= x < s.len() ==> orientation(s[0], s[s.len() - 1], #[trigger] s[x]) == 0
        }),
{
    let s = dedup(sorted_points(points));
    let lower = monotone_chain(s);
    let r = s.reverse();
    let upper = monotone_chain(r);
    let lt = |a: [Length; 2], b: [Length; 2]| point_lt(a, b);
    let gt = |a: [Length; 2], b: [Length; 2]| point_lt(b, a);
    lemma_sorted_unique_points(points);
    assert(strictly_by(r, gt)) by {
        assert forall|x: int, y: int| 0 <= x < y < r.len() implies #[trigger] gt(r[x], r[y]) by {
            assert(r[x] == s[s.len() - 1 - x] && r[y] == s[s.len() - 1 - y]);
            assert(lt(s[s.len() - 1 - y], s[s.len() - 1 - x]));
        }
    }
    lemma_chain_order(s, lt);
    lemma_chain_order(r, gt);
    assert(lower.len() == 2 && upper.len() == 2);
    let a = s[0];
    let b = s[s.len() - 1];
    assert(lower[0] == a && lower[1] == b);
    assert(r[0] == b && r[r.len() - 1] == a);
    assert(upper[0] == b && upper[1] == a);
    assert(lt(s[0], s[s.len() - 1]));
    assert(ahead_in_order(s, true)) by {
        assert forall|x: int, y: int| 0 <= x < y < s.len() implies ahead(#[trigger] s[x], #[trigger] s[y], true) by {
            assert(lt(s[x], s[y]));
        }
    }
    assert(ahead_in_order(r, false)) by {
        assert forall|x: int, y: int| 0 <= x < y < r.len() implies ahead(#[trigger] r[x], #[trigger] r[y], false) by {
            assert(gt(r[x], r[y]));
        }
    }
    lemma_chain_left_of_edges(s, true);
    lemma_chain_left_of_edges(r, false);
    assert forall|x: int| 0 <= x < s.len() implies orientation(a, b, #[trigger] s[x]) == 0 by {
        let q = s[x];
        assert(left_of_edges(lower, q));
        assert(orientation(lower[0], lower[0int + 1], q) >= 0);
        assert(r[s.len() - 1 - x] == q);
        assert(left_of_edges(upper, r[s.len() - 1 - x]));
        assert(orientation(upper[0], upper[0int + 1], q) >= 0);
        crate::sketch::triangulate::lemma_orientation_symmetry(b, a, q);
        crate::sketch::triangulate::lemma_orientation_symmetry(a, b, q);
    }
}

/// When the two chains join into three corners or more, they make the
/// hull, and its area is positive.
#[verifier::spinoff_prover]
proof fn lemma_joined_area(points: Seq<[Length; 2]>)
    requires
        dedup(sorted_points(points)).len() >= 3,
        joined_chains(dedup(sorted_points(points))).len() >= 3,
    ensures
        hull_of(points).len() >= 3,
        twice_signed_area(hull_of(points)) > 0,
{
    let s = dedup(sorted_points(points));
    let h = joined_chains(s);
    lemma_joined_hull(points);
    assert(hull_of(points) == h);
    let n = h.len() as int;
    let lt = |a: [Length; 2], b: [Length; 2]| point_lt(a, b);
    lemma_sorted_unique_points(points);
    lemma_chain_order(s, lt);
    assert(h[0] == monotone_chain(s)[0]);
    assert(h[0] == s[0]);
    lemma_hull_turns_left(points);
    assert(orientation(h[(1int + n - 1) % n], h[1], h[(1int + 1) % n]) > 0);
    vstd::arithmetic::div_mod::lemma_mod_self_0(n);
    vstd::arithmetic::div_mod::lemma_small_mod(2, n as nat);
    assert((1int + n - 1) % n == 0);
    crate::sketch::triangulate::lemma_orientation_symmetry(h[0], h[1], h[2]);
    assert forall|x: int| 1 <= x < n implies orientation(h[x - 1], #[trigger] h[x], h[0]) >= 0 by {
        vstd::arithmetic::div_mod::lemma_small_mod(x as nat, n as nat);
        assert(orientation(h[x - 1], h[(x - 1 + 1) % n], s[0]) >= 0);
    }
    lemma_fan_area(h);
}

/// Three given points that do not lie on one line give a hull of at least
/// three corners, with a positive area and no corner repeated next to
/// itself.
pub proof fn lemma_hull_nonempty(points: Seq<[Length; 2]>, i: int, j: int, k: int)
    requires
        0 <= i < points.len(),
        0 <= j < points.len(),
        0 <= k < points.len(),
        orientation(points[i], points[j], points[k]) != 0,
    ensures
        hull_of(points).len() >= 3,
        twice_signed_area(hull_of(points)) > 0,
        corners_distinct(hull_of(points)),
{
    let s = dedup(sorted_points(points));
    lemma_points_covered(points, i);
    lemma_points_covered(points, j);
    lemma_points_covered(points, k);
    let ki = choose|ki: int| 0 <= ki < s.len() && same_point(#[trigger] s[ki], points[i]);
    let kj = choose|kj: int| 0 <= kj < s.len() && same_point(#[trigger] s[kj], points[j]);
    let kk = choose|kk: int| 0 <= kk < s.len() && same_point(#[trigger] s[kk], points[k]);
    assert(orientation(s[ki], s[kj], s[kk]) == orientation(points[i], points[j], points[k]));
    if s.len() < 3 {
        lemma_repeated_corner(s[ki], s[kj], s[kk]);
    }
    if joined_chains(s).len() < 3 {
        lemma_flat_joined(points);
        lemma_on_one_line(s[0], s[s.len() - 1], s[ki], s[kj], s[kk]);
    }
    lemma_joined_area(points);
    lemma_hull_corners_distinct(points);
}

} // verus!
