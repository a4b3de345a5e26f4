//! Polygons given by their corners.

use vstd::prelude::*;

use crate::length::{Length, group_length};

verus! {

broadcast use group_length;

/// Closed polygon in the XY plane of the sketch.
///
/// The vertices specify the shape in sketch coordinates. The polygon is not
/// centered on the origin.
#[derive(Debug, Clone, PartialEq)]
pub struct Polygon {
    pub points: Vec<[Length; 2]>,
}

/// The largest coordinate magnitude, in micrometers, for which the signed
/// area of a polygon is computed exactly in 128-bit integers: 2^62 µm,
/// some 4.6 million kilometres. It is a limit of the machine's integers, not
/// of the geometry.
pub open spec fn coordinate_limit() -> int {
    0x4000_0000_0000_0000
}

/// Every coordinate of every point lies within the coordinate limit.
pub open spec fn coordinates_bounded(points: Seq<[Length; 2]>) -> bool {
    forall|i: int, k: int|
        0 <= i < points.len() && 0 <= k < 2 ==> -coordinate_limit() <= #[trigger] points[i][k]@ <= coordinate_limit()
}

/// Two points at the same place.
pub open spec fn same_point(a: [Length; 2], b: [Length; 2]) -> bool {
    a[0]@ == b[0]@ && a[1]@ == b[1]@
}

/// The points without a last point at the place of the first.
pub open spec fn drop_closing(points: Seq<[Length; 2]>) -> Seq<[Length; 2]> {
    if points.len() >= 2 && same_point(points[0], points.last()) {
        points.drop_last()
    } else {
        points
    }
}

/// The points with every run of repeated consecutive points kept once.
pub open spec fn dedup(points: Seq<[Length; 2]>) -> Seq<[Length; 2]>
    decreases points.len(),
{
    if points.len() <= 1 {
        points
    } else if same_point(points[points.len() - 2], points.last()) {
        dedup(points.drop_last())
    } else {
        dedup(points.drop_last()).push(points.last())
    }
}

/// The cross product of two points seen from the origin.
pub open spec fn cross(a: [Length; 2], b: [Length; 2]) -> int {
    a[0]@ * b[1]@ - b[0]@ * a[1]@
}

/// Twice the signed area of the triangle `a`, `b`, `c`: positive when the
/// turn from `a` through `b` to `c` goes counterclockwise, zero when the
/// three points lie on a line.
pub open spec fn orientation(a: [Length; 2], b: [Length; 2], c: [Length; 2]) -> int {
    (b[0]@ - a[0]@) * (c[1]@ - a[1]@) - (b[1]@ - a[1]@) * (c[0]@ - a[0]@)
}

/// The sum of the cross products of the first `k` edges of a closed polygon.
pub open spec fn area_sum(points: Seq<[Length; 2]>, k: int) -> int
    decreases k,
{
    if k <= 0 {
        0
    } else {
        area_sum(points, k - 1) + cross(points[k - 1], points[k % (points.len() as int)])
    }
}

/// Twice the signed area of a closed polygon, in square micrometers. The
/// value is positive when the vertices go counterclockwise.
pub open spec fn twice_signed_area(points: Seq<[Length; 2]>) -> int {
    if points.len() < 3 {
        0
    } else {
        area_sum(points, points.len() as int)
    }
}

/// The authored points of a polygon once each: every run of repeated
/// consecutive points kept once, then the closing point dropped when the
/// ring ends where it starts.
pub open spec fn open_ring(points: Seq<[Length; 2]>) -> Seq<[Length; 2]> {
    drop_closing(dedup(points))
}

/// The contour of a polygon: the authored points without repeated
/// consecutive points and without closing points, turned counterclockwise.
/// Fewer than three points left give an empty contour.
pub open spec fn polygon_contour(points: Seq<[Length; 2]>) -> Seq<[Length; 2]> {
    let kept = open_ring(points);
    if kept.len() < 3 {
        Seq::empty()
    } else if twice_signed_area(kept) < 0 {
        kept.reverse()
    } else {
        kept
    }
}

pub(crate) fn same_point_exec(a: [Length; 2], b: [Length; 2]) -> (r: bool)
    ensures
        r == same_point(a, b),
{
    a[0].as_um() == b[0].as_um() && a[1].as_um() == b[1].as_um()
}

/// Two coordinates within the limit have a product within 2^124.
proof fn lemma_product_bound(x: int, y: int)
    requires
        -coordinate_limit() <= x <= coordinate_limit(),
        -coordinate_limit() <= y <= coordinate_limit(),
    ensures
        -0x1000_0000_0000_0000_0000_0000_0000_0000 <= x * y <= 0x1000_0000_0000_0000_0000_0000_0000_0000,
{
    assert(-0x1000_0000_0000_0000_0000_0000_0000_0000 <= x * y <= 0x1000_0000_0000_0000_0000_0000_0000_0000)
        by (nonlinear_arith)
        requires
            -0x4000_0000_0000_0000 <= x <= 0x4000_0000_0000_0000,
            -0x4000_0000_0000_0000 <= y <= 0x4000_0000_0000_0000,
    ;
}

/// Whether twice the signed area of a closed polygon is negative, that is,
/// whether its points go clockwise.
///
/// The sum is kept in two limbs, `high * 2^64 + low`, so that no partial sum
/// overflows whatever the number of points.
pub fn is_clockwise(points: &Vec<[Length; 2]>) -> (r: bool)
    requires
        points@.len() >= 3,
        coordinates_bounded(points@),
    ensures
        r == (twice_signed_area(points@) < 0),
{
    let n = points.len();
    let mut high: i128 = 0;
    let mut low: u64 = 0;
    let mut i: usize = 0;
    while i < n
        invariant
            n == points@.len(),
            n >= 3,
            coordinates_bounded(points@),
            0 <= i <= n,
            high * 0x1_0000_0000_0000_0000 + low == area_sum(points@, i as int),
            -(i * 0x2000_0000_0000_0001) <= high <= i * 0x2000_0000_0000_0001,
        decreases n - i,
    {
        let a = points[i];
        let b = points[(i + 1) % n];
        let ax = a[0].as_um();
        let ay = a[1].as_um();
        let bx = b[0].as_um();
        let by = b[1].as_um();
        proof {
            assert(-coordinate_limit() <= points@[i as int][0]@ <= coordinate_limit());
            assert(-coordinate_limit() <= points@[i as int][1]@ <= coordinate_limit());
            assert(-coordinate_limit() <= points@[(i + 1) % n as int][0]@ <= coordinate_limit());
            assert(-coordinate_limit() <= points@[(i + 1) % n as int][1]@ <= coordinate_limit());
            lemma_product_bound(ax as int, by as int);
            lemma_product_bound(bx as int, ay as int);
        }
        let term: i128 = ax * by - bx * ay;
        let q: i128 = match term.checked_div_euclid(0x1_0000_0000_0000_0000i128) {
            Some(q) => q,
            None => 0,
        };
        let rem: i128 = match term.checked_rem_euclid(0x1_0000_0000_0000_0000i128) {
            Some(rem) => rem,
            None => 0,
        };
        proof {
            vstd::arithmetic::div_mod::lemma_fundamental_div_mod(term as int, 0x1_0000_0000_0000_0000);
            assert(term == 0x1_0000_0000_0000_0000 * q + rem);
            assert(0 <= rem < 0x1_0000_0000_0000_0000);
            assert(-0x2000_0000_0000_0001 <= q <= 0x2000_0000_0000_0001) by (nonlinear_arith)
                requires
                    term == 0x1_0000_0000_0000_0000 * q + rem,
                    0 <= rem < 0x1_0000_0000_0000_0000,
                    -0x2000_0000_0000_0000_0000_0000_0000_0000 <= term <= 0x2000_0000_0000_0000_0000_0000_0000_0000,
            ;
            assert((i + 1) * 0x2000_0000_0000_0001 <= 0x1_0000_0000_0000_0000 * 0x2000_0000_0000_0001)
                by (nonlinear_arith)
                requires
                    i < n,
                    n <= usize::MAX,
            ;
            assert((i + 1) * 0x2000_0000_0000_0001 == i * 0x2000_0000_0000_0001 + 0x2000_0000_0000_0001)
                by (nonlinear_arith);
        }
        let ghost old_high = high;
        let ghost old_low = low;
        let sum_low: u128 = low as u128 + rem as u128;
        let carry: i128 = if sum_low >= 0x1_0000_0000_0000_0000 { 1 } else { 0 };
        let new_low: u64 = if carry == 1 {
            (sum_low - 0x1_0000_0000_0000_0000) as u64
        } else {
            sum_low as u64
        };
        high = high + q + carry;
        low = new_low;
        proof {
            assert(area_sum(points@, i + 1) == area_sum(points@, i as int) + cross(
                points@[i as int],
                points@[(i + 1) % (n as int)],
            ));
            assert(cross(points@[i as int], points@[(i + 1) % (n as int)]) == term);
            assert(high * 0x1_0000_0000_0000_0000 == old_high * 0x1_0000_0000_0000_0000 + q
                * 0x1_0000_0000_0000_0000 + carry * 0x1_0000_0000_0000_0000);
            assert(low + carry * 0x1_0000_0000_0000_0000 == old_low + rem);
        }
        i += 1;
    }
    proof {
        if high >= 0 {
            assert(high * 0x1_0000_0000_0000_0000 >= 0) by (nonlinear_arith)
                requires high >= 0;
        } else {
            assert(high * 0x1_0000_0000_0000_0000 <= -0x1_0000_0000_0000_0000) by (nonlinear_arith)
                requires high < 0;
        }
    }
    high < 0
}

impl Polygon {
    pub fn new(points: Vec<[Length; 2]>) -> (p: Polygon)
        ensures
            p.points == points,
    {
        Polygon { points }
    }

    /// Closed contour in the XY plane, counterclockwise, without repeating
    /// the first point: the authored points without repeated consecutive
    /// points and without closing points, reversed when they go
    /// clockwise. Fewer than three points left give an empty contour. The
    /// corners are exact, so the tolerance plays no part.
    pub fn contour(&self, tolerance: Length) -> (c: Vec<[Length; 2]>)
        requires
            coordinates_bounded(self.points@),
        ensures
            c@ == polygon_contour(self.points@),
            c@.len() > 0 ==> !same_point(c@[0], c@.last()),
    {
        proof {
            if polygon_contour(self.points@).len() > 0 {
                lemma_contour_does_not_close(self.points@);
            }
        }
        let points = &self.points;
        let len = points.len();
        let mut kept: Vec<[Length; 2]> = Vec::new();
        let mut i: usize = 0;
        while i < len
            invariant
                0 <= i <= len == points@.len(),
                coordinates_bounded(points@),
                coordinates_bounded(kept@),
                kept@ == dedup(points@.take(i as int)),
            decreases len - i,
        {
            proof {
                let next = points@.take(i + 1);
                assert(next.drop_last() =~= points@.take(i as int));
            }
            if i == 0 || !same_point_exec(points[i - 1], points[i]) {
                kept.push(points[i]);
                proof {
                    assert forall|j: int, k: int| 0 <= j < kept@.len() && 0 <= k < 2 implies -coordinate_limit()
                        <= #[trigger] kept@[j][k]@ <= coordinate_limit() by {
                        if j == kept@.len() - 1 {
                            assert(kept@[j] == points@[i as int]);
                        }
                    }
                }
            }
            i += 1;
        }
        assert(points@.take(len as int) =~= points@);
        let k = kept.len();
        if k >= 2 && same_point_exec(kept[0], kept[k - 1]) {
            kept.pop();
            proof {
                assert forall|j: int, c: int| 0 <= j < kept@.len() && 0 <= c < 2 implies -coordinate_limit()
                    <= #[trigger] kept@[j][c]@ <= coordinate_limit() by {
                    assert(kept@[j] == dedup(points@)[j]);
                }
            }
        }
        assert(kept@ =~= open_ring(points@));
        if kept.len() < 3 {
            return Vec::new();
        }
        if is_clockwise(&kept) {
            let n = kept.len();
            let mut reversed: Vec<[Length; 2]> = Vec::new();
            let mut k: usize = 0;
            while k < n
                invariant
                    0 <= k <= n,
                    n == kept@.len(),
                    reversed@ == kept@.reverse().take(k as int),
                decreases n - k,
            {
                reversed.push(kept[n - 1 - k]);
                k += 1;
                assert(reversed@ =~= kept@.reverse().take(k as int));
            }
            assert(kept@.reverse().take(n as int) =~= kept@.reverse());
            reversed
        } else {
            kept
        }
    }
}

/// The cross products of the edges from point `lo` up to point `hi`,
/// without the closing edge.
pub open spec fn edge_sum(points: Seq<[Length; 2]>, lo: int, hi: int) -> int
    decreases hi - lo,
{
    if hi <= lo {
        0
    } else {
        edge_sum(points, lo, hi - 1) + cross(points[hi - 1], points[hi])
    }
}

proof fn lemma_area_sum_open(points: Seq<[Length; 2]>, k: int)
    requires
        0 <= k < points.len(),
    ensures
        area_sum(points, k) == edge_sum(points, 0, k),
    decreases k,
{
    if k > 0 {
        lemma_area_sum_open(points, k - 1);
        vstd::arithmetic::div_mod::lemma_small_mod(k as nat, points.len());
    }
}

proof fn lemma_edge_sum_split_low(points: Seq<[Length; 2]>, lo: int, hi: int)
    requires
        lo < hi,
    ensures
        edge_sum(points, lo, hi) == cross(points[lo], points[lo + 1]) + edge_sum(points, lo + 1, hi),
    decreases hi - lo,
{
    if hi - 1 > lo {
        lemma_edge_sum_split_low(points, lo, hi - 1);
        assert(edge_sum(points, lo + 1, hi) == edge_sum(points, lo + 1, hi - 1) + cross(points[hi - 1], points[hi]));
    } else {
        assert(edge_sum(points, lo, hi - 1) == 0);
        assert(edge_sum(points, lo + 1, hi) == 0);
    }
}

proof fn lemma_edge_sum_reverse(points: Seq<[Length; 2]>, k: int)
    requires
        0 <= k < points.len(),
    ensures
        edge_sum(points.reverse(), 0, k) == -edge_sum(points, points.len() - 1 - k, points.len() - 1),
    decreases k,
{
    let n = points.len() as int;
    if k > 0 {
        lemma_edge_sum_reverse(points, k - 1);
        lemma_edge_sum_split_low(points, n - 1 - k, n - 1);
        let r = points.reverse();
        assert(r[k - 1] == points[n - k]);
        assert(r[k] == points[n - 1 - k]);
    }
}

/// Reversing a closed polygon negates its signed area.
pub proof fn lemma_reverse_negates_area(points: Seq<[Length; 2]>)
    ensures
        twice_signed_area(points.reverse()) == -twice_signed_area(points),
{
    let n = points.len() as int;
    if n >= 3 {
        let r = points.reverse();
        lemma_area_sum_open(points, n - 1);
        lemma_area_sum_open(r, n - 1);
        lemma_edge_sum_reverse(points, n - 1);
        assert(area_sum(points, n) == area_sum(points, n - 1) + cross(points[n - 1], points[0]));
        assert(area_sum(r, n) == area_sum(r, n - 1) + cross(r[n - 1], r[0]));
        assert(r[n - 1] == points[0]);
        assert(r[0] == points[n - 1]);
    }
}

/// A polygon contour goes counterclockwise: its signed area is never
/// negative.
pub proof fn lemma_contour_counterclockwise(points: Seq<[Length; 2]>)
    ensures
        twice_signed_area(polygon_contour(points)) >= 0,
{
    let kept = open_ring(points);
    if kept.len() >= 3 && twice_signed_area(kept) < 0 {
        lemma_reverse_negates_area(kept);
    }
}

/// A polygon contour is empty or has at least three points, and no point
/// of it repeats the point before it.
pub proof fn lemma_contour_shape(points: Seq<[Length; 2]>)
    ensures
        polygon_contour(points).len() == 0 || polygon_contour(points).len() >= 3,
        forall|i: int|
            1 <= i < polygon_contour(points).len() ==> !same_point(
                #[trigger] polygon_contour(points)[i - 1],
                polygon_contour(points)[i],
            ),
{
    let kept = open_ring(points);
    lemma_dedup_no_repeats(points);
    if kept.len() >= 3 && twice_signed_area(kept) < 0 {
        let r = kept.reverse();
        assert forall|i: int| 1 <= i < r.len() implies !same_point(#[trigger] r[i - 1], r[i]) by {
            let j = kept.len() - i;
            assert(r[i - 1] == kept[j]);
            assert(r[i] == kept[j - 1]);
            assert(!same_point(kept[j - 1], kept[j]));
        }
    }
}

/// A polygon contour does not end at its first point: no closing point is
/// ever kept.
pub proof fn lemma_contour_does_not_close(points: Seq<[Length; 2]>)
    requires
        polygon_contour(points).len() > 0,
    ensures
        !same_point(polygon_contour(points)[0], polygon_contour(points).last()),
{
    let d = dedup(points);
    let kept = open_ring(points);
    lemma_dedup_no_repeats(points);
    if d.len() >= 2 && same_point(d[0], d.last()) {
        assert(kept.last() == d[d.len() - 2]);
        assert(!same_point(d[d.len() - 2], d[d.len() - 1]));
        assert(kept[0] == d[0]);
    }
    if twice_signed_area(kept) < 0 {
        let r = kept.reverse();
        assert(r[0] == kept.last() && r.last() == kept[0]);
    }
}

proof fn lemma_dedup_no_repeats(points: Seq<[Length; 2]>)
    ensures
        forall|i: int| 1 <= i < dedup(points).len() ==> !same_point(#[trigger] dedup(points)[i - 1], dedup(points)[i]),
        points.len() > 0 ==> dedup(points).len() > 0 && dedup(points).last() == points.last(),
    decreases points.len(),
{
    if points.len() > 1 {
        lemma_dedup_no_repeats(points.drop_last());
    }
}

/// The orientation of a triangle is the sum of the cross products of its
/// three edges.
pub proof fn lemma_orientation_edges(a: [Length; 2], b: [Length; 2], c: [Length; 2])
    ensures
        orientation(a, b, c) == cross(a, b) + cross(b, c) + cross(c, a),
{
    let (ax, ay, bx, by, cx, cy) = (a[0]@, a[1]@, b[0]@, b[1]@, c[0]@, c[1]@);
    assert((bx - ax) * (cy - ay) == bx * cy - bx * ay - ax * cy + ax * ay) by (nonlinear_arith);
    assert((by - ay) * (cx - ax) == cx * by - ax * by - cx * ay + ax * ay) by (nonlinear_arith);
}

proof fn lemma_edge_sum_split(points: Seq<[Length; 2]>, lo: int, mid: int, hi: int)
    requires
        lo <= mid <= hi,
    ensures
        edge_sum(points, lo, hi) == edge_sum(points, lo, mid) + edge_sum(points, mid, hi),
    decreases hi - mid,
{
    if hi > mid {
        lemma_edge_sum_split(points, lo, mid, hi - 1);
    }
}

proof fn lemma_edge_sum_shift(points: Seq<[Length; 2]>, other: Seq<[Length; 2]>, lo: int, hi: int, shift: int)
    requires
        forall|j: int| lo <= j <= hi ==> #[trigger] other[j] == points[j + shift],
    ensures
        edge_sum(other, lo, hi) == edge_sum(points, lo + shift, hi + shift),
    decreases hi - lo,
{
    if hi > lo {
        lemma_edge_sum_shift(points, other, lo, hi - 1, shift);
        assert(other[hi - 1] == points[hi - 1 + shift]);
        assert(other[hi] == points[hi + shift]);
    }
}

proof fn lemma_area_sum_closing(points: Seq<[Length; 2]>)
    requires
        points.len() >= 1,
    ensures
        area_sum(points, points.len() as int) == area_sum(points, points.len() - 1) + cross(
            points[points.len() - 1],
            points[0],
        ),
{
    vstd::arithmetic::div_mod::lemma_mod_self_0(points.len() as int);
}

/// Taking the point at position `i` out of a closed polygon of at least
/// three points takes off the triangle that it made with its two
/// neighbours: the signed area drops by that triangle's orientation.
pub proof fn lemma_remove_point_area(points: Seq<[Length; 2]>, i: int)
    requires
        points.len() >= 3,
        0 <= i < points.len(),
    ensures
        twice_signed_area(points) == twice_signed_area(points.remove(i)) + orientation(
            points[(i + points.len() - 1) % (points.len() as int)],
            points[i],
            points[(i + 1) % (points.len() as int)],
        ),
{
    let n = points.len() as int;
    let s = points;
    let r = points.remove(i);
    let pi = (i + n - 1) % n;
    let ni = (i + 1) % n;
    if i == 0 {
        vstd::arithmetic::div_mod::lemma_small_mod((n - 1) as nat, n as nat);
    } else {
        vstd::arithmetic::div_mod::lemma_mod_add_multiples_vanish(i - 1, n);
        vstd::arithmetic::div_mod::lemma_small_mod((i - 1) as nat, n as nat);
    }
    if i + 1 == n {
        vstd::arithmetic::div_mod::lemma_mod_self_0(n);
    } else {
        vstd::arithmetic::div_mod::lemma_small_mod((i + 1) as nat, n as nat);
    }
    lemma_orientation_edges(s[pi], s[i], s[ni]);
    lemma_area_sum_open(s, n - 1);
    lemma_area_sum_closing(s);
    if n == 3 {
        lemma_edge_sum_split_low(s, 0, 2);
        lemma_edge_sum_split_low(s, 1, 2);
        assert(twice_signed_area(r) == 0);
    } else {
        let m = n - 1;
        assert(r.len() == m);
        lemma_area_sum_open(r, m - 1);
        lemma_area_sum_closing(r);
        if i == 0 {
            lemma_edge_sum_shift(s, r, 0, m - 1, 1);
            lemma_edge_sum_split_low(s, 0, n - 1);
        } else if i == n - 1 {
            lemma_edge_sum_shift(s, r, 0, m - 1, 0);
            lemma_edge_sum_split(s, 0, n - 2, n - 1);
            assert(edge_sum(s, n - 2, n - 1) == cross(s[n - 2], s[n - 1]));
        } else {
            lemma_edge_sum_split(r, 0, i - 1, m - 1);
            lemma_edge_sum_split_low(r, i - 1, m - 1);
            lemma_edge_sum_shift(s, r, 0, i - 1, 0);
            lemma_edge_sum_shift(s, r, i, m - 1, 1);
            lemma_edge_sum_split(s, 0, i - 1, n - 1);
            lemma_edge_sum_split_low(s, i - 1, n - 1);
            lemma_edge_sum_split_low(s, i, n - 1);
            assert(r[i - 1] == s[i - 1]);
            assert(r[i] == s[i + 1]);
        }
    }
}

} // verus!
