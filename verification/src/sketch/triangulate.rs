//! Ear clipping: splitting a simple counterclockwise polygon into triangles.
//!
//! Ear clipping walks the points of a contour that are still uncut. An ear
//! is a corner that turns counterclockwise and whose triangle with its two
//! neighbours holds no other uncut point; cutting it off removes the corner
//! and records the triangle. The first ear in contour order is cut each time.
//! No Steiner points are added, and a polygon in which no ear is found, or
//! whose last three points do not turn counterclockwise (one that is not
//! simple), gives no triangles at all.

use vstd::prelude::*;

use crate::length::{Length, group_length};
use crate::mesh::{edge, has_edge, lemma_ring_steps, triangles_in_range};
use crate::sketch::polygon::{coordinate_limit, coordinates_bounded, orientation, twice_signed_area, lemma_remove_point_area};

verus! {

broadcast use group_length;

/// The state of an ear clipping of a contour of `n` points.
pub struct EarClipper {
    n: usize,
    remaining: Vec<usize>,
    triangles: Vec<[usize; 3]>,
}

/// The points of a contour of `n` points, as indices in order.
pub open spec fn contour_indices(n: int) -> Seq<usize> {
    Seq::new(n as nat, |i: int| i as usize)
}

/// The corner at position `i` of the uncut points with its two neighbours:
/// previous, corner, next, wrapping around.
pub open spec fn ear_at(remaining: Seq<usize>, i: int) -> [usize; 3] {
    let len = remaining.len() as int;
    [remaining[(i + len - 1) % len], remaining[i], remaining[(i + 1) % len]]
}

/// The three corners of a triangle are different points.
pub open spec fn distinct_corners(t: [usize; 3]) -> bool {
    t[0] != t[1] && t[1] != t[2] && t[0] != t[2]
}

/// The uncut points of `0..n` in increasing order.
pub open spec fn increasing_below(remaining: Seq<usize>, n: int) -> bool {
    &&& forall|j: int| 0 <= j < remaining.len() ==> #[trigger] remaining[j] < n
    &&& forall|j: int, k: int| 0 <= j < k < remaining.len() ==> remaining[j] < remaining[k]
}

impl EarClipper {
    /// The number of points of the contour.
    pub closed spec fn point_count(&self) -> int {
        self.n as int
    }

    /// The points not cut off yet, in contour order.
    pub closed spec fn uncut(&self) -> Seq<usize> {
        self.remaining@
    }

    /// The triangles cut off so far, in order.
    pub closed spec fn cut(&self) -> Seq<[usize; 3]> {
        self.triangles@
    }

    /// At least three points are left, in contour order; each cut removed
    /// one point and recorded one triangle of three different points of the
    /// contour.
    pub closed spec fn well_formed(&self) -> bool {
        &&& self.remaining@.len() >= 3
        &&& increasing_below(self.remaining@, self.n as int)
        &&& self.triangles@.len() + self.remaining@.len() == self.n
        &&& triangles_in_range(self.triangles@, self.n as int)
        &&& forall|t: int| 0 <= t < self.triangles@.len() ==> distinct_corners(#[trigger] self.triangles@[t])
    }

    /// Start on a contour of `n` points: every point is uncut.
    pub fn new(n: usize) -> (e: EarClipper)
        requires
            n >= 3,
        ensures
            e.well_formed(),
            e.point_count() == n,
            e.uncut() == contour_indices(n as int),
            e.cut().len() == 0,
    {
        let mut remaining: Vec<usize> = Vec::new();
        let mut i: usize = 0;
        while i < n
            invariant
                0 <= i <= n,
                remaining@ == contour_indices(i as int),
            decreases n - i,
        {
            remaining.push(i);
            i += 1;
            assert(remaining@ =~= contour_indices(i as int));
        }
        EarClipper { n, remaining, triangles: Vec::new() }
    }

    /// The points not cut off yet, in contour order.
    pub fn remaining(&self) -> (r: &[usize])
        ensures
            r@ == self.uncut(),
    {
        self.remaining.as_slice()
    }

    /// Whether only the last triangle is left.
    pub fn is_done(&self) -> (r: bool)
        requires
            self.well_formed(),
        ensures
            r == (self.uncut().len() == 3),
    {
        self.remaining.len() == 3
    }

    /// The corner at position `i` of the uncut points with its neighbours.
    pub fn ear(&self, i: usize) -> (t: [usize; 3])
        requires
            self.well_formed(),
            i < self.uncut().len(),
        ensures
            t == ear_at(self.uncut(), i as int),
            distinct_corners(t),
            t[0] < self.point_count() && t[1] < self.point_count() && t[2] < self.point_count(),
    {
        let len = self.remaining.len();
        let pi: usize = if i == 0 { len - 1 } else { i - 1 };
        let ni: usize = if i + 1 == len { 0 } else { i + 1 };
        proof {
            let l = len as int;
            if i == 0 {
                vstd::arithmetic::div_mod::lemma_small_mod((l - 1) as nat, l as nat);
            } else {
                vstd::arithmetic::div_mod::lemma_mod_add_multiples_vanish(i - 1, l);
                vstd::arithmetic::div_mod::lemma_small_mod((i - 1) as nat, l as nat);
            }
            if i + 1 == l {
                vstd::arithmetic::div_mod::lemma_mod_self_0(l);
            } else {
                vstd::arithmetic::div_mod::lemma_small_mod((i + 1) as nat, l as nat);
            }
            assert(pi == (i + l - 1) % l);
            assert(ni == (i + 1) % l);
            let rem = self.remaining@;
            assert(pi != i && ni != i && pi != ni);
            assert(rem[pi as int] != rem[i as int]) by {
                if pi < i { assert(rem[pi as int] < rem[i as int]); } else { assert(rem[i as int] < rem[pi as int]); }
            }
            assert(rem[ni as int] != rem[i as int]) by {
                if ni < i { assert(rem[ni as int] < rem[i as int]); } else { assert(rem[i as int] < rem[ni as int]); }
            }
            assert(rem[pi as int] != rem[ni as int]) by {
                if pi < ni { assert(rem[pi as int] < rem[ni as int]); } else { assert(rem[ni as int] < rem[pi as int]); }
            }
        }
        [self.remaining[pi], self.remaining[i], self.remaining[ni]]
    }

    /// Cut off the ear at position `i`: record its triangle and drop its
    /// corner from the uncut points.
    pub fn clip(&mut self, i: usize)
        requires
            old(self).well_formed(),
            old(self).uncut().len() > 3,
            i < old(self).uncut().len(),
        ensures
            final(self).well_formed(),
            final(self).point_count() == old(self).point_count(),
            final(self).cut() == old(self).cut().push(ear_at(old(self).uncut(), i as int)),
            final(self).uncut() == old(self).uncut().remove(i as int),
    {
        let t = self.ear(i);
        self.triangles.push(t);
        self.remaining.remove(i);
        proof {
            let old_rem = old(self).remaining@;
            assert forall|j: int, k: int| 0 <= j < k < self.remaining@.len() implies self.remaining@[j]
                < self.remaining@[k] by {
                let jj = if j < i { j } else { j + 1 };
                let kk = if k < i { k } else { k + 1 };
                assert(self.remaining@[j] == old_rem[jj]);
                assert(self.remaining@[k] == old_rem[kk]);
            }
            assert forall|j: int| 0 <= j < self.remaining@.len() implies #[trigger] self.remaining@[j]
                < self.n by {
                let jj = if j < i { j } else { j + 1 };
                assert(self.remaining@[j] == old_rem[jj]);
            }
        }
    }

    /// Cut the last triangle and return all triangles in the order they
    /// were cut: `n - 2` triangles of three different contour points.
    pub fn finish(self) -> (triangles: Vec<[usize; 3]>)
        requires
            self.well_formed(),
            self.uncut().len() == 3,
        ensures
            triangles@ == self.cut().push([self.uncut()[0], self.uncut()[1], self.uncut()[2]]),
            triangles@.len() == self.point_count() - 2,
            triangles_in_range(triangles@, self.point_count()),
            forall|t: int| 0 <= t < triangles@.len() ==> distinct_corners(#[trigger] triangles@[t]),
    {
        let mut triangles = self.triangles;
        let last = [self.remaining[0], self.remaining[1], self.remaining[2]];
        triangles.push(last);
        triangles
    }
}

/// `p` lies inside the counterclockwise triangle `a`, `b`, `c` or on its
/// boundary.
pub open spec fn in_triangle(p: [Length; 2], a: [Length; 2], b: [Length; 2], c: [Length; 2]) -> bool {
    &&& orientation(a, b, p) >= 0
    &&& orientation(b, c, p) >= 0
    &&& orientation(c, a, p) >= 0
}

/// The triangle `t` of contour points turns counterclockwise.
pub open spec fn counterclockwise(points: Seq<[Length; 2]>, t: [usize; 3]) -> bool {
    orientation(points[t[0] as int], points[t[1] as int], points[t[2] as int]) > 0
}

/// The corner at position `i` of the uncut points `remaining` is an ear:
/// it turns counterclockwise and no uncut point at another position than
/// the corner and its two neighbours lies in its triangle.
pub open spec fn is_ear_corner(points: Seq<[Length; 2]>, remaining: Seq<usize>, i: int) -> bool {
    let t = ear_at(remaining, i);
    let len = remaining.len() as int;
    &&& counterclockwise(points, t)
    &&& forall|j: int|
        0 <= j < len && j != (i + len - 1) % len && j != i && j != (i + 1) % len
            ==> !in_triangle(
            #[trigger] points[remaining[j] as int],
            points[t[0] as int],
            points[t[1] as int],
            points[t[2] as int],
        )
}

/// The first position from `from` on whose corner is an ear.
pub open spec fn first_ear(points: Seq<[Length; 2]>, remaining: Seq<usize>, from: int) -> Option<int>
    decreases remaining.len() - from,
{
    if from < 0 || from >= remaining.len() {
        None
    } else if is_ear_corner(points, remaining, from) {
        Some(from)
    } else {
        first_ear(points, remaining, from + 1)
    }
}

/// An ear found from `from` on lies between `from` and the end, and its
/// corner is an ear.
pub proof fn lemma_first_ear_in_range(points: Seq<[Length; 2]>, remaining: Seq<usize>, from: int)
    ensures
        first_ear(points, remaining, from) matches Some(i) ==> from <= i < remaining.len()
            && is_ear_corner(points, remaining, i),
    decreases remaining.len() - from,
{
    if 0 <= from < remaining.len() && !is_ear_corner(points, remaining, from) {
        lemma_first_ear_in_range(points, remaining, from + 1);
    }
}

/// The triangles that ear clipping cuts from the uncut points `remaining`,
/// in order, ending with the last three points; `None` when at some step no
/// ear is found or the last three points do not turn counterclockwise.
pub open spec fn clip_ears(points: Seq<[Length; 2]>, remaining: Seq<usize>) -> Option<Seq<[usize; 3]>>
    decreases remaining.len(),
{
    if remaining.len() <= 3 {
        let last = [remaining[0], remaining[1], remaining[2]];
        if counterclockwise(points, last) {
            Some(seq![last])
        } else {
            None
        }
    } else {
        match first_ear(points, remaining, 0) {
            None => None,
            Some(i) => {
                proof {
                    lemma_first_ear_in_range(points, remaining, 0);
                }
                match clip_ears(points, remaining.remove(i)) {
                    None => None,
                    Some(rest) => Some(seq![ear_at(remaining, i)] + rest),
                }
            },
        }
    }
}

/// The triangulation of a contour: three indices into the contour per
/// triangle. Fewer than three points, or a contour in which ear clipping
/// gets stuck or ends on a triangle that does not turn counterclockwise,
/// give no triangles: such a contour is not a simple counterclockwise
/// polygon.
pub open spec fn triangulation(points: Seq<[Length; 2]>) -> Seq<[usize; 3]> {
    if points.len() < 3 {
        Seq::empty()
    } else {
        match clip_ears(points, contour_indices(points.len() as int)) {
            Some(triangles) => triangles,
            None => Seq::empty(),
        }
    }
}

/// `cut` followed by what `rest` holds, if anything.
pub open spec fn after_cut(cut: Seq<[usize; 3]>, rest: Option<Seq<[usize; 3]>>) -> Option<Seq<[usize; 3]>> {
    match rest {
        Some(r) => Some(cut + r),
        None => None,
    }
}

/// The orientation of `a`, `b`, `c` as two products whose difference it is.
/// Each product of coordinate differences within the coordinate limit fits
/// in 128 bits, though their difference may not.
pub(crate) fn orientation_parts(a: [Length; 2], b: [Length; 2], c: [Length; 2]) -> (r: (i128, i128))
    requires
        forall|k: int| 0 <= k < 2 ==> -coordinate_limit() <= #[trigger] a[k]@ <= coordinate_limit(),
        forall|k: int| 0 <= k < 2 ==> -coordinate_limit() <= #[trigger] b[k]@ <= coordinate_limit(),
        forall|k: int| 0 <= k < 2 ==> -coordinate_limit() <= #[trigger] c[k]@ <= coordinate_limit(),
    ensures
        r.0 - r.1 == orientation(a, b, c),
{
    assert(-coordinate_limit() <= a[0]@ <= coordinate_limit());
    assert(-coordinate_limit() <= a[1]@ <= coordinate_limit());
    assert(-coordinate_limit() <= b[0]@ <= coordinate_limit());
    assert(-coordinate_limit() <= b[1]@ <= coordinate_limit());
    assert(-coordinate_limit() <= c[0]@ <= coordinate_limit());
    assert(-coordinate_limit() <= c[1]@ <= coordinate_limit());
    let bx: i128 = b[0].as_um() - a[0].as_um();
    let by: i128 = b[1].as_um() - a[1].as_um();
    let cx: i128 = c[0].as_um() - a[0].as_um();
    let cy: i128 = c[1].as_um() - a[1].as_um();
    proof {
        lemma_difference_product_bound(bx as int, cy as int);
        lemma_difference_product_bound(by as int, cx as int);
    }
    (bx * cy, by * cx)
}

/// Two differences of coordinates within the limit have a product within
/// 2^126.
proof fn lemma_difference_product_bound(x: int, y: int)
    requires
        -2 * coordinate_limit() <= x <= 2 * coordinate_limit(),
        -2 * coordinate_limit() <= y <= 2 * coordinate_limit(),
    ensures
        -0x4000_0000_0000_0000_0000_0000_0000_0000 <= x * y <= 0x4000_0000_0000_0000_0000_0000_0000_0000,
{
    assert(-0x4000_0000_0000_0000_0000_0000_0000_0000 <= x * y <= 0x4000_0000_0000_0000_0000_0000_0000_0000)
        by (nonlinear_arith)
        requires
            -0x8000_0000_0000_0000 <= x <= 0x8000_0000_0000_0000,
            -0x8000_0000_0000_0000 <= y <= 0x8000_0000_0000_0000,
    ;
}

/// Whether `p` lies inside the counterclockwise triangle `a`, `b`, `c` or on
/// its boundary.
pub fn point_in_triangle(p: [Length; 2], a: [Length; 2], b: [Length; 2], c: [Length; 2]) -> (r: bool)
    requires
        forall|k: int| 0 <= k < 2 ==> -coordinate_limit() <= #[trigger] p[k]@ <= coordinate_limit(),
        forall|k: int| 0 <= k < 2 ==> -coordinate_limit() <= #[trigger] a[k]@ <= coordinate_limit(),
        forall|k: int| 0 <= k < 2 ==> -coordinate_limit() <= #[trigger] b[k]@ <= coordinate_limit(),
        forall|k: int| 0 <= k < 2 ==> -coordinate_limit() <= #[trigger] c[k]@ <= coordinate_limit(),
    ensures
        r == in_triangle(p, a, b, c),
{
    let c1 = orientation_parts(a, b, p);
    let c2 = orientation_parts(b, c, p);
    let c3 = orientation_parts(c, a, p);
    c1.0 >= c1.1 && c2.0 >= c2.1 && c3.0 >= c3.1
}

/// Whether the corner at position `i` of the uncut points `remaining` is an
/// ear of the contour.
pub fn is_ear(contour: &Vec<[Length; 2]>, remaining: &[usize], i: usize) -> (r: bool)
    requires
        coordinates_bounded(contour@),
        remaining@.len() >= 3,
        i < remaining@.len(),
        forall|j: int| 0 <= j < remaining@.len() ==> #[trigger] remaining@[j] < contour@.len(),
    ensures
        r == is_ear_corner(contour@, remaining@, i as int),
{
    let n = remaining.len();
    let pi: usize = if i == 0 { n - 1 } else { i - 1 };
    let ni: usize = if i + 1 == n { 0 } else { i + 1 };
    proof {
        let l = n as int;
        if i == 0 {
            vstd::arithmetic::div_mod::lemma_small_mod((l - 1) as nat, l as nat);
        } else {
            vstd::arithmetic::div_mod::lemma_mod_add_multiples_vanish(i - 1, l);
            vstd::arithmetic::div_mod::lemma_small_mod((i - 1) as nat, l as nat);
        }
        if i + 1 == l {
            vstd::arithmetic::div_mod::lemma_mod_self_0(l);
        } else {
            vstd::arithmetic::div_mod::lemma_small_mod((i + 1) as nat, l as nat);
        }
    }
    assert(pi == (i + n - 1) % (n as int) && ni == (i + 1) % (n as int));
    let t: [usize; 3] = [remaining[pi], remaining[i], remaining[ni]];
    assert(t == ear_at(remaining@, i as int));
    let ghost pts = contour@;
    assert(forall|k: int| 0 <= k < 2 ==> -coordinate_limit() <= #[trigger] pts[t[0] as int][k]@ <= coordinate_limit());
    assert(forall|k: int| 0 <= k < 2 ==> -coordinate_limit() <= #[trigger] pts[t[1] as int][k]@ <= coordinate_limit());
    assert(forall|k: int| 0 <= k < 2 ==> -coordinate_limit() <= #[trigger] pts[t[2] as int][k]@ <= coordinate_limit());
    let a = contour[t[0]];
    let b = contour[t[1]];
    let c = contour[t[2]];
    let turn = orientation_parts(a, b, c);
    if turn.0 <= turn.1 {
        return false;
    }
    let mut j: usize = 0;
    while j < n
        invariant
            0 <= j <= n,
            n == remaining@.len(),
            pts == contour@,
            coordinates_bounded(pts),
            forall|q: int| 0 <= q < n ==> #[trigger] remaining@[q] < pts.len(),
            t == ear_at(remaining@, i as int),
            t[0] < pts.len() && t[1] < pts.len() && t[2] < pts.len(),
            a == pts[t[0] as int] && b == pts[t[1] as int] && c == pts[t[2] as int],
            forall|k: int| 0 <= k < 2 ==> -coordinate_limit() <= #[trigger] a[k]@ <= coordinate_limit(),
            forall|k: int| 0 <= k < 2 ==> -coordinate_limit() <= #[trigger] b[k]@ <= coordinate_limit(),
            forall|k: int| 0 <= k < 2 ==> -coordinate_limit() <= #[trigger] c[k]@ <= coordinate_limit(),
            pi == (i + n - 1) % (n as int) && ni == (i + 1) % (n as int) && i < n,
            forall|q: int|
                0 <= q < j && q != pi && q != i && q != ni
                    ==> !in_triangle(#[trigger] pts[remaining@[q] as int], a, b, c),
        decreases n - j,
    {
        let idx = remaining[j];
        if j != pi && j != i && j != ni {
            assert(forall|k: int| 0 <= k < 2 ==> -coordinate_limit() <= #[trigger] pts[idx as int][k]@ <= coordinate_limit());
            if point_in_triangle(contour[idx], a, b, c) {
                assert(!is_ear_corner(pts, remaining@, i as int)) by {
                    assert(in_triangle(pts[remaining@[j as int] as int], a, b, c));
                }
                return false;
            }
        }
        j += 1;
    }
    true
}

/// The first position of the uncut points `remaining` whose corner is an
/// ear, if any.
fn find_ear(contour: &Vec<[Length; 2]>, remaining: &[usize]) -> (r: Option<usize>)
    requires
        coordinates_bounded(contour@),
        remaining@.len() >= 3,
        forall|j: int| 0 <= j < remaining@.len() ==> #[trigger] remaining@[j] < contour@.len(),
    ensures
        match r {
            Some(i) => first_ear(contour@, remaining@, 0) == Some(i as int),
            None => first_ear(contour@, remaining@, 0) is None,
        },
{
    let n = remaining.len();
    let mut i: usize = 0;
    while i < n
        invariant
            0 <= i <= n,
            n == remaining@.len(),
            n >= 3,
            coordinates_bounded(contour@),
            forall|j: int| 0 <= j < n ==> #[trigger] remaining@[j] < contour@.len(),
            first_ear(contour@, remaining@, 0) == first_ear(contour@, remaining@, i as int),
        decreases n - i,
    {
        if is_ear(contour, remaining, i) {
            return Some(i);
        }
        i += 1;
    }
    None
}

/// Split a simple counterclockwise polygon into triangles.
///
/// Each triangle is three indices into `contour`. The function does not add
/// Steiner points. If the polygon is not simple, the result is empty. Every
/// triangle turns counterclockwise.
pub fn triangulate(contour: &Vec<[Length; 2]>) -> (triangles: Vec<[usize; 3]>)
    requires
        coordinates_bounded(contour@),
    ensures
        triangles@ == triangulation(contour@),
        triangles@.len() == 0 || triangles@.len() == contour@.len() - 2,
        triangles_in_range(triangles@, contour@.len() as int),
        forall|t: int| 0 <= t < triangles@.len() ==> distinct_corners(#[trigger] triangles@[t]),
        forall|t: int| 0 <= t < triangles@.len() ==> counterclockwise(contour@, #[trigger] triangles@[t]),
        clear_of_later_corners(contour@, triangles@),
{
    let n = contour.len();
    proof {
        lemma_triangulation_clear(contour@);
    }
    if n < 3 {
        return Vec::new();
    }
    let mut clipper = EarClipper::new(n);
    let ghost pts = contour@;
    let ghost goal = clip_ears(pts, contour_indices(n as int));
    while !clipper.is_done()
        invariant
            pts == contour@,
            n == pts.len(),
            coordinates_bounded(pts),
            clipper.well_formed(),
            clipper.point_count() == n,
            goal == clip_ears(pts, contour_indices(n as int)),
            goal == after_cut(clipper.cut(), clip_ears(pts, clipper.uncut())),
            forall|t: int| 0 <= t < clipper.cut().len() ==> counterclockwise(pts, #[trigger] clipper.cut()[t]),
        decreases clipper.uncut().len(),
    {
        match find_ear(contour, clipper.remaining()) {
            None => {
                return Vec::new();
            },
            Some(i) => {
                proof {
                    lemma_first_ear_in_range(pts, clipper.uncut(), 0);
                }
                let ghost before_cut = clipper.cut();
                let ghost before_uncut = clipper.uncut();
                clipper.clip(i);
                proof {
                    let e = ear_at(before_uncut, i as int);
                    match clip_ears(pts, before_uncut.remove(i as int)) {
                        Some(rest) => {
                            assert(before_cut + (seq![e] + rest) =~= before_cut.push(e) + rest);
                        },
                        None => {},
                    }
                }
            },
        }
    }
    let ghost last_cut = clipper.cut();
    let ghost last_uncut = clipper.uncut();
    let last = clipper.ear(1);
    assert(last == [last_uncut[0], last_uncut[1], last_uncut[2]]) by {
        vstd::arithmetic::div_mod::lemma_small_mod(0, 3);
        vstd::arithmetic::div_mod::lemma_small_mod(2, 3);
    }
    assert(forall|k: int| 0 <= k < 2 ==> -coordinate_limit() <= #[trigger] pts[last[0] as int][k]@ <= coordinate_limit());
    assert(forall|k: int| 0 <= k < 2 ==> -coordinate_limit() <= #[trigger] pts[last[1] as int][k]@ <= coordinate_limit());
    assert(forall|k: int| 0 <= k < 2 ==> -coordinate_limit() <= #[trigger] pts[last[2] as int][k]@ <= coordinate_limit());
    let turn = orientation_parts(contour[last[0]], contour[last[1]], contour[last[2]]);
    if turn.0 <= turn.1 {
        return Vec::new();
    }
    let triangles = clipper.finish();
    assert(triangles@ =~= last_cut + seq![[last_uncut[0], last_uncut[1], last_uncut[2]]]);
    triangles
}

/// The contour points at the indices `remaining`, in order.
pub open spec fn corner_points(points: Seq<[Length; 2]>, remaining: Seq<usize>) -> Seq<[Length; 2]> {
    remaining.map_values(|v: usize| points[v as int])
}

/// Twice the signed area of a triangle of contour points.
pub open spec fn triangle_area(points: Seq<[Length; 2]>, t: [usize; 3]) -> int {
    orientation(points[t[0] as int], points[t[1] as int], points[t[2] as int])
}

/// Twice the signed area of all the triangles, added up.
pub open spec fn triangles_area(points: Seq<[Length; 2]>, triangles: Seq<[usize; 3]>) -> int
    decreases triangles.len(),
{
    if triangles.len() == 0 {
        0
    } else {
        triangle_area(points, triangles[0]) + triangles_area(points, triangles.drop_first())
    }
}

proof fn lemma_clip_ears_area(points: Seq<[Length; 2]>, remaining: Seq<usize>)
    requires
        remaining.len() >= 3,
        clip_ears(points, remaining) is Some,
    ensures
        triangles_area(points, clip_ears(points, remaining).unwrap()) == twice_signed_area(
            corner_points(points, remaining),
        ),
    decreases remaining.len(),
{
    let poly = corner_points(points, remaining);
    let n = remaining.len() as int;
    let ts = clip_ears(points, remaining).unwrap();
    if n == 3 {
        assert(ts == seq![[remaining[0], remaining[1], remaining[2]]]);
        assert(ts.drop_first().len() == 0);
        assert(triangles_area(points, ts.drop_first()) == 0);
        assert(triangles_area(points, ts) == triangle_area(points, ts[0]));
        lemma_remove_point_area(poly, 1);
        assert(poly.remove(1).len() == 2);
    } else {
        lemma_first_ear_in_range(points, remaining, 0);
        let i = first_ear(points, remaining, 0).unwrap();
        let shorter = remaining.remove(i);
        let rest = clip_ears(points, shorter).unwrap();
        lemma_clip_ears_area(points, shorter);
        assert(ts == seq![ear_at(remaining, i)] + rest);
        assert(ts.drop_first() =~= rest);
        assert(triangles_area(points, ts) == triangle_area(points, ear_at(remaining, i)) + triangles_area(points, rest));
        assert(corner_points(points, shorter) =~= poly.remove(i));
        lemma_remove_point_area(poly, i);
    }
}

/// The triangles of a triangulation together have the area of the polygon:
/// their signed areas add up to the polygon's signed area.
pub proof fn lemma_triangulation_area(points: Seq<[Length; 2]>)
    requires
        points.len() <= usize::MAX,
        triangulation(points).len() > 0,
    ensures
        triangles_area(points, triangulation(points)) == twice_signed_area(points),
{
    let init = contour_indices(points.len() as int);
    lemma_clip_ears_area(points, init);
    assert(corner_points(points, init) =~= points);
}

/// The point after position `j` of the polygon `remaining`, wrapping
/// around.
pub open spec fn succ(remaining: Seq<usize>, j: int) -> usize {
    remaining[(j + 1) % (remaining.len() as int)]
}

/// The edge from `a` to `b` joins two neighbouring points of the polygon
/// `remaining`, in its order.
pub open spec fn is_boundary(remaining: Seq<usize>, a: usize, b: usize) -> bool {
    exists|j: int| 0 <= j < remaining.len() && remaining[j] == a && #[trigger] succ(remaining, j) == b
}

/// The triangles tile the polygon `remaining`: every edge of a triangle
/// either runs along the polygon's boundary in its order or is run the
/// other way by another triangle, and every boundary edge of the polygon is
/// an edge of some triangle.
pub open spec fn tiles(triangles: Seq<[usize; 3]>, remaining: Seq<usize>) -> bool {
    &&& forall|t: int, k: int|
        0 <= t < triangles.len() && 0 <= k < 3 ==> is_boundary(
            remaining,
            (#[trigger] edge(triangles[t], k)).0,
            edge(triangles[t], k).1,
        ) || has_edge(triangles, edge(triangles[t], k).1, edge(triangles[t], k).0)
    &&& forall|j: int| 0 <= j < remaining.len() ==> has_edge(triangles, remaining[j], #[trigger] succ(remaining, j))
}

/// Where point `j` of the polygon with position `i` removed sits in the
/// polygon before.
pub open spec fn before_removal(i: int, j: int) -> int {
    if j < i {
        j
    } else {
        j + 1
    }
}

/// The positions around position `i` of a polygon of `n` points, and the
/// position where its two neighbours meet once it is taken out.
proof fn lemma_ear_positions(i: int, n: int)
    requires
        n >= 4,
        0 <= i < n,
    ensures
        (i + n - 1) % n == (if i == 0 { n - 1 } else { i - 1 }),
        (i + 1) % n == (if i + 1 == n { 0 } else { i + 1 }),
        (i + n - 2) % (n - 1) == (if i == 0 { n - 2 } else { i - 1 }),
{
    let m = n - 1;
    if i == 0 {
        vstd::arithmetic::div_mod::lemma_small_mod((n - 1) as nat, n as nat);
        vstd::arithmetic::div_mod::lemma_small_mod((m - 1) as nat, m as nat);
    } else {
        vstd::arithmetic::div_mod::lemma_mod_add_multiples_vanish(i - 1, n);
        vstd::arithmetic::div_mod::lemma_small_mod((i - 1) as nat, n as nat);
        vstd::arithmetic::div_mod::lemma_mod_add_multiples_vanish(i - 1, m);
        vstd::arithmetic::div_mod::lemma_small_mod((i - 1) as nat, m as nat);
    }
    if i + 1 < n {
        vstd::arithmetic::div_mod::lemma_small_mod((i + 1) as nat, n as nat);
    } else {
        vstd::arithmetic::div_mod::lemma_mod_self_0(n);
    }
}

/// Taking out the point at position `i` keeps every pair of neighbours
/// but the one that now joins the two points around it.
proof fn lemma_remove_neighbours(remaining: Seq<usize>, i: int, j: int)
    requires
        remaining.len() >= 4,
        0 <= i < remaining.len(),
        0 <= j < remaining.len() - 1,
    ensures
        remaining.remove(i)[j] == remaining[before_removal(i, j)],
        j == (i + remaining.len() - 2) % (remaining.len() as int - 1) ==> remaining.remove(i)[j]
            == remaining[(i + remaining.len() - 1) % (remaining.len() as int)] && succ(remaining.remove(i), j)
            == remaining[(i + 1) % (remaining.len() as int)],
        j != (i + remaining.len() - 2) % (remaining.len() as int - 1) ==> succ(remaining.remove(i), j) == succ(
            remaining,
            before_removal(i, j),
        ),
{
    let n = remaining.len() as int;
    let m = n - 1;
    let r = remaining.remove(i);
    lemma_ear_positions(i, n);
    if j + 1 < m {
        vstd::arithmetic::div_mod::lemma_small_mod((j + 1) as nat, m as nat);
    } else {
        vstd::arithmetic::div_mod::lemma_mod_self_0(m);
    }
    let b = before_removal(i, j);
    if b + 1 < n {
        vstd::arithmetic::div_mod::lemma_small_mod((b + 1) as nat, n as nat);
    } else {
        vstd::arithmetic::div_mod::lemma_mod_self_0(n);
    }
}

proof fn lemma_clip_ears_tile(points: Seq<[Length; 2]>, remaining: Seq<usize>)
    requires
        remaining.len() >= 3,
        clip_ears(points, remaining) is Some,
    ensures
        tiles(clip_ears(points, remaining).unwrap(), remaining),
    decreases remaining.len(),
{
    let n = remaining.len() as int;
    let ts = clip_ears(points, remaining).unwrap();
    if n == 3 {
        let t = [remaining[0], remaining[1], remaining[2]];
        assert(ts == seq![t]);
        vstd::arithmetic::div_mod::lemma_small_mod(1, 3);
        vstd::arithmetic::div_mod::lemma_small_mod(2, 3);
        vstd::arithmetic::div_mod::lemma_mod_self_0(3);
        assert(succ(remaining, 0) == remaining[1]);
        assert(succ(remaining, 1) == remaining[2]);
        assert(succ(remaining, 2) == remaining[0]);
        assert forall|t2: int, k: int| 0 <= t2 < ts.len() && 0 <= k < 3 implies is_boundary(
            remaining,
            (#[trigger] edge(ts[t2], k)).0,
            edge(ts[t2], k).1,
        ) || has_edge(ts, edge(ts[t2], k).1, edge(ts[t2], k).0) by {
            assert(edge(ts[t2], k) == (remaining[k], succ(remaining, k)));
        }
        assert forall|j: int| 0 <= j < n implies has_edge(ts, remaining[j], #[trigger] succ(remaining, j)) by {
            assert(edge(ts[0], j) == (remaining[j], succ(remaining, j)));
        }
    } else {
        lemma_first_ear_in_range(points, remaining, 0);
        let i = first_ear(points, remaining, 0).unwrap();
        let shorter = remaining.remove(i);
        let rest = clip_ears(points, shorter).unwrap();
        lemma_clip_ears_tile(points, shorter);
        let e = ear_at(remaining, i);
        assert(ts == seq![e] + rest);
        let m = n - 1;
        let pi = (i + n - 1) % n;
        let ni = (i + 1) % n;
        lemma_ring_steps(i, n);
        let straddle = (i + n - 2) % m;
        lemma_ear_positions(i, n);
        lemma_remove_neighbours(remaining, i, straddle);
        assert(shorter[straddle] == e[0] && succ(shorter, straddle) == e[2]);
        assert(edge(e, 0) == (remaining[pi], succ(remaining, pi)));
        assert(edge(e, 1) == (remaining[i], succ(remaining, i)));
        // every edge of a triangle is on the boundary or shared the other way
        assert forall|t2: int, k: int| 0 <= t2 < ts.len() && 0 <= k < 3 implies is_boundary(
            remaining,
            (#[trigger] edge(ts[t2], k)).0,
            edge(ts[t2], k).1,
        ) || has_edge(ts, edge(ts[t2], k).1, edge(ts[t2], k).0) by {
            if t2 == 0 {
                assert(ts[0] == e);
                if k == 2 {
                    assert(has_edge(rest, shorter[straddle], succ(shorter, straddle)));
                    let (t3, k3) = choose|t3: int, k3: int|
                        0 <= t3 < rest.len() && 0 <= k3 < 3 && #[trigger] edge(rest[t3], k3) == (
                            shorter[straddle],
                            succ(shorter, straddle),
                        );
                    assert(ts[t3 + 1] == rest[t3]);
                    assert(edge(ts[t3 + 1], k3) == (edge(ts[t2], k).1, edge(ts[t2], k).0));
                }
            } else {
                let t3 = t2 - 1;
                assert(ts[t2] == rest[t3]);
                let (x, y) = edge(rest[t3], k);
                if has_edge(rest, y, x) {
                    let (t4, k4) = choose|t4: int, k4: int|
                        0 <= t4 < rest.len() && 0 <= k4 < 3 && #[trigger] edge(rest[t4], k4) == (y, x);
                    assert(ts[t4 + 1] == rest[t4]);
                    assert(edge(ts[t4 + 1], k4) == (y, x));
                } else {
                    assert(is_boundary(shorter, x, y));
                    let j = choose|j: int| 0 <= j < shorter.len() && shorter[j] == x && #[trigger] succ(shorter, j) == y;
                    lemma_remove_neighbours(remaining, i, j);
                    if j == straddle {
                        assert(edge(ts[0], 2) == (y, x));
                    } else {
                        let b = before_removal(i, j);
                        assert(remaining[b] == x && succ(remaining, b) == y);
                    }
                }
            }
        }
        // every boundary edge of the polygon is an edge of some triangle
        assert forall|j: int| 0 <= j < n implies has_edge(ts, remaining[j], #[trigger] succ(remaining, j)) by {
            if j == pi {
                assert(edge(ts[0], 0) == (remaining[j], succ(remaining, j)));
            } else if j == i {
                assert(edge(ts[0], 1) == (remaining[j], succ(remaining, j)));
            } else {
                let j2 = if j < i { j } else { j - 1 };
                assert(before_removal(i, j2) == j);
                assert(j2 != straddle);
                lemma_remove_neighbours(remaining, i, j2);
                assert(has_edge(rest, shorter[j2], succ(shorter, j2)));
                let (t3, k3) = choose|t3: int, k3: int|
                    0 <= t3 < rest.len() && 0 <= k3 < 3 && #[trigger] edge(rest[t3], k3) == (
                        shorter[j2],
                        succ(shorter, j2),
                    );
                assert(ts[t3 + 1] == rest[t3]);
                assert(edge(ts[t3 + 1], k3) == (remaining[j], succ(remaining, j)));
            }
        }
    }
}

/// The triangles of a triangulation tile the contour: every edge of a
/// triangle runs along the contour in its order or is shared, the other way
/// round, with another triangle, and every contour edge belongs to some
/// triangle.
pub proof fn lemma_triangulation_tiles(points: Seq<[Length; 2]>)
    requires
        points.len() <= usize::MAX,
        triangulation(points).len() > 0,
    ensures
        tiles(triangulation(points), contour_indices(points.len() as int)),
{
    lemma_clip_ears_tile(points, contour_indices(points.len() as int));
}

/// The points of a contour are in strictly convex position, going
/// counterclockwise: every three of them, taken in contour order, turn
/// left.
pub open spec fn convex_position(points: Seq<[Length; 2]>) -> bool {
    forall|i: int, j: int, k: int|
        0 <= i < j < k < points.len() ==> #[trigger] orientation(points[i], points[j], points[k]) > 0
}

/// Turning a triangle's corners round keeps its orientation, and swapping
/// two of them negates it.
pub(crate) proof fn lemma_orientation_symmetry(a: [Length; 2], b: [Length; 2], c: [Length; 2])
    ensures
        orientation(b, c, a) == orientation(a, b, c),
        orientation(a, c, b) == -orientation(a, b, c),
{
    let (ax, ay, bx, by, cx, cy) = (a[0]@, a[1]@, b[0]@, b[1]@, c[0]@, c[1]@);
    assert((cx - bx) * (ay - by) - (cy - by) * (ax - bx) == (bx - ax) * (cy - ay) - (by - ay) * (cx - ax))
        by (nonlinear_arith);
    assert((cx - ax) * (by - ay) - (cy - ay) * (bx - ax) == -((bx - ax) * (cy - ay) - (by - ay) * (cx - ax)))
        by (nonlinear_arith);
}

/// On points in convex position, ear clipping of uncut points in contour
/// order never gets stuck: the first corner is an ear each time, and each
/// of the `len - 2` triangles turns counterclockwise.
proof fn lemma_clip_ears_convex(points: Seq<[Length; 2]>, remaining: Seq<usize>)
    requires
        convex_position(points),
        remaining.len() >= 3,
        increasing_below(remaining, points.len() as int),
    ensures
        clip_ears(points, remaining) is Some,
        clip_ears(points, remaining).unwrap().len() == remaining.len() - 2,
        forall|t: int|
            0 <= t < clip_ears(points, remaining).unwrap().len() ==> counterclockwise(
                points,
                #[trigger] clip_ears(points, remaining).unwrap()[t],
            ),
    decreases remaining.len(),
{
    let m = remaining.len() as int;
    if m == 3 {
        let o = orientation(points[remaining[0] as int], points[remaining[1] as int], points[remaining[2] as int]);
        assert(o > 0);
    } else {
        let a = points[remaining[m - 1] as int];
        let b = points[remaining[0] as int];
        let c = points[remaining[1] as int];
        assert(ear_at(remaining, 0) == [remaining[m - 1], remaining[0], remaining[1]]) by {
            vstd::arithmetic::div_mod::lemma_small_mod((m - 1) as nat, m as nat);
            vstd::arithmetic::div_mod::lemma_small_mod(1, m as nat);
        }
        lemma_orientation_symmetry(a, b, c);
        assert(orientation(b, c, a) > 0);
        assert forall|j: int|
            0 <= j < m && j != (0int + m - 1) % m && j != 0 && j != (0int + 1) % m implies !in_triangle(
            #[trigger] points[remaining[j] as int],
            a,
            b,
            c,
        ) by {
            vstd::arithmetic::div_mod::lemma_small_mod((m - 1) as nat, m as nat);
            vstd::arithmetic::div_mod::lemma_small_mod(1, m as nat);
            let q = points[remaining[j] as int];
            assert(remaining[1] < remaining[j] < remaining[m - 1]);
            assert(orientation(c, q, a) > 0);
            lemma_orientation_symmetry(c, q, a);
        }
        assert(is_ear_corner(points, remaining, 0));
        assert(first_ear(points, remaining, 0) == Some(0int));
        let shorter = remaining.remove(0);
        assert forall|j: int, k: int| 0 <= j < k < shorter.len() implies shorter[j] < shorter[k] by {
            assert(shorter[j] == remaining[j + 1] && shorter[k] == remaining[k + 1]);
        }
        assert forall|j: int| 0 <= j < shorter.len() implies #[trigger] shorter[j] < points.len() by {
            assert(shorter[j] == remaining[j + 1]);
        }
        lemma_clip_ears_convex(points, shorter);
        let rest = clip_ears(points, shorter).unwrap();
        let ts = clip_ears(points, remaining).unwrap();
        assert(ts == seq![ear_at(remaining, 0)] + rest);
        assert forall|t: int| 0 <= t < ts.len() implies counterclockwise(points, #[trigger] ts[t]) by {
            if t > 0 {
                assert(ts[t] == rest[t - 1]);
            }
        }
    }
}

/// A contour of `n` points in strictly convex position, counterclockwise,
/// is split into `n - 2` triangles, each turning counterclockwise.
pub proof fn lemma_convex_triangulation(points: Seq<[Length; 2]>)
    requires
        3 <= points.len() <= usize::MAX,
        convex_position(points),
    ensures
        triangulation(points).len() == points.len() - 2,
        forall|t: int|
            0 <= t < triangulation(points).len() ==> counterclockwise(points, #[trigger] triangulation(points)[t]),
{
    lemma_clip_ears_convex(points, contour_indices(points.len() as int));
}

/// `p` lies strictly outside the triangle `a`, `b`, `c`: on the right of
/// one of its edges.
pub open spec fn outside_triangle(p: [Length; 2], a: [Length; 2], b: [Length; 2], c: [Length; 2]) -> bool {
    orientation(a, b, p) < 0 || orientation(b, c, p) < 0 || orientation(c, a, p) < 0
}

/// No triangle of the list holds a corner of itself or of a later
/// triangle, other than its own three corners, inside it or on its edges.
pub open spec fn clear_of_later_corners(points: Seq<[Length; 2]>, triangles: Seq<[usize; 3]>) -> bool {
    forall|t: int, u: int, k: int|
        0 <= t <= u < triangles.len() && 0 <= k < 3 && triangles[u][k] != triangles[t][0]
            && triangles[u][k] != triangles[t][1] && triangles[u][k] != triangles[t][2] ==> outside_triangle(
            points[#[trigger] triangles[u][k] as int],
            points[#[trigger] triangles[t][0] as int],
            points[triangles[t][1] as int],
            points[triangles[t][2] as int],
        )
}

/// Every corner of a triangle cut from the uncut points is one of them.
proof fn lemma_clip_ears_corners(points: Seq<[Length; 2]>, remaining: Seq<usize>)
    requires
        remaining.len() >= 3,
        clip_ears(points, remaining) is Some,
    ensures
        forall|u: int, k: int|
            0 <= u < clip_ears(points, remaining).unwrap().len() && 0 <= k < 3 ==> remaining.contains(
                #[trigger] clip_ears(points, remaining).unwrap()[u][k],
            ),
    decreases remaining.len(),
{
    let ts = clip_ears(points, remaining).unwrap();
    let m = remaining.len() as int;
    if m == 3 {
        assert forall|u: int, k: int| 0 <= u < ts.len() && 0 <= k < 3 implies remaining.contains(#[trigger] ts[u][k]) by {
            assert(remaining[k] == ts[u][k]);
        }
    } else {
        lemma_first_ear_in_range(points, remaining, 0);
        let i = first_ear(points, remaining, 0).unwrap();
        let shorter = remaining.remove(i);
        lemma_clip_ears_corners(points, shorter);
        let rest = clip_ears(points, shorter).unwrap();
        assert(ts == seq![ear_at(remaining, i)] + rest);
        assert forall|u: int, k: int| 0 <= u < ts.len() && 0 <= k < 3 implies remaining.contains(#[trigger] ts[u][k]) by {
            if u == 0 {
                vstd::arithmetic::div_mod::lemma_mod_bound(i + m - 1, m);
                vstd::arithmetic::div_mod::lemma_mod_bound(i + 1, m);
                let e = ear_at(remaining, i);
                assert(ts[0] == e);
                if k == 0 {
                    assert(remaining[(i + m - 1) % m] == e[0]);
                } else if k == 1 {
                    assert(remaining[i] == e[1]);
                } else {
                    assert(remaining[(i + 1) % m] == e[2]);
                }
            } else {
                assert(ts[u] == rest[u - 1]);
                assert(shorter.contains(rest[u - 1][k]));
                let q = choose|q: int| 0 <= q < shorter.len() && shorter[q] == rest[u - 1][k];
                if q < i {
                    assert(remaining[q] == shorter[q]);
                } else {
                    assert(remaining[q + 1] == shorter[q]);
                }
            }
        }
    }
}

proof fn lemma_clip_ears_clear(points: Seq<[Length; 2]>, remaining: Seq<usize>)
    requires
        remaining.len() >= 3,
        clip_ears(points, remaining) is Some,
    ensures
        clear_of_later_corners(points, clip_ears(points, remaining).unwrap()),
    decreases remaining.len(),
{
    let ts = clip_ears(points, remaining).unwrap();
    let m = remaining.len() as int;
    if m == 3 {
        assert(ts.len() == 1);
    } else {
        lemma_first_ear_in_range(points, remaining, 0);
        let i = first_ear(points, remaining, 0).unwrap();
        let shorter = remaining.remove(i);
        lemma_clip_ears_clear(points, shorter);
        lemma_clip_ears_corners(points, shorter);
        let rest = clip_ears(points, shorter).unwrap();
        let e = ear_at(remaining, i);
        assert(ts == seq![e] + rest);
        let pi = (i + m - 1) % m;
        let ni = (i + 1) % m;
        assert(is_ear_corner(points, remaining, i));
        assert forall|t: int, u: int, k: int|
            0 <= t <= u < ts.len() && 0 <= k < 3 && ts[u][k] != ts[t][0] && ts[u][k] != ts[t][1] && ts[u][k]
                != ts[t][2] implies outside_triangle(
            points[#[trigger] ts[u][k] as int],
            points[#[trigger] ts[t][0] as int],
            points[ts[t][1] as int],
            points[ts[t][2] as int],
        ) by {
            if t == 0 {
                assert(ts[0] == e);
                assert(u >= 1);
                assert(ts[u] == rest[u - 1]);
                let c = rest[u - 1][k];
                assert(shorter.contains(c));
                let q = choose|q: int| 0 <= q < shorter.len() && shorter[q] == c;
                let pos = if q < i { q } else { q + 1 };
                assert(remaining[pos] == c);
                assert(pos != i && pos != pi && pos != ni) by {
                    assert(e[0] == remaining[pi] && e[1] == remaining[i] && e[2] == remaining[ni]);
                }
                assert(!in_triangle(points[remaining[pos] as int], points[e[0] as int], points[e[1] as int], points[e[2] as int]));
            } else {
                assert(ts[t] == rest[t - 1] && ts[u] == rest[u - 1]);
                assert(rest[u - 1][k] != rest[t - 1][0] && rest[u - 1][k] != rest[t - 1][1] && rest[u - 1][k] != rest[t - 1][2]);
                assert(outside_triangle(
                    points[rest[u - 1][k] as int],
                    points[rest[t - 1][0] as int],
                    points[rest[t - 1][1] as int],
                    points[rest[t - 1][2] as int],
                ));
            }
        }
    }
}

/// Ear clipping never cuts a triangle with another contour point in it: no
/// triangle of a triangulation holds, inside it or on its edges, any corner
/// of itself or of a triangle cut after it other than its own three
/// corners. (The points still uncut when a triangle is cut are exactly the
/// corners of it and of the triangles after it.)
pub proof fn lemma_triangulation_clear(points: Seq<[Length; 2]>)
    requires
        points.len() <= usize::MAX,
    ensures
        clear_of_later_corners(points, triangulation(points)),
{
    if points.len() >= 3 && triangulation(points).len() > 0 {
        lemma_clip_ears_clear(points, contour_indices(points.len() as int));
    }
}

} // verus!
