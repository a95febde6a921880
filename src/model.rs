//! The mathematical model of simplification: each stage as a function on
//! sequences of points.
use vstd::prelude::*;
use crate::geometry::{Point, point_in_range, sq_point_dist, sq_seg_dist, exceeds};

verus! {

/// Every point of the sequence lies within the coordinate limit.
pub open spec fn all_in_range(pts: Seq<Point>) -> bool {
    forall|i: int| 0 <= i < pts.len() ==> point_in_range(#[trigger] pts[i])
}

/// Greedy thinning of the first `k` points: the first point is kept, and each
/// later point is kept when its squared distance to the last kept point
/// exceeds `sq_tol`.
pub open spec fn thin(pts: Seq<Point>, sq_tol: int, k: int) -> Seq<Point>
    decreases k,
{
    if k <= 0 {
        seq![]
    } else if k == 1 {
        seq![pts[0]]
    } else {
        let r = thin(pts, sq_tol, k - 1);
        if sq_point_dist(pts[k - 1], r.last()) > sq_tol {
            r.push(pts[k - 1])
        } else {
            r
        }
    }
}

/// Radial pre-filter: the first and the last point are always kept, and
/// each point between them is kept when its squared distance to the last
/// kept point exceeds `sq_tol`.
///
/// Measuring from the last kept point, not from the immediate predecessor,
/// lets a run of short steps add up: in the hundredths-grid path of the
/// `it_works` test, `(86779, 30617)` lies only about 465 units from its
/// predecessor `(86468, 30271)`, under the tolerance of 500, yet far from the
/// last kept point, and the expected result keeps it. A rule that compares
/// neighbours drops it. The price is that the filter is not monotone in the
/// tolerance: on `(0,0), (3,0), (5,0), (100,0)` it keeps `(3,0)` at squared
/// tolerance 4 but `(5,0)` at 9.
pub open spec fn radial(pts: Seq<Point>, sq_tol: int) -> Seq<Point> {
    if pts.len() < 2 {
        pts
    } else {
        thin(pts, sq_tol, pts.len() - 1).push(pts.last())
    }
}

/// Squared distance above which a vertex is not a repeat of the last kept one.
/// The pass is meant to remove jitter below 1e-5 squared coordinate units.
/// Distinct grid points are at least one squared grid unit apart, so as long
/// as a grid unit is coarser than about 0.0032 coordinate units (a grid of
/// hundredths, say), that threshold falls below one grid unit and only exact
/// repeats are collapsed.
pub open spec fn duplicate_sq_dist() -> int {
    0
}

/// Final pass: drops each vertex that repeats the last kept vertex.
pub open spec fn collapse(pts: Seq<Point>) -> Seq<Point> {
    thin(pts, duplicate_sq_dist(), pts.len() as int)
}

/// The points of the first `k` positions whose flag is set, in order.
pub open spec fn keep_where(pts: Seq<Point>, mask: Seq<bool>, k: int) -> Seq<Point>
    decreases k,
{
    if k <= 0 {
        seq![]
    } else {
        let r = keep_where(pts, mask, k - 1);
        if mask[k - 1] {
            r.push(pts[k - 1])
        } else {
            r
        }
    }
}

/// Squared distance of point `i` to the chord from point `s` to point `e`.
pub open spec fn chord_dist(pts: Seq<Point>, s: int, e: int, i: int) -> (int, int) {
    sq_seg_dist(pts[i], pts[s], pts[e])
}

/// The first index in `(s, j)` farthest from the chord `s`-`e`, or `s` when
/// every such point lies on the chord.
pub open spec fn farthest(pts: Seq<Point>, s: int, e: int, j: int) -> int
    decreases j - s,
{
    if j <= s + 1 {
        s
    } else {
        let k = farthest(pts, s, e, j - 1);
        if exceeds(chord_dist(pts, s, e, j - 1), chord_dist(pts, s, e, k)) {
            j - 1
        } else {
            k
        }
    }
}

/// Douglas-Peucker on the range `[s, e]`: the interior indices it keeps.
/// When the farthest interior point lies farther than the tolerance from the
/// chord, it is kept and both halves are reduced in turn; otherwise the whole
/// interior is dropped.
pub open spec fn dp_kept(pts: Seq<Point>, sq_tol: int, s: int, e: int) -> Set<int>
    decreases e - s,
{
    let m = farthest(pts, s, e, e);
    if s < m < e && exceeds(chord_dist(pts, s, e, m), (sq_tol, 1)) {
        dp_kept(pts, sq_tol, s, m).insert(m).union(dp_kept(pts, sq_tol, m, e))
    } else {
        Set::empty()
    }
}

/// The retention mask of Douglas-Peucker over the whole sequence: the two
/// ends and the interior indices it keeps.
pub open spec fn dp_mask(pts: Seq<Point>, sq_tol: int) -> Seq<bool> {
    Seq::new(
        pts.len(),
        |i: int| i == 0 || i == pts.len() - 1 || dp_kept(pts, sq_tol, 0, pts.len() - 1).contains(i),
    )
}

/// Douglas-Peucker reduction of the whole sequence.
pub open spec fn reduce(pts: Seq<Point>, sq_tol: int) -> Seq<Point> {
    keep_where(pts, dp_mask(pts, sq_tol), pts.len() as int)
}

/// The simplification of `pts` with linear tolerance `tol`: sequences of at
/// most two points are kept as they are; otherwise the radial pre-filter
/// (unless `high_quality`), Douglas-Peucker and the collapse of repeats are
/// applied in turn, all with the squared tolerance.
pub open spec fn simplified(pts: Seq<Point>, tol: int, high_quality: bool) -> Seq<Point> {
    if pts.len() <= 2 {
        pts
    } else {
        let sq_tol = tol * tol;
        let pre = if high_quality {
            pts
        } else {
            radial(pts, sq_tol)
        };
        collapse(reduce(pre, sq_tol))
    }
}

} // verus!
