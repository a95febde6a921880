//! Properties of simplification, proved over the model.
use vstd::prelude::*;
use crate::geometry::{Point, sq_point_dist, sq_seg_dist, exceeds};
use crate::polyline::{lemma_start_on_chord, lemma_farthest_in_range, lemma_dp_kept_interior};
use crate::model::{
    thin, radial, collapse, keep_where, chord_dist, farthest, dp_kept, dp_mask, reduce, simplified,
    duplicate_sq_dist,
};

verus! {

/// `idx` places the points of `a`, in order, at positions of `b`.
pub open spec fn is_embedding(idx: Seq<int>, a: Seq<Point>, b: Seq<Point>) -> bool {
    &&& idx.len() == a.len()
    &&& forall|k: int| 0 <= k < a.len() ==> 0 <= #[trigger] idx[k] < b.len() && a[k] == b[idx[k]]
    &&& forall|j: int, k: int| 0 <= j < k < a.len() ==> #[trigger] idx[j] < #[trigger] idx[k]
}

/// `a` is `b` with some points left out, the others in their order.
pub open spec fn is_subseq(a: Seq<Point>, b: Seq<Point>) -> bool {
    exists|idx: Seq<int>| #[trigger] is_embedding(idx, a, b)
}

proof fn lemma_thin_embedding(pts: Seq<Point>, sq_tol: int, k: int) -> (idx: Seq<int>)
    requires
        1 <= k <= pts.len(),
    ensures
        is_embedding(idx, thin(pts, sq_tol, k), pts),
        forall|j: int| 0 <= j < idx.len() ==> #[trigger] idx[j] < k,
        thin(pts, sq_tol, k).len() >= 1,
        thin(pts, sq_tol, k)[0] == pts[0],
    decreases k,
{
    if k == 1 {
        seq![0int]
    } else {
        let prev = lemma_thin_embedding(pts, sq_tol, k - 1);
        let r = thin(pts, sq_tol, k - 1);
        if sq_point_dist(pts[k - 1], r.last()) > sq_tol {
            let idx = prev.push(k - 1);
            assert(thin(pts, sq_tol, k) == r.push(pts[k - 1]));
            assert forall|j: int, l: int| 0 <= j < l < idx.len() implies #[trigger] idx[j] < #[trigger] idx[l] by {
                if l < idx.len() - 1 {
                    assert(idx[j] == prev[j] && idx[l] == prev[l]);
                } else {
                    assert(idx[j] == prev[j]);
                }
            }
            assert forall|j: int| 0 <= j < idx.len() implies 0 <= #[trigger] idx[j] < pts.len() && thin(
                pts,
                sq_tol,
                k,
            )[j] == pts[idx[j]] by {
                if j < idx.len() - 1 {
                    assert(idx[j] == prev[j]);
                }
            }
            idx
        } else {
            prev
        }
    }
}

proof fn lemma_keep_where_embedding(pts: Seq<Point>, mask: Seq<bool>, k: int) -> (idx: Seq<int>)
    requires
        0 <= k <= pts.len(),
        k <= mask.len(),
    ensures
        is_embedding(idx, keep_where(pts, mask, k), pts),
        forall|j: int| 0 <= j < idx.len() ==> #[trigger] idx[j] < k,
    decreases k,
{
    if k == 0 {
        Seq::empty()
    } else {
        let prev = lemma_keep_where_embedding(pts, mask, k - 1);
        let r = keep_where(pts, mask, k - 1);
        if mask[k - 1] {
            let idx = prev.push(k - 1);
            assert forall|j: int, l: int| 0 <= j < l < idx.len() implies #[trigger] idx[j] < #[trigger] idx[l] by {
                if l < idx.len() - 1 {
                    assert(idx[j] == prev[j] && idx[l] == prev[l]);
                } else {
                    assert(idx[j] == prev[j]);
                }
            }
            assert forall|j: int| 0 <= j < idx.len() implies 0 <= #[trigger] idx[j] < pts.len() && keep_where(
                pts,
                mask,
                k,
            )[j] == pts[idx[j]] by {
                if j < idx.len() - 1 {
                    assert(idx[j] == prev[j]);
                }
            }
            idx
        } else {
            prev
        }
    }
}

proof fn lemma_radial_embedding(pts: Seq<Point>, sq_tol: int) -> (idx: Seq<int>)
    requires
        pts.len() >= 2,
    ensures
        is_embedding(idx, radial(pts, sq_tol), pts),
{
    let n = pts.len() as int;
    let prev = lemma_thin_embedding(pts, sq_tol, n - 1);
    let idx = prev.push(n - 1);
    assert forall|j: int, l: int| 0 <= j < l < idx.len() implies #[trigger] idx[j] < #[trigger] idx[l] by {
        if l < idx.len() - 1 {
            assert(idx[j] == prev[j] && idx[l] == prev[l]);
        } else {
            assert(idx[j] == prev[j]);
        }
    }
    assert forall|j: int| 0 <= j < idx.len() implies 0 <= #[trigger] idx[j] < pts.len() && radial(pts, sq_tol)[j]
        == pts[idx[j]] by {
        if j < idx.len() - 1 {
            assert(idx[j] == prev[j]);
        }
    }
    idx
}

proof fn lemma_compose(i1: Seq<int>, i2: Seq<int>, a: Seq<Point>, b: Seq<Point>, c: Seq<Point>) -> (idx: Seq<
    int,
>)
    requires
        is_embedding(i1, a, b),
        is_embedding(i2, b, c),
    ensures
        is_embedding(idx, a, c),
{
    let idx = Seq::new(a.len(), |k: int| i2[i1[k]]);
    assert forall|j: int, l: int| 0 <= j < l < idx.len() implies #[trigger] idx[j] < #[trigger] idx[l] by {
        assert(i1[j] < i1[l]);
        assert(i2[i1[j]] < i2[i1[l]]);
    }
    assert forall|k: int| 0 <= k < a.len() implies 0 <= #[trigger] idx[k] < c.len() && a[k] == c[idx[k]] by {
        assert(0 <= i1[k] < b.len());
        assert(0 <= i2[i1[k]] < c.len());
    }
    idx
}

proof fn lemma_embedding_len(idx: Seq<int>, a: Seq<Point>, b: Seq<Point>)
    requires
        is_embedding(idx, a, b),
    ensures
        a.len() <= b.len(),
{
    if a.len() > 0 {
        lemma_embedding_grows(idx, a, b, a.len() - 1);
        assert(0 <= idx[a.len() - 1] < b.len());
    }
}

proof fn lemma_embedding_grows(idx: Seq<int>, a: Seq<Point>, b: Seq<Point>, k: int)
    requires
        is_embedding(idx, a, b),
        0 <= k < a.len(),
    ensures
        idx[k] >= k,
    decreases k,
{
    assert(0 <= idx[k]);
    if k > 0 {
        lemma_embedding_grows(idx, a, b, k - 1);
        assert(idx[k - 1] < idx[k]);
    }
}

/// The simplification, as a point sequence, without its stage boundaries:
/// a witness that places it inside the input.
proof fn lemma_simplified_embedding(pts: Seq<Point>, tol: int, high_quality: bool) -> (idx: Seq<int>)
    ensures
        is_embedding(idx, simplified(pts, tol, high_quality), pts),
{
    if pts.len() <= 2 {
        let idx = Seq::new(pts.len(), |k: int| k);
        idx
    } else {
        let sq_tol = tol * tol;
        let pre = if high_quality {
            pts
        } else {
            radial(pts, sq_tol)
        };
        let i_pre = if high_quality {
            Seq::new(pts.len(), |k: int| k)
        } else {
            lemma_radial_embedding(pts, sq_tol)
        };
        let red = reduce(pre, sq_tol);
        let i_red = lemma_keep_where_embedding(pre, dp_mask(pre, sq_tol), pre.len() as int);
        let out = collapse(red);
        let i_out = if red.len() == 0 {
            Seq::empty()
        } else {
            lemma_thin_embedding(red, duplicate_sq_dist(), red.len() as int)
        };
        let i1 = lemma_compose(i_out, i_red, out, red, pre);
        lemma_compose(i1, i_pre, out, pre, pts)
    }
}

proof fn lemma_zero_dist_same(p: Point, q: Point)
    requires
        sq_point_dist(p, q) <= 0,
    ensures
        p == q,
{
    let dx = p.x - q.x;
    let dy = p.y - q.y;
    assert(dx == 0 && dy == 0) by (nonlinear_arith)
        requires
            dx * dx + dy * dy <= 0,
    ;
}

/// Thinning with tolerance zero ends on the last point it looked at.
proof fn lemma_thin_exact_last(pts: Seq<Point>, k: int)
    requires
        1 <= k <= pts.len(),
    ensures
        thin(pts, 0, k).len() >= 1,
        thin(pts, 0, k).last() == pts[k - 1],
{
    lemma_thin_embedding(pts, 0, k);
    if k > 1 {
        lemma_thin_embedding(pts, 0, k - 1);
        let r = thin(pts, 0, k - 1);
        if !(sq_point_dist(pts[k - 1], r.last()) > 0) {
            lemma_zero_dist_same(pts[k - 1], r.last());
        }
    }
}

proof fn lemma_keep_where_first(pts: Seq<Point>, mask: Seq<bool>, k: int)
    requires
        1 <= k <= pts.len(),
        k <= mask.len(),
        mask[0],
    ensures
        keep_where(pts, mask, k).len() >= 1,
        keep_where(pts, mask, k)[0] == pts[0],
    decreases k,
{
    if k > 1 {
        lemma_keep_where_first(pts, mask, k - 1);
    } else {
        assert(keep_where(pts, mask, 0) == Seq::<Point>::empty());
    }
}

/// Douglas-Peucker keeps the first and the last point.
proof fn lemma_reduce_ends(pts: Seq<Point>, sq_tol: int)
    requires
        pts.len() >= 2,
    ensures
        reduce(pts, sq_tol).len() >= 2,
        reduce(pts, sq_tol)[0] == pts[0],
        reduce(pts, sq_tol).last() == pts.last(),
{
    let n = pts.len() as int;
    let mask = dp_mask(pts, sq_tol);
    lemma_keep_where_first(pts, mask, n);
    lemma_keep_where_first(pts, mask, n - 1);
    assert(keep_where(pts, mask, n) == keep_where(pts, mask, n - 1).push(pts[n - 1]));
}

/// Polylines of at most two points are returned unchanged.
pub proof fn simplify_short_is_identity(pts: Seq<Point>, tol: int, high_quality: bool)
    requires
        pts.len() <= 2,
    ensures
        simplified(pts, tol, high_quality) == pts,
{
}

/// The result keeps the surviving points of the input in their order.
pub proof fn simplify_is_subsequence(pts: Seq<Point>, tol: int, high_quality: bool)
    ensures
        is_subseq(simplified(pts, tol, high_quality), pts),
{
    let idx = lemma_simplified_embedding(pts, tol, high_quality);
    assert(is_embedding(idx, simplified(pts, tol, high_quality), pts));
}

/// The result never has more points than the input.
pub proof fn simplify_never_grows(pts: Seq<Point>, tol: int, high_quality: bool)
    ensures
        simplified(pts, tol, high_quality).len() <= pts.len(),
{
    let idx = lemma_simplified_embedding(pts, tol, high_quality);
    lemma_embedding_len(idx, simplified(pts, tol, high_quality), pts);
}

/// On more than two points, the result starts at the first point of the input
/// and ends at its last point.
pub proof fn simplify_keeps_ends(pts: Seq<Point>, tol: int, high_quality: bool)
    requires
        pts.len() > 2,
    ensures
        simplified(pts, tol, high_quality).len() >= 1,
        simplified(pts, tol, high_quality)[0] == pts[0],
        simplified(pts, tol, high_quality).last() == pts.last(),
{
    let sq_tol = tol * tol;
    let n = pts.len() as int;
    let pre = if high_quality {
        pts
    } else {
        radial(pts, sq_tol)
    };
    if !high_quality {
        lemma_thin_embedding(pts, sq_tol, n - 1);
        assert(pre[0] == pts[0]);
    }
    lemma_reduce_ends(pre, sq_tol);
    let red = reduce(pre, sq_tol);
    lemma_thin_embedding(red, 0, red.len() as int);
    lemma_thin_exact_last(red, red.len() as int);
}


/// All points of the sequence coincide with its first one.
pub open spec fn all_same(pts: Seq<Point>) -> bool {
    forall|i: int| 0 <= i < pts.len() ==> #[trigger] pts[i] == pts[0]
}

proof fn lemma_flat_dist(p: Point)
    ensures
        sq_seg_dist(p, p, p) == (0int, 1int),
{
    assert((p.x - p.x) * (p.x - p.x) + (p.y - p.y) * (p.y - p.y) == 0) by (nonlinear_arith);
}

proof fn lemma_farthest_flat(pts: Seq<Point>, s: int, e: int, j: int)
    requires
        all_same(pts),
        0 <= s < e < pts.len(),
        j <= e,
    ensures
        farthest(pts, s, e, j) == s,
    decreases j - s,
{
    lemma_flat_dist(pts[0]);
    if j > s + 1 {
        lemma_farthest_flat(pts, s, e, j - 1);
        assert(pts[j - 1] == pts[0] && pts[s] == pts[0] && pts[e] == pts[0]);
    }
}

proof fn lemma_thin_flat(pts: Seq<Point>, sq_tol: int, k: int)
    requires
        all_same(pts),
        1 <= k <= pts.len(),
        sq_tol >= 0,
    ensures
        thin(pts, sq_tol, k) == seq![pts[0]],
    decreases k,
{
    if k > 1 {
        lemma_thin_flat(pts, sq_tol, k - 1);
        assert(pts[k - 1] == pts[0]);
        assert(sq_point_dist(pts[0], pts[0]) == 0) by (nonlinear_arith);
    }
}

proof fn lemma_keep_where_only_first(pts: Seq<Point>, mask: Seq<bool>, k: int)
    requires
        1 <= k <= pts.len(),
        k <= mask.len(),
        mask[0],
        forall|i: int| 0 < i < k ==> !#[trigger] mask[i],
    ensures
        keep_where(pts, mask, k) == seq![pts[0]],
    decreases k,
{
    if k > 1 {
        lemma_keep_where_only_first(pts, mask, k - 1);
    } else {
        assert(keep_where(pts, mask, 0) == Seq::<Point>::empty());
        assert(Seq::<Point>::empty().push(pts[0]) == seq![pts[0]]);
    }
}

/// Douglas-Peucker on coinciding points keeps the two ends alone.
proof fn lemma_reduce_flat(pts: Seq<Point>, sq_tol: int)
    requires
        all_same(pts),
        pts.len() >= 2,
        sq_tol >= 0,
    ensures
        reduce(pts, sq_tol) == seq![pts[0], pts[0]],
{
    let n = pts.len() as int;
    lemma_farthest_flat(pts, 0, n - 1, n - 1);
    assert(dp_kept(pts, sq_tol, 0, n - 1) == Set::<int>::empty());
    let mask = dp_mask(pts, sq_tol);
    lemma_keep_where_only_first(pts, mask, n - 1);
    assert(pts[n - 1] == pts[0]);
    assert(keep_where(pts, mask, n) == keep_where(pts, mask, n - 1).push(pts[n - 1]));
    assert(seq![pts[0]].push(pts[0]) == seq![pts[0], pts[0]]);
}

/// A polyline of more than two coinciding points simplifies to that single point.
pub proof fn simplify_identical_points(pts: Seq<Point>, tol: int, high_quality: bool)
    requires
        pts.len() > 2,
        all_same(pts),
    ensures
        simplified(pts, tol, high_quality) == seq![pts[0]],
{
    let sq_tol = tol * tol;
    let n = pts.len() as int;
    assert(tol * tol >= 0) by (nonlinear_arith);
    let pre = if high_quality {
        pts
    } else {
        radial(pts, sq_tol)
    };
    if !high_quality {
        lemma_thin_flat(pts, sq_tol, n - 1);
        assert(pts[n - 1] == pts[0]);
        assert(pre == seq![pts[0], pts[0]]);
    }
    assert(all_same(pre));
    lemma_reduce_flat(pre, sq_tol);
    let red = seq![pts[0], pts[0]];
    assert(all_same(red));
    lemma_thin_flat(red, 0, 2);
}


/// The denominator of a segment distance is positive.
proof fn lemma_seg_dist_den(p: Point, a: Point, b: Point)
    ensures
        sq_seg_dist(p, a, b).1 >= 1,
{
    let dx = b.x - a.x;
    let dy = b.y - a.y;
    assert(dx * dx + dy * dy >= 0) by (nonlinear_arith);
}

/// A larger tolerance keeps a subset of the interior indices.
proof fn lemma_dp_kept_monotone(pts: Seq<Point>, lo: int, hi: int, s: int, e: int)
    requires
        lo <= hi,
    ensures
        dp_kept(pts, hi, s, e).subset_of(dp_kept(pts, lo, s, e)),
    decreases e - s,
{
    let m = farthest(pts, s, e, e);
    let d = chord_dist(pts, s, e, m);
    if s < m < e && exceeds(d, (hi, 1)) {
        lemma_seg_dist_den(pts[m], pts[s], pts[e]);
        assert(hi * d.1 >= lo * d.1) by (nonlinear_arith)
            requires
                lo <= hi,
                d.1 >= 1,
        ;
        lemma_dp_kept_monotone(pts, lo, hi, s, m);
        lemma_dp_kept_monotone(pts, lo, hi, m, e);
    }
}

/// Thinning reads only the first `k` points.
proof fn lemma_thin_prefix(a: Seq<Point>, b: Seq<Point>, sq_tol: int, k: int)
    requires
        k <= a.len(),
        k <= b.len(),
        forall|i: int| 0 <= i < k ==> a[i] == b[i],
    ensures
        thin(a, sq_tol, k) == thin(b, sq_tol, k),
    decreases k,
{
    if k > 1 {
        lemma_thin_prefix(a, b, sq_tol, k - 1);
    }
}

/// Appending a point to a non-empty sequence adds it to the collapse exactly
/// when it differs from the last point.
proof fn lemma_collapse_push(x: Seq<Point>, y: Point)
    requires
        x.len() >= 1,
    ensures
        collapse(x.push(y)) == if y == x.last() {
            collapse(x)
        } else {
            collapse(x).push(y)
        },
{
    let n = x.len() as int;
    let xy = x.push(y);
    lemma_thin_prefix(xy, x, 0, n);
    lemma_thin_exact_last(x, n);
    assert(xy[n] == y);
    if y == x.last() {
        assert(sq_point_dist(y, y) == 0) by (nonlinear_arith);
    } else if !(sq_point_dist(y, x.last()) > 0) {
        lemma_zero_dist_same(y, x.last());
    }
}

/// Counting points after the collapse: dropping points (`small` keeps a
/// subset of what `large` keeps) never adds any.
proof fn lemma_collapse_keep_where(pts: Seq<Point>, large: Seq<bool>, small: Seq<bool>, k: int)
    requires
        0 <= k <= pts.len(),
        pts.len() == large.len(),
        pts.len() == small.len(),
        forall|i: int| 0 <= i < pts.len() && #[trigger] small[i] ==> large[i],
    ensures
        keep_where(pts, small, k).len() > 0 ==> keep_where(pts, large, k).len() > 0,
        collapse(keep_where(pts, small, k)).len() + (if keep_where(pts, small, k).len() > 0
            && keep_where(pts, small, k).last() != keep_where(pts, large, k).last() {
            1int
        } else {
            0int
        }) <= collapse(keep_where(pts, large, k)).len(),
    decreases k,
{
    if k > 0 {
        lemma_collapse_keep_where(pts, large, small, k - 1);
        let p1 = keep_where(pts, large, k - 1);
        let p2 = keep_where(pts, small, k - 1);
        let y = pts[k - 1];
        if p1.len() > 0 {
            lemma_collapse_push(p1, y);
            lemma_thin_embedding(p1, 0, p1.len() as int);
        } else {
            assert(p1.push(y) == seq![y]);
        }
        if p2.len() > 0 {
            lemma_collapse_push(p2, y);
        } else {
            assert(p2.push(y) == seq![y]);
        }
        assert(collapse(Seq::<Point>::empty()) == Seq::<Point>::empty());
    }
}

/// With the radial pre-filter skipped, a larger tolerance never keeps more
/// points.
pub proof fn simplify_monotone_in_tolerance(pts: Seq<Point>, t1: int, t2: int)
    requires
        0 <= t1 <= t2,
    ensures
        simplified(pts, t2, true).len() <= simplified(pts, t1, true).len(),
{
    if pts.len() > 2 {
        let n = pts.len() as int;
        assert(t1 * t1 <= t2 * t2) by (nonlinear_arith)
            requires
                0 <= t1 <= t2,
        ;
        lemma_dp_kept_monotone(pts, t1 * t1, t2 * t2, 0, n - 1);
        let large = dp_mask(pts, t1 * t1);
        let small = dp_mask(pts, t2 * t2);
        lemma_collapse_keep_where(pts, large, small, n);
    }
}


/// The points kept under a smaller mask sit, in order, among those kept
/// under a larger one.
proof fn lemma_keep_where_sub(pts: Seq<Point>, large: Seq<bool>, small: Seq<bool>, k: int) -> (idx: Seq<
    int,
>)
    requires
        0 <= k <= pts.len(),
        pts.len() == large.len(),
        pts.len() == small.len(),
        forall|i: int| 0 <= i < pts.len() && #[trigger] small[i] ==> large[i],
    ensures
        is_embedding(idx, keep_where(pts, small, k), keep_where(pts, large, k)),
    decreases k,
{
    if k == 0 {
        Seq::empty()
    } else {
        let prev = lemma_keep_where_sub(pts, large, small, k - 1);
        let a = keep_where(pts, small, k - 1);
        let b = keep_where(pts, large, k - 1);
        if large[k - 1] {
            let b2 = b.push(pts[k - 1]);
            if small[k - 1] {
                let idx = prev.push(b.len() as int);
                assert forall|j: int, l: int| 0 <= j < l < idx.len() implies #[trigger] idx[j] < #[trigger] idx[l] by {
                    if l < idx.len() - 1 {
                        assert(idx[j] == prev[j] && idx[l] == prev[l]);
                    } else {
                        assert(idx[j] == prev[j]);
                    }
                }
                assert forall|j: int| 0 <= j < idx.len() implies 0 <= #[trigger] idx[j] < b2.len() && keep_where(
                    pts,
                    small,
                    k,
                )[j] == b2[idx[j]] by {
                    if j < idx.len() - 1 {
                        assert(idx[j] == prev[j]);
                    }
                }
                idx
            } else {
                assert forall|j: int| 0 <= j < prev.len() implies 0 <= #[trigger] prev[j] < b2.len() && a[j]
                    == b2[prev[j]] by {}
                prev
            }
        } else {
            prev
        }
    }
}

/// Douglas-Peucker keeps the first and the last point of a non-empty
/// sequence, and at least two points of a longer one.
pub proof fn reduce_keeps_ends(pts: Seq<Point>, sq_tol: int)
    requires
        pts.len() >= 1,
    ensures
        reduce(pts, sq_tol).len() >= 1,
        reduce(pts, sq_tol)[0] == pts[0],
        reduce(pts, sq_tol).last() == pts.last(),
        pts.len() >= 2 ==> reduce(pts, sq_tol).len() >= 2,
{
    if pts.len() >= 2 {
        lemma_reduce_ends(pts, sq_tol);
    } else {
        let mask = dp_mask(pts, sq_tol);
        assert(keep_where(pts, mask, 0) == Seq::<Point>::empty());
        assert(keep_where(pts, mask, 1) =~= pts);
    }
}

/// Douglas-Peucker keeps some of the points, in their order, and so never
/// more points than it was given.
pub proof fn reduce_is_subsequence(pts: Seq<Point>, sq_tol: int)
    ensures
        is_subseq(reduce(pts, sq_tol), pts),
        reduce(pts, sq_tol).len() <= pts.len(),
{
    let idx = lemma_keep_where_embedding(pts, dp_mask(pts, sq_tol), pts.len() as int);
    assert(is_embedding(idx, reduce(pts, sq_tol), pts));
    lemma_embedding_len(idx, reduce(pts, sq_tol), pts);
}

/// Douglas-Peucker on two or more coinciding points keeps the two ends alone.
pub proof fn reduce_identical_points(pts: Seq<Point>, sq_tol: int)
    requires
        pts.len() >= 2,
        all_same(pts),
        sq_tol >= 0,
    ensures
        reduce(pts, sq_tol) == seq![pts[0], pts[pts.len() - 1]],
{
    lemma_reduce_flat(pts, sq_tol);
    assert(pts[pts.len() - 1] == pts[0]);
}

/// A larger tolerance keeps a subset of the indices Douglas-Peucker keeps,
/// so its result is an ordered part of the result at the smaller tolerance.
pub proof fn reduce_monotone_in_tolerance(pts: Seq<Point>, lo: int, hi: int)
    requires
        lo <= hi,
    ensures
        forall|i: int| 0 <= i < pts.len() && #[trigger] dp_mask(pts, hi)[i] ==> dp_mask(pts, lo)[i],
        is_subseq(reduce(pts, hi), reduce(pts, lo)),
        reduce(pts, hi).len() <= reduce(pts, lo).len(),
{
    let n = pts.len() as int;
    lemma_dp_kept_monotone(pts, lo, hi, 0, n - 1);
    let idx = lemma_keep_where_sub(pts, dp_mask(pts, lo), dp_mask(pts, hi), n);
    assert(is_embedding(idx, reduce(pts, hi), reduce(pts, lo)));
    lemma_embedding_len(idx, reduce(pts, hi), reduce(pts, lo));
}


/// `a / b <= c / d` and `c / d <= e / f` give `a / b <= e / f`.
proof fn lemma_frac_le_trans(a: int, b: int, c: int, d: int, e: int, f: int)
    requires
        b >= 1,
        d >= 1,
        f >= 1,
        a * d <= c * b,
        c * f <= e * d,
    ensures
        a * f <= e * b,
{
    assert(a * f * d <= e * b * d) by (nonlinear_arith)
        requires
            b >= 1,
            d >= 1,
            f >= 1,
            a * d <= c * b,
            c * f <= e * d,
    ;
    assert(a * f <= e * b) by (nonlinear_arith)
        requires
            d >= 1,
            a * f * d <= e * b * d,
    ;
}

/// No interior point of `(s, j)` is farther from the chord than the one
/// `farthest` picks.
proof fn lemma_farthest_is_max(pts: Seq<Point>, s: int, e: int, j: int)
    requires
        0 <= s < e < pts.len(),
        j <= e,
    ensures
        forall|i: int|
            s < i < j ==> !exceeds(
                #[trigger] chord_dist(pts, s, e, i),
                chord_dist(pts, s, e, farthest(pts, s, e, j)),
            ),
    decreases j - s,
{
    if j > s + 1 {
        lemma_farthest_is_max(pts, s, e, j - 1);
        lemma_farthest_in_range(pts, s, e, j - 1);
        let f = farthest(pts, s, e, j - 1);
        let df = chord_dist(pts, s, e, f);
        let dj = chord_dist(pts, s, e, j - 1);
        lemma_seg_dist_den(pts[f], pts[s], pts[e]);
        lemma_seg_dist_den(pts[j - 1], pts[s], pts[e]);
        if exceeds(dj, df) {
            assert forall|i: int| s < i < j implies !exceeds(#[trigger] chord_dist(pts, s, e, i), dj) by {
                if i < j - 1 {
                    let di = chord_dist(pts, s, e, i);
                    lemma_seg_dist_den(pts[i], pts[s], pts[e]);
                    lemma_frac_le_trans(di.0, di.1, df.0, df.1, dj.0, dj.1);
                }
            }
        }
    }
}

/// Within a range that Douglas-Peucker processed, a point between two
/// consecutive retained indices lies within the tolerance of their chord.
proof fn lemma_dropped_within(pts: Seq<Point>, sq_tol: int, s: int, e: int, a: int, b: int, i: int)
    requires
        sq_tol >= 0,
        0 <= s <= a < i < b <= e < pts.len(),
        a == s || dp_kept(pts, sq_tol, s, e).contains(a),
        b == e || dp_kept(pts, sq_tol, s, e).contains(b),
        forall|j: int| a < j < b ==> !#[trigger] dp_kept(pts, sq_tol, s, e).contains(j),
    ensures
        !exceeds(chord_dist(pts, a, b, i), (sq_tol, 1)),
    decreases e - s,
{
    let m = farthest(pts, s, e, e);
    lemma_farthest_in_range(pts, s, e, e);
    lemma_dp_kept_interior(pts, sq_tol, s, e);
    if s < m < e && exceeds(chord_dist(pts, s, e, m), (sq_tol, 1)) {
        lemma_dp_kept_interior(pts, sq_tol, s, m);
        lemma_dp_kept_interior(pts, sq_tol, m, e);
        assert(dp_kept(pts, sq_tol, s, e) == dp_kept(pts, sq_tol, s, m).insert(m).union(
            dp_kept(pts, sq_tol, m, e),
        ));
        let whole = dp_kept(pts, sq_tol, s, e);
        if b <= m {
            assert forall|j: int| a < j < b implies !#[trigger] dp_kept(pts, sq_tol, s, m).contains(j) by {
                assert(!whole.contains(j));
            }
            lemma_dropped_within(pts, sq_tol, s, m, a, b, i);
        } else {
            assert(a >= m) by {
                if a < m {
                    assert(dp_kept(pts, sq_tol, s, e).contains(m));
                }
            }
            assert forall|j: int| a < j < b implies !#[trigger] dp_kept(pts, sq_tol, m, e).contains(j) by {
                assert(!whole.contains(j));
            }
            lemma_dropped_within(pts, sq_tol, m, e, a, b, i);
        }
    } else {
        assert(dp_kept(pts, sq_tol, s, e) == Set::<int>::empty());
        lemma_farthest_is_max(pts, s, e, e);
        let di = chord_dist(pts, s, e, i);
        let dm = chord_dist(pts, s, e, m);
        lemma_seg_dist_den(pts[i], pts[s], pts[e]);
        lemma_seg_dist_den(pts[m], pts[s], pts[e]);
        assert(!exceeds(di, dm));
        if m == s {
            lemma_start_on_chord(pts[s], pts[e]);
            assert(di.0 <= 0);
            assert(sq_tol * di.1 >= 0) by (nonlinear_arith)
                requires
                    sq_tol >= 0,
                    di.1 >= 1,
            ;
        } else {
            lemma_frac_le_trans(di.0, di.1, dm.0, dm.1, sq_tol, 1);
        }
    }
}

/// Each point that Douglas-Peucker drops lies within the tolerance of the
/// chord between the two retained points around it.
pub proof fn reduce_dropped_within_tolerance(pts: Seq<Point>, sq_tol: int, a: int, b: int, i: int)
    requires
        sq_tol >= 0,
        0 <= a < i < b < pts.len(),
        dp_mask(pts, sq_tol)[a],
        dp_mask(pts, sq_tol)[b],
        forall|j: int| a < j < b ==> !#[trigger] dp_mask(pts, sq_tol)[j],
    ensures
        !exceeds(sq_seg_dist(pts[i], pts[a], pts[b]), (sq_tol, 1)),
{
    let n = pts.len() as int;
    lemma_dp_kept_interior(pts, sq_tol, 0, n - 1);
    assert forall|j: int| a < j < b implies !#[trigger] dp_kept(pts, sq_tol, 0, n - 1).contains(j) by {
        assert(!dp_mask(pts, sq_tol)[j]);
    }
    lemma_dropped_within(pts, sq_tol, 0, n - 1, a, b, i);
}


/// Every chord distance exceeds the tolerance.
pub open spec fn all_chords_exceed(pts: Seq<Point>, sq_tol: int) -> bool {
    forall|a: int, i: int, b: int|
        0 <= a < i < b < pts.len() ==> exceeds(#[trigger] sq_seg_dist(pts[i], pts[a], pts[b]), (sq_tol, 1))
}

proof fn lemma_dp_keeps_all(pts: Seq<Point>, sq_tol: int, s: int, e: int)
    requires
        sq_tol >= 0,
        all_chords_exceed(pts, sq_tol),
        0 <= s < e < pts.len(),
    ensures
        forall|i: int| s < i < e ==> #[trigger] dp_kept(pts, sq_tol, s, e).contains(i),
    decreases e - s,
{
    if e > s + 1 {
        let m = farthest(pts, s, e, e);
        lemma_farthest_in_range(pts, s, e, e);
        lemma_farthest_is_max(pts, s, e, e);
        let d1 = chord_dist(pts, s, e, s + 1);
        assert(exceeds(sq_seg_dist(pts[s + 1], pts[s], pts[e]), (sq_tol, 1)));
        lemma_seg_dist_den(pts[s + 1], pts[s], pts[e]);
        assert(sq_tol * d1.1 >= 0) by (nonlinear_arith)
            requires
                sq_tol >= 0,
                d1.1 >= 1,
        ;
        assert(m != s) by {
            if m == s {
                lemma_start_on_chord(pts[s], pts[e]);
                assert(!exceeds(d1, chord_dist(pts, s, e, m)));
            }
        }
        assert(exceeds(sq_seg_dist(pts[m], pts[s], pts[e]), (sq_tol, 1)));
        lemma_dp_keeps_all(pts, sq_tol, s, m);
        lemma_dp_keeps_all(pts, sq_tol, m, e);
        assert(dp_kept(pts, sq_tol, s, e) == dp_kept(pts, sq_tol, s, m).insert(m).union(
            dp_kept(pts, sq_tol, m, e),
        ));
        assert forall|i: int| s < i < e implies #[trigger] dp_kept(pts, sq_tol, s, e).contains(i) by {
            if i < m {
                assert(dp_kept(pts, sq_tol, s, m).contains(i));
            } else if i > m {
                assert(dp_kept(pts, sq_tol, m, e).contains(i));
            }
        }
    }
}

proof fn lemma_keep_where_all(pts: Seq<Point>, mask: Seq<bool>, k: int)
    requires
        0 <= k <= pts.len(),
        k <= mask.len(),
        forall|i: int| 0 <= i < k ==> #[trigger] mask[i],
    ensures
        keep_where(pts, mask, k) == pts.take(k),
    decreases k,
{
    if k > 0 {
        lemma_keep_where_all(pts, mask, k - 1);
        assert(pts.take(k - 1).push(pts[k - 1]) =~= pts.take(k));
    } else {
        assert(pts.take(0) =~= Seq::<Point>::empty());
    }
}

/// When every point lies farther than the tolerance from every chord over
/// it, Douglas-Peucker drops nothing.
pub proof fn reduce_keeps_all_when_far(pts: Seq<Point>, sq_tol: int)
    requires
        sq_tol >= 0,
        all_chords_exceed(pts, sq_tol),
    ensures
        reduce(pts, sq_tol) == pts,
{
    let n = pts.len() as int;
    if n >= 2 {
        lemma_dp_keeps_all(pts, sq_tol, 0, n - 1);
    }
    lemma_keep_where_all(pts, dp_mask(pts, sq_tol), n);
    assert(pts.take(n) =~= pts);
}

/// A point far off the chord of its neighbours is kept: `(0, 0)`, `(0, 100)`,
/// `(1, 0)` come back whole at every tolerance below 100.
pub proof fn simplify_keeps_far_outlier(tol: int, high_quality: bool)
    requires
        0 <= tol < 100,
    ensures
        ({
            let pts = seq![Point { x: 0, y: 0 }, Point { x: 0, y: 100 }, Point { x: 1, y: 0 }];
            simplified(pts, tol, high_quality) == pts
        }),
{
    let p0 = Point { x: 0, y: 0 };
    let p1 = Point { x: 0, y: 100 };
    let p2 = Point { x: 1, y: 0 };
    let pts = seq![p0, p1, p2];
    assert(pts[0] == p0 && pts[1] == p1 && pts[2] == p2);
    let sq_tol = tol * tol;
    assert(0 <= sq_tol < 10000) by (nonlinear_arith)
        requires
            0 <= tol < 100,
            sq_tol == tol * tol,
    ;
    assert((p1.x - p0.x) * (p1.x - p0.x) + (p1.y - p0.y) * (p1.y - p0.y) == 10000) by (nonlinear_arith)
        requires
            p0.x == 0 && p0.y == 0 && p1.x == 0 && p1.y == 100,
    ;
    assert((p2.x - p1.x) * (p2.x - p1.x) + (p2.y - p1.y) * (p2.y - p1.y) == 10001) by (nonlinear_arith)
        requires
            p1.x == 0 && p1.y == 100 && p2.x == 1 && p2.y == 0,
    ;
    assert(sq_point_dist(p1, p0) == 10000);
    assert(sq_point_dist(p2, p1) == 10001);
    assert(thin(pts, sq_tol, 1) == seq![pts[0]]);
    assert(thin(pts, sq_tol, 2) =~= pts.take(2));
    if !high_quality {
        assert(radial(pts, sq_tol) =~= pts);
    }
    assert(sq_seg_dist(p1, p0, p2) == (10000int, 1int));
    assert(10000int * 1 > sq_tol * 1) by (nonlinear_arith)
        requires
            sq_tol < 10000,
    ;
    assert(exceeds((10000int, 1int), (sq_tol, 1)));
    assert forall|a: int, i: int, b: int| 0 <= a < i < b < pts.len() implies exceeds(
        #[trigger] sq_seg_dist(pts[i], pts[a], pts[b]),
        (sq_tol, 1),
    ) by {
        assert(a == 0 && i == 1 && b == 2);
    }
    reduce_keeps_all_when_far(pts, sq_tol);
    assert(thin(pts, 0, 1) == seq![pts[0]]);
    assert(thin(pts, 0, 2) =~= pts.take(2));
    assert(thin(pts, 0, 3) =~= pts);
}


/// The radial pre-filter keeps the first and the last point and some of the
/// points between them, in their order.
pub proof fn radial_keeps_ends_and_order(pts: Seq<Point>, sq_tol: int)
    requires
        pts.len() >= 1,
    ensures
        is_subseq(radial(pts, sq_tol), pts),
        radial(pts, sq_tol).len() >= 1,
        radial(pts, sq_tol)[0] == pts[0],
        radial(pts, sq_tol).last() == pts.last(),
{
    if pts.len() >= 2 {
        let idx = lemma_radial_embedding(pts, sq_tol);
        assert(is_embedding(idx, radial(pts, sq_tol), pts));
        lemma_thin_embedding(pts, sq_tol, pts.len() - 1);
    } else {
        let idx = Seq::new(pts.len(), |k: int| k);
        assert(is_embedding(idx, radial(pts, sq_tol), pts));
    }
}

} // verus!
