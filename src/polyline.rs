//! Polylines and their simplification.
use vstd::prelude::*;
use bit_vec::BitVec;
use crate::geometry::{
    Point, sq_point_dist, sq_seg_dist, exceeds, dist_exceeds, dist_bounded, DIST_NUM_LIMIT,
    lemma_capped_tolerance,
};
use crate::model::{
    all_in_range, thin, radial, collapse, keep_where, chord_dist, farthest, dp_kept, dp_mask,
    reduce, simplified,
};
use crate::retention::{bits_of, mask_filled, mask_get, mask_set};

verus! {

/// An ordered sequence of points describing a path.
#[derive(Clone, Debug, PartialEq)]
pub struct Polyline {
    pub points: Vec<Point>,
}

impl View for Polyline {
    type V = Seq<Point>;

    open spec fn view(&self) -> Seq<Point> {
        self.points@
    }
}

/// Squared distance above which a vertex is kept by the final collapse.
const DUPLICATE_SQ_DIST: u128 = 0;

/// Greedy thinning of the first `k` points (see `thin`).
fn thin_prefix(pts: &Vec<Point>, sq_tol: u128, k: usize) -> (r: Vec<Point>)
    requires
        1 <= k <= pts@.len(),
        all_in_range(pts@),
    ensures
        r@ == thin(pts@, sq_tol as int, k as int),
        all_in_range(r@),
        r@.len() >= 1,
{
    let mut kept: Vec<Point> = Vec::new();
    kept.push(pts[0]);
    let mut q: Point = pts[0];
    let mut i: usize = 1;
    while i < k
        invariant
            1 <= i <= k <= pts@.len(),
            all_in_range(pts@),
            kept@ == thin(pts@, sq_tol as int, i as int),
            kept@.len() >= 1,
            q == kept@.last(),
            all_in_range(kept@),
        decreases k - i,
    {
        let p = pts[i];
        if p.sq_dist(&q) > sq_tol {
            kept.push(p);
            q = p;
        }
        i = i + 1;
    }
    kept
}

/// The distance of point `a` from a chord that starts at `a` is zero.
pub(crate) proof fn lemma_start_on_chord(a: Point, b: Point)
    ensures
        sq_seg_dist(a, a, b) == (0int, 1int),
{
    let dx = b.x - a.x;
    let dy = b.y - a.y;
    assert((a.x - a.x) * dx + (a.y - a.y) * dy == 0) by (nonlinear_arith);
    assert((a.x - a.x) * (a.x - a.x) + (a.y - a.y) * (a.y - a.y) == 0) by (nonlinear_arith);
    assert(sq_point_dist(a, a) == 0);
    assert(dx * dx + dy * dy >= 0) by (nonlinear_arith);
}

/// Scans the interior of `[s, e]` for the first point farthest from the chord
/// `s`-`e`, among the points the mask still keeps.
fn farthest_in_range(pts: &Vec<Point>, keep: &BitVec, s: usize, e: usize) -> (r: (
    usize,
    (u128, u128),
))
    requires
        s < e < pts@.len(),
        all_in_range(pts@),
        bits_of(*keep).len() == pts@.len(),
        forall|i: int| s < i < e ==> #[trigger] bits_of(*keep)[i],
    ensures
        r.0 == farthest(pts@, s as int, e as int, e as int),
        (r.1.0 as int, r.1.1 as int) == chord_dist(pts@, s as int, e as int, r.0 as int),
        dist_bounded(r.1),
{
    let mut max_idx: usize = s;
    let mut dmax: (u128, u128) = (0, 1);
    proof {
        lemma_start_on_chord(pts@[s as int], pts@[e as int]);
    }
    let mut i: usize = s + 1;
    while i < e
        invariant
            s < i <= e < pts@.len(),
            all_in_range(pts@),
            bits_of(*keep).len() == pts@.len(),
            forall|j: int| s < j < e ==> #[trigger] bits_of(*keep)[j],
            max_idx == farthest(pts@, s as int, e as int, i as int),
            (dmax.0 as int, dmax.1 as int) == chord_dist(pts@, s as int, e as int, max_idx as int),
            dist_bounded(dmax),
        decreases e - i,
    {
        if mask_get(keep, i) == Some(true) {
            let d = pts[i].sq_seg_dist(&pts[s], &pts[e]);
            if dist_exceeds(d, dmax) {
                max_idx = i;
                dmax = d;
            }
        }
        i = i + 1;
    }
    (max_idx, dmax)
}

/// The farthest index of `(s, j)` is `s` itself or lies in that interval.
pub(crate) proof fn lemma_farthest_in_range(pts: Seq<Point>, s: int, e: int, j: int)
    ensures
        s <= farthest(pts, s, e, j),
        farthest(pts, s, e, j) == s || farthest(pts, s, e, j) < j,
    decreases j - s,
{
    if j > s + 1 {
        lemma_farthest_in_range(pts, s, e, j - 1);
    }
}

/// Douglas-Peucker on `[s, e]` keeps only interior indices.
pub(crate) proof fn lemma_dp_kept_interior(pts: Seq<Point>, sq_tol: int, s: int, e: int)
    ensures
        forall|i: int| #[trigger] dp_kept(pts, sq_tol, s, e).contains(i) ==> s < i < e,
    decreases e - s,
{
    let m = farthest(pts, s, e, e);
    if s < m < e && exceeds(chord_dist(pts, s, e, m), (sq_tol, 1)) {
        lemma_dp_kept_interior(pts, sq_tol, s, m);
        lemma_dp_kept_interior(pts, sq_tol, m, e);
        assert(dp_kept(pts, sq_tol, s, e) == dp_kept(pts, sq_tol, s, m).insert(m).union(
            dp_kept(pts, sq_tol, m, e),
        ));
    } else {
        assert(dp_kept(pts, sq_tol, s, e) == Set::<int>::empty());
    }
}

/// Measure of the work left on the stack of ranges.
spec fn stack_weight(st: Seq<(usize, usize)>) -> int
    decreases st.len(),
{
    if st.len() == 0 {
        0
    } else {
        stack_weight(st.drop_last()) + 2 * (st.last().1 - st.last().0) - 1
    }
}

proof fn lemma_stack_weight_nonneg(st: Seq<(usize, usize)>)
    requires
        forall|k: int| 0 <= k < st.len() ==> (#[trigger] st[k]).0 < st[k].1,
    ensures
        stack_weight(st) >= 0,
    decreases st.len(),
{
    if st.len() > 0 {
        lemma_stack_weight_nonneg(st.drop_last());
    }
}

/// Index `i` lies strictly inside the range `r`.
spec fn inside(r: (usize, usize), i: int) -> bool {
    r.0 < i < r.1
}

/// Index `i` lies strictly inside one of the ranges of `st`.
spec fn inside_some(st: Seq<(usize, usize)>, i: int) -> bool {
    exists|k: int| 0 <= k < st.len() && inside(#[trigger] st[k], i)
}

impl Polyline {
    /// The points of the polyline lie within the coordinate limit.
    pub open spec fn in_range(&self) -> bool {
        all_in_range(self@)
    }

    pub fn new() -> (r: Polyline)
        ensures
            r@ == Seq::<Point>::empty(),
    {
        Polyline { points: Vec::new() }
    }

    pub fn from_vec(vec: Vec<Point>) -> (r: Polyline)
        ensures
            r@ == vec@,
    {
        Polyline { points: vec }
    }

    pub fn len(&self) -> (r: usize)
        ensures
            r == self@.len(),
    {
        self.points.len()
    }

    /// Appends a point at the end of the path.
    pub fn add(&mut self, point: Point)
        ensures
            final(self)@ == old(self)@.push(point),
    {
        self.points.push(point);
    }

    /// Radial pre-filter: keeps the first point, each later point farther
    /// than the tolerance from the last kept one, and the last point.
    pub fn simplify_radial_dist(&self, sq_tolerance: u128) -> (r: Polyline)
        requires
            self@.len() >= 1,
            self.in_range(),
        ensures
            r@ == radial(self@, sq_tolerance as int),
            r@.len() == 1 || r@.len() >= 2,
            self@.len() >= 2 ==> r@.len() >= 2,
            r.in_range(),
    {
        let n = self.points.len();
        if n == 1 {
            return Polyline { points: self.points.clone() };
        }
        let mut kept = thin_prefix(&self.points, sq_tolerance, n - 1);
        kept.push(self.points[n - 1]);
        Polyline { points: kept }
    }

    /// Douglas-Peucker reduction driven by an explicit stack of index ranges
    /// and a retention mask over the original indices.
    pub fn simplify_douglas_peucker(&self, sq_tolerance: u128) -> (r: Polyline)
        requires
            self@.len() >= 1,
            self.in_range(),
        ensures
            r@ == reduce(self@, sq_tolerance as int),
            r.in_range(),
    {
        let n = self.points.len();
        if n == 1 {
            proof {
                let mask = dp_mask(self@, sq_tolerance as int);
                assert(keep_where(self@, mask, 0) == Seq::<Point>::empty());
                assert(keep_where(self@, mask, 1) =~= self@);
            }
            return Polyline { points: self.points.clone() };
        }
        let pts = &self.points;
        let ghost tol = sq_tolerance as int;
        let cap: u128 = if sq_tolerance > DIST_NUM_LIMIT {
            DIST_NUM_LIMIT
        } else {
            sq_tolerance
        };
        let ghost goal = dp_kept(pts@, tol, 0, n - 1);
        let mut stack: Vec<(usize, usize)> = Vec::new();
        stack.push((0, n - 1));
        let mut keep = mask_filled(n, true);
        proof {
            lemma_dp_kept_interior(pts@, tol, 0, n - 1);
            assert forall|i: int| 0 < i < n - 1 implies inside_some(stack@, i) by {
                assert(inside(stack@[0], i));
            }
        }
        while stack.len() > 0
            invariant
                n == pts@.len() >= 2,
                all_in_range(pts@),
                dist_bounded((cap, 1)),
                cap == sq_tolerance || (cap == DIST_NUM_LIMIT && sq_tolerance > DIST_NUM_LIMIT),
                tol == sq_tolerance as int,
                goal == dp_kept(pts@, tol, 0, n - 1),
                bits_of(keep).len() == n,
                bits_of(keep)[0],
                bits_of(keep)[n - 1],
                forall|k: int| 0 <= k < stack@.len() ==> (#[trigger] stack@[k]).0 < stack@[k].1 < n,
                forall|j: int, k: int|
                    0 <= j < k < stack@.len() ==> (#[trigger] stack@[j]).1 <= (#[trigger] stack@[k]).0,
                forall|k: int, i: int|
                    0 <= k < stack@.len() && inside(#[trigger] stack@[k], i) ==> #[trigger] bits_of(keep)[i],
                forall|k: int, i: int|
                    0 <= k < stack@.len() && inside(#[trigger] stack@[k], i) ==> (#[trigger] goal.contains(i)
                        == dp_kept(pts@, tol, stack@[k].0 as int, stack@[k].1 as int).contains(i)),
                forall|i: int|
                    0 < i < n - 1 && !inside_some(stack@, i) ==> (#[trigger] goal.contains(i) == bits_of(keep)[i]),
            decreases stack_weight(stack@),
        {
            proof {
                lemma_stack_weight_nonneg(stack@);
            }
            let ghost st = stack@;
            let (s, e) = stack.pop().unwrap();
            let ghost rest = stack@;
            assert(rest =~= st.drop_last());
            let (max_idx, dmax) = farthest_in_range(pts, &keep, s, e);
            proof {
                lemma_farthest_in_range(pts@, s as int, e as int, e as int);
                lemma_start_on_chord(pts@[s as int], pts@[e as int]);
                lemma_dp_kept_interior(pts@, tol, s as int, e as int);
            }
            proof {
                if cap != sq_tolerance {
                    lemma_capped_tolerance(dmax, tol);
                }
            }
            if dist_exceeds(dmax, (cap, 1)) {
                let m = max_idx;
                proof {
                    lemma_dp_kept_interior(pts@, tol, s as int, m as int);
                    lemma_dp_kept_interior(pts@, tol, m as int, e as int);
                }
                stack.push((s, m));
                stack.push((m, e));
                proof {
                    let st2 = stack@;
                    assert(st2.drop_last() =~= rest.push((s, m)));
                    assert(st2.drop_last().drop_last() =~= rest);
                    assert(st.drop_last() =~= rest);
                    assert(stack_weight(st) == stack_weight(rest) + 2 * (e - s) - 1);
                    assert(stack_weight(st2.drop_last()) == stack_weight(rest) + 2 * (m - s) - 1);
                    assert(stack_weight(st2) == stack_weight(st2.drop_last()) + 2 * (e - m) - 1);
                    assert(dp_kept(pts@, tol, s as int, e as int) == dp_kept(pts@, tol, s as int, m as int).insert(
                        m as int,
                    ).union(dp_kept(pts@, tol, m as int, e as int)));
                    assert forall|k: int, i: int|
                        0 <= k < st2.len() && inside(#[trigger] st2[k], i) implies (#[trigger] goal.contains(i)
                            == dp_kept(pts@, tol, st2[k].0 as int, st2[k].1 as int).contains(i)) by {
                        if k < st2.len() - 2 {
                            assert(st2[k] == st[k]);
                        } else {
                            assert(inside(st[st.len() - 1], i));
                        }
                    }
                    assert forall|i: int| 0 < i < n - 1 && !inside_some(st2, i) implies
                        (#[trigger] goal.contains(i) == bits_of(keep)[i]) by {
                        if inside(st.last(), i) {
                            assert(i == m) by {
                                if i < m {
                                    assert(inside(st2[st2.len() - 2], i));
                                } else if i > m {
                                    assert(inside(st2[st2.len() - 1], i));
                                }
                            }
                            assert(inside(st[st.len() - 1], i));
                        } else {
                            assert forall|k: int| 0 <= k < st.len() implies !inside(#[trigger] st[k], i) by {
                                if k < st.len() - 1 {
                                    assert(st[k] == st2[k]);
                                }
                            }
                        }
                    }
                }
            } else {
                let ghost before = bits_of(keep);
                let mut i: usize = s + 1;
                while i < e
                    invariant
                        s < e < n,
                        s + 1 <= i <= e,
                        bits_of(keep).len() == n,
                        before.len() == n,
                        forall|j: int| 0 <= j < n ==> #[trigger] bits_of(keep)[j] == if s < j < i {
                            false
                        } else {
                            before[j]
                        },
                    decreases e - i,
                {
                    mask_set(&mut keep, i, false);
                    i = i + 1;
                }
                proof {
                    assert(st.drop_last() =~= rest);
                    assert(stack_weight(st) == stack_weight(rest) + 2 * (e - s) - 1);
                    assert forall|k: int, j: int|
                        0 <= k < rest.len() && inside(#[trigger] rest[k], j) implies #[trigger] bits_of(keep)[j] by {
                        assert(st[k] == rest[k]);
                        assert(st[k].1 <= st[st.len() - 1].0);
                    }
                    assert forall|j: int| 0 < j < n - 1 && !inside_some(rest, j) implies
                        (#[trigger] goal.contains(j) == bits_of(keep)[j]) by {
                        if !inside(st.last(), j) {
                            assert forall|k: int| 0 <= k < st.len() implies !inside(#[trigger] st[k], j) by {
                                if k < st.len() - 1 {
                                    assert(st[k] == rest[k]);
                                }
                            }
                        } else {
                            assert(inside(st[st.len() - 1], j));
                        }
                    }
                }
            }
            proof {
                lemma_stack_weight_nonneg(stack@);
            }
        }
        proof {
            assert(bits_of(keep) =~= dp_mask(pts@, tol));
        }
        let mut out: Vec<Point> = Vec::new();
        let mut i: usize = 0;
        while i < n
            invariant
                n == pts@.len(),
                all_in_range(pts@),
                i <= n,
                bits_of(keep) == dp_mask(pts@, tol),
                out@ == keep_where(pts@, bits_of(keep), i as int),
                all_in_range(out@),
            decreases n - i,
        {
            if mask_get(&keep, i) == Some(true) {
                out.push(pts[i]);
            }
            i = i + 1;
        }
        Polyline { points: out }
    }

    /// Simplifies the polyline with the linear tolerance `tolerance`; with
    /// `highest_quality` the radial pre-filter is skipped. The polyline itself
    /// is left as it is.
    pub fn simplify(&self, tolerance: u32, highest_quality: bool) -> (r: Polyline)
        requires
            self.in_range(),
        ensures
            r@ == simplified(self@, tolerance as int, highest_quality),
            r.in_range(),
    {
        if self.points.len() <= 2 {
            return Polyline { points: self.points.clone() };
        }
        let t: u128 = tolerance as u128;
        assert(t * t <= 0x1_0000_0000 * 0x1_0000_0000) by (nonlinear_arith)
            requires t < 0x1_0000_0000;
        let sq_tolerance: u128 = t * t;
        let reduced = if highest_quality {
            self.simplify_douglas_peucker(sq_tolerance)
        } else {
            self.simplify_radial_dist(sq_tolerance).simplify_douglas_peucker(sq_tolerance)
        };
        reduced.collapse_duplicates()
    }

    /// Drops every vertex that repeats the last kept vertex.
    pub fn collapse_duplicates(&self) -> (r: Polyline)
        requires
            self.in_range(),
        ensures
            r@ == collapse(self@),
            r.in_range(),
    {
        if self.points.len() == 0 {
            return Polyline::new();
        }
        let kept = thin_prefix(&self.points, DUPLICATE_SQ_DIST, self.points.len());
        Polyline { points: kept }
    }
}

} // verus!
