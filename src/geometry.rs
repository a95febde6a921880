//! Points on the integer grid and the exact squared distances between them.
use vstd::prelude::*;

verus! {

/// Largest magnitude a coordinate may have. It keeps every product the
/// distance comparisons form within 128 bits.
pub const COORD_LIMIT: i32 = 524288;

/// A point of the plane with integer coordinates.
#[derive(Clone, Copy, Debug, PartialEq, Eq, Structural)]
pub struct Point {
    pub x: i32,
    pub y: i32,
}

/// Both coordinates lie within `COORD_LIMIT`.
pub open spec fn point_in_range(p: Point) -> bool {
    -COORD_LIMIT <= p.x <= COORD_LIMIT && -COORD_LIMIT <= p.y <= COORD_LIMIT
}

/// Squared Euclidean distance between two points.
pub open spec fn sq_point_dist(p: Point, q: Point) -> int {
    (p.x - q.x) * (p.x - q.x) + (p.y - q.y) * (p.y - q.y)
}

/// Squared distance from `p` to the segment `a`-`b`, as a fraction
/// `(numerator, denominator)` with a positive denominator.
///
/// With `t = dot(p - a, b - a) / |b - a|^2`, the closest point of the segment
/// is `b` when `t > 1`, `a` when `t <= 0` or when the segment is a single
/// point, and otherwise the projection `a + t (b - a)`, whose squared distance
/// to `p` is `cross(p - a, b - a)^2 / |b - a|^2`.
pub open spec fn sq_seg_dist(p: Point, a: Point, b: Point) -> (int, int) {
    let dx = b.x - a.x;
    let dy = b.y - a.y;
    let len = dx * dx + dy * dy;
    let dot = (p.x - a.x) * dx + (p.y - a.y) * dy;
    let cross = (p.x - a.x) * dy - (p.y - a.y) * dx;
    if len == 0 {
        (sq_point_dist(p, a), 1)
    } else if dot > len {
        (sq_point_dist(p, b), 1)
    } else if dot > 0 {
        (cross * cross, len)
    } else {
        (sq_point_dist(p, a), 1)
    }
}

/// In the middle case of `sq_seg_dist`, the fraction `cross^2 / len` is the
/// squared distance from `p` to its projection `a + (dot / len) (b - a)`:
/// scaled by `len^2`, that distance is `|len (p - a) - dot (b - a)|^2`.
pub proof fn projection_distance(p: Point, a: Point, b: Point)
    ensures
        ({
            let dx = b.x - a.x;
            let dy = b.y - a.y;
            let len = dx * dx + dy * dy;
            let dot = (p.x - a.x) * dx + (p.y - a.y) * dy;
            let cross = (p.x - a.x) * dy - (p.y - a.y) * dx;
            let ex = len * (p.x - a.x) - dot * dx;
            let ey = len * (p.y - a.y) - dot * dy;
            cross * cross * len == ex * ex + ey * ey
        }),
{
    let dx = b.x - a.x;
    let dy = b.y - a.y;
    let ux = p.x - a.x;
    let uy = p.y - a.y;
    let len = dx * dx + dy * dy;
    let dot = ux * dx + uy * dy;
    let cross = ux * dy - uy * dx;
    assert(len * ux - dot * dx == cross * dy) by (nonlinear_arith)
        requires
            len == dx * dx + dy * dy,
            dot == ux * dx + uy * dy,
            cross == ux * dy - uy * dx,
    ;
    assert(len * uy - dot * dy == -(cross * dx)) by (nonlinear_arith)
        requires
            len == dx * dx + dy * dy,
            dot == ux * dx + uy * dy,
            cross == ux * dy - uy * dx,
    ;
    assert(cross * cross * len == (cross * dy) * (cross * dy) + (cross * dx) * (cross * dx))
        by (nonlinear_arith)
        requires
            len == dx * dx + dy * dy,
    ;
    let ex = len * ux - dot * dx;
    let ey = len * uy - dot * dy;
    assert(ex * ex + ey * ey == (cross * dy) * (cross * dy) + (cross * dx) * (cross * dx))
        by (nonlinear_arith)
        requires
            ex == cross * dy,
            ey == -(cross * dx),
    ;
}

/// The fraction `r` is strictly greater than the fraction `s`
/// (both with positive denominators).
pub open spec fn exceeds(r: (int, int), s: (int, int)) -> bool {
    r.0 * s.1 > s.0 * r.1
}

/// Bounds that every distance fraction of in-range points meets.
pub open spec fn dist_bounded(r: (u128, u128)) -> bool {
    r.0 <= 0x4_0000_0000_0000_0000_0000 && 1 <= r.1 <= 0x200_0000_0000
}

/// Largest numerator a bounded distance fraction can have.
pub const DIST_NUM_LIMIT: u128 = 0x4_0000_0000_0000_0000_0000;

/// No bounded distance exceeds a squared tolerance of `DIST_NUM_LIMIT` or
/// more, so capping the tolerance there changes no comparison.
pub proof fn lemma_capped_tolerance(r: (u128, u128), t: int)
    requires
        dist_bounded(r),
        t >= DIST_NUM_LIMIT,
    ensures
        !exceeds((r.0 as int, r.1 as int), (t, 1)),
        !exceeds((r.0 as int, r.1 as int), (DIST_NUM_LIMIT as int, 1)),
{
    let l = DIST_NUM_LIMIT as int;
    assert(t * r.1 >= l && l * r.1 >= l) by (nonlinear_arith)
        requires
            t >= l,
            l >= 0,
            r.1 >= 1,
    ;
}

proof fn lemma_sq_bound(a: int, m: int)
    requires
        0 <= m,
        -m <= a <= m,
    ensures
        0 <= a * a <= m * m,
{
    assert(0 <= a * a <= m * m) by (nonlinear_arith)
        requires
            0 <= m,
            -m <= a <= m,
    ;
}

proof fn lemma_prod_bound(a: int, b: int, m: int)
    requires
        0 <= m,
        -m <= a <= m,
        -m <= b <= m,
    ensures
        -(m * m) <= a * b <= m * m,
{
    assert(-(m * m) <= a * b <= m * m) by (nonlinear_arith)
        requires
            0 <= m,
            -m <= a <= m,
            -m <= b <= m,
    ;
}

impl Point {
    pub fn new(x: i32, y: i32) -> (r: Point)
        ensures
            r.x == x,
            r.y == y,
    {
        Point { x, y }
    }

    /// Exact squared distance between two in-range points.
    pub fn sq_dist(&self, q: &Point) -> (r: u128)
        requires
            point_in_range(*self),
            point_in_range(*q),
        ensures
            r == sq_point_dist(*self, *q),
    {
        let dx: i64 = self.x as i64 - q.x as i64;
        let dy: i64 = self.y as i64 - q.y as i64;
        assert(dx * dx <= 0x100_0000_0000) by (nonlinear_arith)
            requires -0x10_0000 <= dx <= 0x10_0000;
        assert(dy * dy <= 0x100_0000_0000) by (nonlinear_arith)
            requires -0x10_0000 <= dy <= 0x10_0000;
        assert(0 <= dx * dx && 0 <= dy * dy) by (nonlinear_arith);
        (dx * dx + dy * dy) as u128
    }

    /// Exact squared distance from `self` to the segment `p1`-`p2`.
    pub fn sq_seg_dist(&self, p1: &Point, p2: &Point) -> (r: (u128, u128))
        requires
            point_in_range(*self),
            point_in_range(*p1),
            point_in_range(*p2),
        ensures
            r.0 == sq_seg_dist(*self, *p1, *p2).0,
            r.1 == sq_seg_dist(*self, *p1, *p2).1,
            dist_bounded(r),
    {
        let dx: i64 = p2.x as i64 - p1.x as i64;
        let dy: i64 = p2.y as i64 - p1.y as i64;
        let px: i64 = self.x as i64 - p1.x as i64;
        let py: i64 = self.y as i64 - p1.y as i64;
        let qx: i64 = self.x as i64 - p2.x as i64;
        let qy: i64 = self.y as i64 - p2.y as i64;
        proof {
            let m: int = 0x10_0000;
            lemma_sq_bound(dx as int, m);
            lemma_sq_bound(dy as int, m);
            lemma_sq_bound(px as int, m);
            lemma_sq_bound(py as int, m);
            lemma_sq_bound(qx as int, m);
            lemma_sq_bound(qy as int, m);
            lemma_prod_bound(px as int, dx as int, m);
            lemma_prod_bound(py as int, dy as int, m);
            lemma_prod_bound(px as int, dy as int, m);
            lemma_prod_bound(py as int, dx as int, m);
        }
        let len: i64 = dx * dx + dy * dy;
        let dot: i64 = px * dx + py * dy;
        let cross: i64 = px * dy - py * dx;
        if len == 0 {
            ((px * px + py * py) as u128, 1)
        } else if dot > len {
            ((qx * qx + qy * qy) as u128, 1)
        } else if dot > 0 {
            proof {
                lemma_sq_bound(cross as int, 0x200_0000_0000);
            }
            let c: i128 = cross as i128;
            ((c * c) as u128, len as u128)
        } else {
            ((px * px + py * py) as u128, 1)
        }
    }
}

/// Compares two bounded distance fractions: `r > s`.
pub fn dist_exceeds(r: (u128, u128), s: (u128, u128)) -> (b: bool)
    requires
        dist_bounded(r),
        dist_bounded(s),
    ensures
        b == exceeds((r.0 as int, r.1 as int), (s.0 as int, s.1 as int)),
{
    proof {
        let n: int = 0x4_0000_0000_0000_0000_0000;
        let d: int = 0x200_0000_0000;
        assert(r.0 * s.1 <= n * d) by (nonlinear_arith)
            requires 0 <= r.0 <= n, 0 <= s.1 <= d;
        assert(s.0 * r.1 <= n * d) by (nonlinear_arith)
            requires 0 <= s.0 <= n, 0 <= r.1 <= d;
    }
    r.0 * s.1 > s.0 * r.1
}

} // verus!
