use simplify_polyline::{Point, Polyline};

fn line(coords: &[(i32, i32)]) -> Polyline {
    Polyline::from_vec(coords.iter().map(|&(x, y)| Point::new(x, y)).collect())
}

#[test]
fn empty_stays_empty() {
    let p = Polyline::new();
    assert_eq!(p.simplify(5, true).len(), 0);
    assert_eq!(p.simplify(5, false).len(), 0);
}

#[test]
fn single_point_unchanged() {
    let p = line(&[(3, 4)]);
    assert_eq!(p.simplify(0, false), p);
}

#[test]
fn two_points_unchanged_even_when_equal() {
    let p = line(&[(3, 4), (3, 4)]);
    assert_eq!(p.simplify(100, false), p);
    assert_eq!(p.simplify(100, true), p);
}

#[test]
fn colinear_middle_dropped() {
    let p = line(&[(0, 0), (100, 100), (200, 200)]);
    assert_eq!(p.simplify(10, true), line(&[(0, 0), (200, 200)]));
    assert_eq!(p.simplify(10, false), line(&[(0, 0), (200, 200)]));
}

#[test]
fn far_outlier_kept() {
    let p = line(&[(0, 0), (0, 100), (1, 0)]);
    assert_eq!(p.simplify(0, true), p);
    assert_eq!(p.simplify(1, true), p);
}

#[test]
fn identical_points_collapse_to_one() {
    let p = line(&[(7, 7), (7, 7), (7, 7), (7, 7)]);
    assert_eq!(p.simplify(0, true), line(&[(7, 7)]));
    assert_eq!(p.simplify(3, false), line(&[(7, 7)]));
}

#[test]
fn zero_tolerance_keeps_bends() {
    let p = line(&[(0, 0), (1, 1), (2, 0), (3, 0), (4, 0)]);
    assert_eq!(p.simplify(0, true), line(&[(0, 0), (1, 1), (2, 0), (4, 0)]));
}

#[test]
fn huge_tolerance_keeps_ends() {
    let p = line(&[(0, 0), (10, 50), (20, -40), (30, 5)]);
    assert_eq!(p.simplify(u32::MAX, true), line(&[(0, 0), (30, 5)]));
}

#[test]
fn larger_tolerance_keeps_no_more() {
    let p = line(&[(0, 0), (10, 3), (20, -4), (30, 6), (40, 0), (50, 9)]);
    let mut previous = usize::MAX;
    for t in 0..12u32 {
        let n = p.simplify(t, true).len();
        assert!(n <= previous);
        previous = n;
    }
}

#[test]
fn pre_filter_can_keep_more_with_larger_tolerance() {
    let p = line(&[(0, 6), (3, 1), (1, 4), (6, 0), (0, 0), (0, 3)]);
    assert_eq!(p.simplify(4, false), line(&[(0, 6), (0, 3)]));
    assert_eq!(p.simplify(6, false), line(&[(0, 6), (6, 0), (0, 3)]));
}

#[test]
fn radial_filter_thins_close_points() {
    let p = line(&[(0, 0), (1, 0), (2, 0), (10, 0), (11, 0), (12, 1)]);
    let r = p.simplify_radial_dist(9);
    assert_eq!(r, line(&[(0, 0), (10, 0), (12, 1)]));
}

#[test]
fn douglas_peucker_splits_at_farthest() {
    let p = line(&[(0, 0), (5, 5), (10, 10), (15, 5), (20, 0)]);
    let r = p.simplify_douglas_peucker(4);
    assert_eq!(r, line(&[(0, 0), (10, 10), (20, 0)]));
}

#[test]
fn collapse_removes_repeats_only() {
    let p = line(&[(1, 1), (1, 1), (2, 1), (2, 1), (2, 2), (1, 1)]);
    assert_eq!(p.collapse_duplicates(), line(&[(1, 1), (2, 1), (2, 2), (1, 1)]));
}

#[test]
fn segment_distance_cases() {
    let a = Point::new(0, 0);
    let b = Point::new(4, 0);
    assert_eq!(Point::new(2, 3).sq_seg_dist(&a, &b), (144, 16));
    assert_eq!(Point::new(7, 4).sq_seg_dist(&a, &b), (25, 1));
    assert_eq!(Point::new(-3, 4).sq_seg_dist(&a, &b), (25, 1));
    assert_eq!(Point::new(1, 1).sq_seg_dist(&a, &a), (2, 1));
    assert_eq!(Point::new(3, 4).sq_dist(&a), 25);
}

#[test]
fn len_and_add() {
    let mut p = Polyline::new();
    assert_eq!(p.len(), 0);
    p.add(Point::new(1, 2));
    p.add(Point::new(3, 4));
    assert_eq!(p.len(), 2);
    assert_eq!(p.points[1], Point::new(3, 4));
}

fn is_subsequence(small: &Polyline, large: &Polyline) -> bool {
    let mut j = 0usize;
    for p in &small.points {
        while j < large.points.len() && large.points[j] != *p {
            j += 1;
        }
        if j == large.points.len() {
            return false;
        }
        j += 1;
    }
    true
}

#[test]
fn output_keeps_input_order() {
    let p = line(&[(0, 0), (4, 9), (8, -3), (12, 7), (16, 0), (20, 11), (24, 2), (24, 2), (30, 0)]);
    for t in 0..6u32 {
        for q in [true, false] {
            let r = p.simplify(t, q);
            assert!(is_subsequence(&r, &p));
            assert!(r.len() <= p.len());
            assert_eq!(r.points[0], p.points[0]);
            assert_eq!(r.points[r.len() - 1], p.points[p.len() - 1]);
        }
    }
}

#[test]
fn stages_accept_a_single_point() {
    let p = line(&[(5, -2)]);
    assert_eq!(p.simplify_douglas_peucker(0), p);
    assert_eq!(p.simplify_radial_dist(100), p);
    assert_eq!(p.collapse_duplicates(), p);
}

#[test]
fn reducing_twice_changes_nothing() {
    let p = line(&[(0, 0), (4, 9), (8, -3), (12, 7), (16, 0), (20, 11), (24, 2), (30, 0)]);
    for sq in [0u128, 4, 25, 100, 10000] {
        let once = p.simplify_douglas_peucker(sq);
        assert_eq!(once.simplify_douglas_peucker(sq), once);
    }
}

#[test]
fn dropped_points_lie_within_tolerance() {
    let p = line(&[(0, 0), (4, 9), (8, -3), (12, 7), (16, 0), (20, 11), (24, 2), (30, 0)]);
    let sq: u128 = 25;
    let r = p.simplify_douglas_peucker(sq);
    let pos: Vec<usize> = r.points.iter().map(|q| p.points.iter().position(|x| x == q).unwrap()).collect();
    for w in pos.windows(2) {
        for i in w[0] + 1..w[1] {
            let (num, den) = p.points[i].sq_seg_dist(&p.points[w[0]], &p.points[w[1]]);
            assert!(num <= sq * den);
        }
    }
}

#[test]
fn radial_filter_measures_from_last_kept_point() {
    let p = line(&[(0, 0), (3, 0), (5, 0), (100, 0)]);
    assert_eq!(p.simplify_radial_dist(4), line(&[(0, 0), (3, 0), (100, 0)]));
    assert_eq!(p.simplify_radial_dist(9), line(&[(0, 0), (5, 0), (100, 0)]));
}

#[test]
fn huge_squared_tolerance_in_reducer() {
    let p = line(&[(0, 0), (10, 50), (20, -40), (30, 5)]);
    assert_eq!(p.simplify_douglas_peucker(u128::MAX), line(&[(0, 0), (30, 5)]));
    let same = line(&[(2, 2), (2, 2), (2, 2)]);
    assert_eq!(same.simplify_douglas_peucker(u128::MAX), line(&[(2, 2), (2, 2)]));
}
