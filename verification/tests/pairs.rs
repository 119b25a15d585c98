use geometry::closest::{closest_brute_force, closest_pair, closest_strip, closest_util, Pair};
use geometry::order::sort_indices;
use geometry::point::Point;

fn to_grid(v: f64) -> i32 {
    (v * 100000.0).round() as i32
}

fn spot(x: f64, y: f64) -> Point {
    Point::new(to_grid(x), to_grid(y))
}

fn least_by_comparing_all(points: &Vec<Point>) -> i128 {
    let mut least = i128::MAX;
    for i in 0..points.len() {
        for j in (i + 1)..points.len() {
            let d = points[i].distance_squared(&points[j]);
            if d < least {
                least = d;
            }
        }
    }
    least
}

fn check_against_all_pairs(points: &Vec<Point>) {
    let (a, b, d) = closest_pair(points);
    let least = least_by_comparing_all(points);
    assert_eq!(a.distance_squared(&b), least);
    assert_eq!(d, a.distance(&b));
    let i = points.iter().position(|p| *p == a).unwrap();
    let j = points.iter().rposition(|p| *p == b).unwrap();
    assert!(i != j || points.iter().filter(|p| **p == a).count() >= 2);
}

fn scattered(seed: u64, n: usize, span: i32) -> Vec<Point> {
    let mut state = seed;
    let mut points = Vec::new();
    for _ in 0..n {
        state = state.wrapping_mul(6364136223846793005).wrapping_add(1442695040888963407);
        let x = ((state >> 33) as i64 % (2 * span as i64 + 1)) as i32 - span;
        state = state.wrapping_mul(6364136223846793005).wrapping_add(1442695040888963407);
        let y = ((state >> 33) as i64 % (2 * span as i64 + 1)) as i32 - span;
        points.push(Point::new(x, y));
    }
    points
}

#[test]
fn closest_pair_of_two_points() {
    let points = vec![spot(0.0, 0.0), spot(3.0, 4.0)];
    let (a, b, d) = closest_pair(&points);
    assert_eq!(a.distance_squared(&b), 25_0000000000);
    assert_eq!(d, 500000);
    assert!(a != b);
}

#[test]
fn closest_pair_of_a_small_set() {
    let points = vec![
        spot(2.0, 3.0),
        spot(12.0, 30.0),
        spot(40.0, 50.0),
        spot(5.0, 1.0),
        spot(12.0, 10.0),
        spot(3.0, 4.0),
    ];
    let (a, b, d) = closest_pair(&points);
    assert!((a == spot(2.0, 3.0) && b == spot(3.0, 4.0)) || (a == spot(3.0, 4.0) && b == spot(2.0, 3.0)));
    // sqrt(2) rounded down to the grid
    assert_eq!(d, 141421);
}

#[test]
fn closest_pair_matches_all_pairs_on_scattered_points() {
    for n in 2..60 {
        check_against_all_pairs(&scattered(n as u64, n, 1000000));
    }
    for seed in 0..20 {
        check_against_all_pairs(&scattered(1000 + seed, 200, 50000000));
    }
}

#[test]
fn closest_pair_matches_all_pairs_on_clustered_points() {
    for seed in 0..20 {
        let mut points = scattered(seed, 100, 50);
        let mut far = scattered(seed + 77, 100, 40);
        for p in far.iter_mut() {
            p.x += 90000000;
            p.y -= 70000000;
        }
        points.append(&mut far);
        check_against_all_pairs(&points);
    }
}

#[test]
fn closest_pair_matches_all_pairs_on_collinear_points() {
    let mut level: Vec<Point> = Vec::new();
    let mut upright: Vec<Point> = Vec::new();
    let mut slanted: Vec<Point> = Vec::new();
    let mut step = 1;
    for k in 0..200 {
        step = (step * 7 + 3) % 1009;
        level.push(Point::new(k * 1013 + step, 5));
        upright.push(Point::new(-3, 900000 - k * 977 - step));
        slanted.push(Point::new(k * 1013 + step, 2 * (k * 1013 + step) + 1));
    }
    check_against_all_pairs(&level);
    check_against_all_pairs(&upright);
    check_against_all_pairs(&slanted);
}

#[test]
fn closest_pair_finds_a_pair_across_the_split() {
    // the two halves by x are far apart inside, near each other across
    let points = vec![
        spot(-10.0, 0.0),
        spot(-5.0, 40.0),
        spot(-0.25, 80.0),
        spot(0.25, 80.5),
        spot(5.0, 120.0),
        spot(10.0, 160.0),
    ];
    let (a, b, _) = closest_pair(&points);
    assert_eq!(a.distance_squared(&b), least_by_comparing_all(&points));
    assert!(a.x * b.x < 0);
}

#[test]
fn closest_pair_of_points_in_one_place() {
    let points = vec![spot(1.0, 1.0), spot(5.0, 5.0), spot(1.0, 1.0), spot(9.0, 9.0)];
    let (a, b, d) = closest_pair(&points);
    assert_eq!(a, spot(1.0, 1.0));
    assert_eq!(b, spot(1.0, 1.0));
    assert_eq!(d, 0);
}

#[test]
fn closest_pair_does_not_depend_on_the_run() {
    let points = scattered(5, 150, 3000);
    assert_eq!(closest_pair(&points), closest_pair(&points));
}

#[test]
fn brute_force_compares_a_range_only() {
    let points = vec![spot(0.0, 0.0), spot(0.0, 1.0), spot(10.0, 0.0), spot(13.0, 4.0), spot(30.0, 0.0)];
    let order: Vec<usize> = vec![0, 1, 2, 3, 4];
    let all = closest_brute_force(&points, &order, 0, 5);
    assert_eq!(all, Pair { first: 0, second: 1, gap: 1_0000000000 });
    let tail = closest_brute_force(&points, &order, 2, 5);
    assert_eq!(tail, Pair { first: 2, second: 3, gap: 25_0000000000 });
}

#[test]
fn util_splits_more_than_three_points() {
    let points = vec![spot(9.0, 9.0), spot(0.0, 0.0), spot(4.0, 0.0), spot(5.0, 1.0), spot(2.0, 7.0)];
    let all: Vec<usize> = vec![0, 1, 2, 3, 4];
    let order = sort_indices(&points, &all, false);
    assert_eq!(order, vec![1, 4, 2, 3, 0]);
    let best = closest_util(&points, &order, 0, 5);
    assert_eq!(best.gap, 2_0000000000);
    assert!((best.first == 2 && best.second == 3) || (best.first == 3 && best.second == 2));
}

#[test]
fn strip_keeps_the_best_unless_it_finds_a_closer_pair() {
    let points = vec![spot(0.0, 0.0), spot(0.0, 3.0), spot(1.0, 10.0), spot(1.0, 10.5)];
    let best = Pair { first: 0, second: 1, gap: points[0].distance_squared(&points[1]) };
    let far: Vec<usize> = vec![0, 2];
    assert_eq!(closest_strip(&points, &far, best), best);
    let near: Vec<usize> = vec![3, 0, 2];
    let found = closest_strip(&points, &near, best);
    assert_eq!(found.gap, 2500000000);
    assert_eq!((found.first, found.second), (2, 3));
}

#[test]
fn sort_indices_orders_by_one_coordinate() {
    let points = vec![spot(3.0, 1.0), spot(1.0, 2.0), spot(4.0, 0.0), spot(0.0, 3.0), spot(2.0, -1.0)];
    let all: Vec<usize> = vec![0, 1, 2, 3, 4];
    assert_eq!(sort_indices(&points, &all, false), vec![3, 1, 4, 0, 2]);
    assert_eq!(sort_indices(&points, &all, true), vec![4, 2, 0, 1, 3]);
    let some: Vec<usize> = vec![2, 0, 2];
    assert_eq!(sort_indices(&points, &some, false), vec![0, 2, 2]);
    let none: Vec<usize> = Vec::new();
    assert_eq!(sort_indices(&points, &none, true), none);
}

#[test]
fn brute_force_returns_the_first_of_several_closest_pairs() {
    let points = vec![spot(0.0, 0.0), spot(1.0, 0.0), spot(2.0, 0.0), spot(3.0, 0.0), spot(3.0, 1.0)];
    let order: Vec<usize> = vec![0, 1, 2, 3, 4];
    let first = closest_brute_force(&points, &order, 0, 5);
    assert_eq!(first, Pair { first: 0, second: 1, gap: 1_0000000000 });
    let later = closest_brute_force(&points, &order, 1, 5);
    assert_eq!(later, Pair { first: 1, second: 2, gap: 1_0000000000 });
    // the earlier position comes first, whatever the indices
    let back: Vec<usize> = vec![4, 3, 2, 1, 0];
    let reversed = closest_brute_force(&points, &back, 0, 5);
    assert_eq!(reversed, Pair { first: 4, second: 3, gap: 1_0000000000 });
}

#[test]
fn strip_keeps_the_best_on_a_tie_and_else_takes_the_first_closest() {
    let points = vec![
        spot(0.0, 0.0),
        spot(0.0, 1.0),
        spot(5.0, 5.0),
        spot(5.0, 6.0),
        spot(5.5, 7.0),
        spot(5.5, 7.5),
        spot(6.0, 8.0),
    ];
    let best = Pair { first: 0, second: 1, gap: 1_0000000000 };
    let tied: Vec<usize> = vec![3, 2];
    assert_eq!(closest_strip(&points, &tied, best), best);
    // (5.5, 7) to (5.5, 7.5) and (5.5, 7.5) to (6, 8): the scan from the
    // bottom reaches the closer first pair first
    let closer: Vec<usize> = vec![6, 5, 4, 3, 2];
    let found = closest_strip(&points, &closer, best);
    assert_eq!(found, Pair { first: 4, second: 5, gap: 2500000000 });
}

#[test]
fn closest_pair_of_several_equally_close_pairs() {
    // both halves answer with a pair one whole apart, and the right half
    // wins the tie
    let line = vec![spot(0.0, 0.0), spot(1.0, 0.0), spot(2.0, 0.0), spot(3.0, 0.0)];
    assert_eq!(closest_pair(&line), (spot(2.0, 0.0), spot(3.0, 0.0), 100000));
    // three points are scanned in the order of their x
    let three = vec![spot(2.0, 0.0), spot(1.0, 0.0), spot(0.0, 0.0)];
    assert_eq!(closest_pair(&three), (spot(0.0, 0.0), spot(1.0, 0.0), 100000));
    let four = vec![spot(0.0, 0.0), spot(3.0, 1.0), spot(4.0, 2.0), spot(7.0, 3.0)];
    assert_eq!(closest_pair(&four), (spot(3.0, 1.0), spot(4.0, 2.0), 141421));
}

#[test]
fn sort_indices_breaks_every_tie() {
    let points = vec![spot(1.0, 5.0), spot(0.0, 5.0), spot(1.0, 5.0), spot(1.0, 2.0), spot(0.0, 5.0)];
    let mixed: Vec<usize> = vec![4, 2, 0, 3, 1];
    // by x, then by index
    assert_eq!(sort_indices(&points, &mixed, false), vec![1, 4, 0, 2, 3]);
    // by y, then by x, then by index
    assert_eq!(sort_indices(&points, &mixed, true), vec![3, 1, 4, 0, 2]);
}
