use geometry::fixed::{div_floor, isqrt, SCALE};
use geometry::hull::{convex_hull, leftmost_index, next_hull_vertex};
use geometry::line::Line;
use geometry::point::Point;

const EPSILON: f64 = 0.00001;

fn units(v: f64) -> i32 {
    (v * 100000.0).round() as i32
}

fn wholes(v: i64) -> f64 {
    v as f64 / 100000.0
}

fn point(x: f64, y: f64) -> Point {
    Point::new(units(x), units(y))
}

#[test]
fn point_dist_test() {
    let p1 = point(1.0, 4.0);
    let p2 = point(2.0, -5.0);
    let p3 = point(1.0, 4.0);
    let d = wholes(p1.distance(&p2));
    let d2 = wholes(p1.distance(&p3));

    assert!(d - 9.055385 < EPSILON);
    assert_eq!(d2, 0.0);
}

#[test]
fn point_collinear_test() {
    let p1 = point(1.0, 2.0);
    let p2 = point(1.0, 3.0);
    let p3 = point(1.0, 4.0);
    let p4 = point(2.0, 2.0);

    assert!(p1.collinear(&p2, &p3));
    assert!(p1.collinear(&p3, &p2));
    assert_eq!(p1.collinear(&p2, &p4), false);
}

#[test]
fn point_orientation_test() {
    let p1 = point(1.0, 2.0);
    let p2 = point(3.0, 5.0);
    let p3 = point(4.0, 6.0);

    assert_eq!(p1.orientation(&p2, &p3), 1);
    assert_eq!(p3.orientation(&p2, &p1), 2);
}

#[test]
fn point_convex_hull_test() {
    let xs: [f64; 7] = [0.0, 0.0, 1.0, 2.0, 1.0, 1.0, 2.0];
    let ys: [f64; 7] = [0.0, 6.0, 7.0, 5.0, 2.0, 1.0, 0.0];

    let mut points: Vec<Point> = Vec::new();

    for i in 0..6 {
        let p = point(xs[i], ys[i]);
        points.push(p);
    }

    let res = convex_hull(&points);
    for p in &res {
        println!("{}, {}", wholes(p.x as i64), wholes(p.y as i64));
    }
    assert!(res.len() == 5);
}

#[test]
fn new_keeps_the_coordinates() {
    let p = Point::new(-7, 12);
    assert_eq!(p.x, -7);
    assert_eq!(p.y, 12);
}

#[test]
fn equals_is_exact() {
    let p = Point::new(100, 200);
    assert!(p.equals(&Point::new(100, 200)));
    assert!(!p.equals(&Point::new(101, 200)));
    assert!(!p.equals(&Point::new(100, 199)));
}

#[test]
fn distance_is_exact_on_a_pythagorean_triple() {
    let a = point(0.0, 0.0);
    let b = point(3.0, 4.0);
    assert_eq!(a.distance(&b), 5 * SCALE);
    assert_eq!(a.distance_squared(&b), 25 * (SCALE as i128) * (SCALE as i128));
}

#[test]
fn distance_is_rounded_down() {
    let a = Point::new(0, 0);
    let b = Point::new(1, 1);
    assert_eq!(a.distance_squared(&b), 2);
    assert_eq!(a.distance(&b), 1);
    let c = Point::new(2, 2);
    assert_eq!(a.distance_squared(&c), 8);
    assert_eq!(a.distance(&c), 2);
}

#[test]
fn distance_is_symmetric_and_zero_to_self() {
    let a = point(1.5, -4.25);
    let b = point(-20.0, 7.125);
    assert_eq!(a.distance(&b), b.distance(&a));
    assert_eq!(a.distance_squared(&b), b.distance_squared(&a));
    assert_eq!(a.distance(&a), 0);
    assert_eq!(b.distance_squared(&b), 0);
}

#[test]
fn distance_spans_the_whole_grid() {
    let a = Point::new(i32::MIN, i32::MIN);
    let b = Point::new(i32::MAX, i32::MAX);
    let side: i128 = 0xFFFF_FFFF;
    assert_eq!(a.distance_squared(&b), 2 * side * side);
    let d = a.distance(&b) as i128;
    assert!(d * d <= 2 * side * side);
    assert!((d + 1) * (d + 1) > 2 * side * side);
}

#[test]
fn twice_signed_area_is_exact() {
    let a = point(0.0, 0.0);
    let b = point(4.0, 0.0);
    let c = point(0.0, 3.0);
    let square: i128 = (SCALE as i128) * (SCALE as i128);
    assert_eq!(a.twice_signed_area(&b, &c), 12 * square);
    assert_eq!(a.twice_signed_area(&c, &b), -12 * square);
}

#[test]
fn orientation_swaps_with_the_last_two_points() {
    let a = point(0.0, 0.0);
    let b = point(4.0, 1.0);
    let c = point(2.0, 5.0);
    assert_eq!(a.orientation(&b, &c), 2);
    assert_eq!(a.orientation(&c, &b), 1);
    let d = point(2.0, -5.0);
    assert_eq!(a.orientation(&b, &d), 1);
    assert_eq!(a.orientation(&d, &b), 2);
}

#[test]
fn points_that_share_a_coordinate_are_collinear() {
    let a = point(3.0, -1.0);
    let b = point(3.0, 8.0);
    let c = point(3.0, 2.5);
    assert!(a.collinear(&b, &c));
    assert_eq!(a.orientation(&b, &c), 0);
    let d = point(-4.0, 7.0);
    let e = point(9.0, 7.0);
    let f = point(0.5, 7.0);
    assert!(d.collinear(&e, &f));
    assert_eq!(d.orientation(&e, &f), 0);
}

#[test]
fn collinear_holds_within_the_tolerance_only() {
    let a = Point::new(0, 0);
    let b = Point::new(SCALE as i32, 0);
    // twice the signed area is SCALE * y: below 2 * SCALE only for y < 2
    assert!(a.collinear(&b, &Point::new(2 * SCALE as i32, 1)));
    assert!(!a.collinear(&b, &Point::new(2 * SCALE as i32, 2)));
    assert_eq!(a.orientation(&b, &Point::new(2 * SCALE as i32, 1)), 0);
    assert_eq!(a.orientation(&b, &Point::new(2 * SCALE as i32, 2)), 2);
    assert_eq!(a.orientation(&b, &Point::new(2 * SCALE as i32, -2)), 1);
}

#[test]
fn on_line_follows_the_line_beyond_its_ends() {
    let l = Line::new(point(0.0, 0.0), point(4.0, 4.0), false);
    assert!(point(2.0, 2.0).on_line(&l));
    assert!(point(9.0, 9.0).on_line(&l));
    assert!(!point(2.0, 3.0).on_line(&l));
}

#[test]
fn point_distance_to_line_is_the_lines_distance_to_point() {
    let l = Line::new(point(3.0, 5.0), point(9.0, 0.0), false);
    let p = point(6.0, 4.0);
    assert_eq!(p.distance_to_line(&l), l.distance_to_point(&p));
    assert_eq!(p.distance_to_line(&l), Ok(115233));
}

#[test]
fn isqrt_rounds_down() {
    assert_eq!(isqrt(0), 0);
    assert_eq!(isqrt(1), 1);
    assert_eq!(isqrt(3), 1);
    assert_eq!(isqrt(4), 2);
    assert_eq!(isqrt(99), 9);
    assert_eq!(isqrt(100), 10);
    assert_eq!(isqrt(u128::MAX), u64::MAX);
}

#[test]
fn div_floor_rounds_towards_negative_infinity() {
    assert_eq!(div_floor(7, 2), 3);
    assert_eq!(div_floor(-7, 2), -4);
    assert_eq!(div_floor(-8, 2), -4);
    assert_eq!(div_floor(0, 5), 0);
    assert_eq!(div_floor(-1, 100000), -1);
}

#[test]
fn leftmost_index_prefers_the_higher_then_the_earlier_point() {
    let points = vec![
        point(1.0, 0.0),
        point(0.0, 2.0),
        point(0.0, 5.0),
        point(3.0, 9.0),
        point(0.0, 5.0),
    ];
    assert_eq!(leftmost_index(&points), 2);
    let none: Vec<Point> = Vec::new();
    assert_eq!(leftmost_index(&none), 0);
    assert_eq!(leftmost_index(&vec![point(7.0, 7.0)]), 0);
}

#[test]
fn hull_of_three_points_or_fewer_is_the_input() {
    let points = vec![point(0.0, 0.0), point(1.0, 1.0), point(2.0, 2.0)];
    let hull = convex_hull(&points);
    assert_eq!(hull, points);
    let none: Vec<Point> = Vec::new();
    assert_eq!(convex_hull(&none).len(), 0);
    let one = vec![point(4.0, 4.0)];
    assert_eq!(convex_hull(&one), one);
}

#[test]
fn hull_of_a_square_with_points_inside() {
    let points = vec![
        point(1.0, 1.0),
        point(0.0, 0.0),
        point(4.0, 0.0),
        point(2.0, 3.0),
        point(4.0, 4.0),
        point(0.0, 4.0),
        point(3.0, 1.0),
    ];
    let hull = convex_hull(&points);
    assert_eq!(hull, vec![point(0.0, 4.0), point(0.0, 0.0), point(4.0, 0.0), point(4.0, 4.0)]);
    assert!(hull.len() <= points.len());
}

#[test]
fn hull_edges_have_every_point_on_one_side() {
    let points = vec![
        point(0.0, 0.0),
        point(7.0, 1.0),
        point(9.0, 6.0),
        point(4.0, 10.0),
        point(-2.0, 5.0),
        point(3.0, 4.0),
        point(5.0, 5.0),
        point(2.0, 6.0),
    ];
    let hull = convex_hull(&points);
    assert_eq!(hull.len(), 5);
    for k in 0..hull.len() {
        let next = hull[(k + 1) % hull.len()];
        for p in &points {
            assert_ne!(hull[k].orientation(p, &next), 2);
        }
    }
}

#[test]
fn hull_of_collinear_points_stops_after_one_round() {
    let points = vec![point(0.0, 0.0), point(1.0, 0.0), point(2.0, 0.0), point(3.0, 0.0), point(4.0, 0.0)];
    let hull = convex_hull(&points);
    assert_eq!(hull, points);
}

#[test]
fn hull_never_has_more_vertices_than_points() {
    // the march from the first copy of the leftmost point never comes back
    // to it once it has reached the second copy
    let points = vec![
        point(0.0, 0.0),
        point(0.0, 0.0),
        point(1.0, 1.0),
        point(2.0, 0.0),
        point(1.0, -1.0),
    ];
    let hull = convex_hull(&points);
    assert!(hull.len() <= points.len());
    assert!(hull.len() >= 1);
    assert_eq!(hull[0], point(0.0, 0.0));
}

#[test]
fn next_hull_vertex_starts_from_the_following_point() {
    let points = vec![point(0.0, 0.0), point(1.0, 0.0), point(2.0, 0.0), point(3.0, 0.0)];
    assert_eq!(next_hull_vertex(&points, 0), 1);
    assert_eq!(next_hull_vertex(&points, 3), 0);
    let square = vec![point(0.0, 0.0), point(4.0, 0.0), point(4.0, 4.0), point(0.0, 4.0)];
    assert_eq!(next_hull_vertex(&square, 0), 1);
    assert_eq!(next_hull_vertex(&square, 3), 0);
}

#[test]
fn hull_keeps_a_point_that_the_tolerance_hides() {
    // (1, 0.00001) is within the tolerance of the line from (0, 0) to
    // (1.99999, 0), so the march does not pass it by
    let points = vec![
        Point::new(0, 0),
        Point::new(100000, 1),
        Point::new(199999, 0),
        Point::new(0, 300000),
    ];
    let hull = convex_hull(&points);
    assert_eq!(
        hull,
        vec![Point::new(0, 300000), Point::new(0, 0), Point::new(100000, 1), Point::new(199999, 0)]
    );
}

#[test]
fn hull_of_points_in_general_position_encloses_them() {
    let mut state: u64 = 12345;
    let mut points: Vec<Point> = Vec::new();
    while points.len() < 40 {
        state = state.wrapping_mul(6364136223846793005).wrapping_add(1442695040888963407);
        let x = ((state >> 40) % 2000001) as i32 - 1000000;
        state = state.wrapping_mul(6364136223846793005).wrapping_add(1442695040888963407);
        let y = ((state >> 40) % 2000001) as i32 - 1000000;
        let p = Point::new(x, y);
        let mut clear = true;
        for i in 0..points.len() {
            for j in 0..points.len() {
                if i != j && p.orientation(&points[i], &points[j]) == 0 {
                    clear = false;
                }
            }
        }
        if clear {
            points.push(p);
        }
    }
    let hull = convex_hull(&points);
    assert!(hull.len() >= 3 && hull.len() <= points.len());
    for k in 0..hull.len() {
        let next = hull[(k + 1) % hull.len()];
        for p in &points {
            assert_ne!(hull[k].orientation(p, &next), 2);
        }
        for m in 0..hull.len() {
            assert!(m == k || hull[m] != hull[k]);
        }
    }
    assert_eq!(hull[0], points[leftmost_index(&points)]);
}

#[test]
fn hull_may_keep_an_inner_point_where_points_repeat_on_a_line() {
    // (1, 1) lies inside the triangle (0, 0), (0, 2), (2, 1); the march
    // reaches it from (0, 1), where the first candidate is the second (0, 2)
    let points = vec![
        point(0.0, 0.0),
        point(0.0, 2.0),
        point(0.0, 1.0),
        point(0.0, 2.0),
        point(1.0, 1.0),
        point(2.0, 1.0),
    ];
    let hull = convex_hull(&points);
    assert_eq!(hull, vec![point(0.0, 2.0), point(0.0, 1.0), point(1.0, 1.0), point(2.0, 1.0)]);
}

#[test]
fn hull_keeps_a_point_within_the_tolerance_of_an_edge() {
    // (10, 0) is inside the triangle of the others, and within the
    // tolerance of the lines from (0, 0) to either of the far points
    let points = vec![Point::new(0, 0), Point::new(10, 0), Point::new(30, -1), Point::new(30, 1)];
    let hull = convex_hull(&points);
    assert_eq!(hull.len(), 4);
    assert!(hull.contains(&Point::new(10, 0)));
}

#[test]
fn hull_of_six_points_in_order() {
    let points = vec![
        point(0.0, 0.0),
        point(0.0, 6.0),
        point(1.0, 7.0),
        point(2.0, 5.0),
        point(1.0, 2.0),
        point(1.0, 1.0),
    ];
    let hull = convex_hull(&points);
    assert_eq!(
        hull,
        vec![point(0.0, 6.0), point(0.0, 0.0), point(1.0, 1.0), point(2.0, 5.0), point(1.0, 7.0)]
    );
}

fn stands_clear(points: &Vec<Point>, p: usize) -> bool {
    let o = points[p];
    let next = points[next_hull_vertex(points, p)];
    for i in 0..points.len() {
        for j in 0..points.len() {
            if i == j || i == p || j == p {
                continue;
            }
            let area = o.twice_signed_area(&points[i], &points[j]);
            let dot = (points[i].x as i64 - o.x as i64) * (points[j].x as i64 - o.x as i64)
                + (points[i].y as i64 - o.y as i64) * (points[j].y as i64 - o.y as i64);
            let turns = o.orientation(&points[i], &points[j]) != 0;
            let one_ray = area == 0 && dot > 0;
            let inside = o.orientation(&points[i], &next) == 1 && o.orientation(&points[j], &next) == 1;
            if !turns && !one_ray && !inside {
                return false;
            }
        }
    }
    true
}

fn encloses(hull: &Vec<Point>, points: &Vec<Point>) -> bool {
    for k in 0..hull.len() {
        let next = hull[(k + 1) % hull.len()];
        for p in points {
            if hull[k].twice_signed_area(p, &next) > 0 {
                return false;
            }
        }
    }
    true
}

#[test]
fn hull_of_a_square_with_its_centre() {
    let points = vec![
        point(2.0, 2.0),
        point(0.0, 0.0),
        point(4.0, 0.0),
        point(4.0, 4.0),
        point(0.0, 4.0),
    ];
    let hull = convex_hull(&points);
    assert_eq!(hull, vec![point(0.0, 4.0), point(0.0, 0.0), point(4.0, 0.0), point(4.0, 4.0)]);
    for v in &hull {
        let p = points.iter().position(|q| q == v).unwrap();
        assert!(stands_clear(&points, p));
    }
    assert!(encloses(&hull, &points));
}

#[test]
fn hull_of_a_grid_of_points_with_many_in_line() {
    // the corners of a slanted quadrangle, and points inside it on the rays
    // from its corners
    let corners = [Point::new(0, 0), Point::new(900000, 100000), Point::new(1000000, 1200000), Point::new(-100000, 800000)];
    let mut points: Vec<Point> = Vec::new();
    for c in corners {
        points.push(c);
    }
    for c in corners {
        for d in corners {
            if c != d {
                points.push(Point::new(c.x + (d.x - c.x) / 4 * 2 + (500000 - c.x) / 5, c.y + (d.y - c.y) / 4 * 2 + (500000 - c.y) / 5));
            }
        }
    }
    points.push(Point::new(450000, 550000));
    points.push(Point::new(225000, 275000));
    let hull = convex_hull(&points);
    assert_eq!(hull.len(), 4);
    for v in &hull {
        let p = points.iter().position(|q| q == v).unwrap();
        assert!(stands_clear(&points, p));
        assert!(corners.contains(v));
    }
    assert!(encloses(&hull, &points));
}

#[test]
fn hull_may_repeat_a_point_where_the_tolerance_hides_a_turn() {
    // the three points on the left are within the tolerance of one line,
    // and the march from the far point passes the start by
    let points = vec![
        Point::new(0, 0),
        Point::new(1, 100),
        Point::new(1, -100),
        Point::new(1000000, 0),
        Point::new(500, 0),
    ];
    let hull = convex_hull(&points);
    assert_eq!(hull.len(), points.len());
    let far = hull.iter().filter(|v| **v == Point::new(1000000, 0)).count();
    assert!(far >= 2);
    assert!(!stands_clear(&points, 0));
}

#[test]
fn hull_with_points_nearly_in_line_inside_it() {
    // from the corner (0, 0), two points inside are within the tolerance of
    // one line, without being exactly in line
    let points = vec![
        Point::new(500000, 500001),
        Point::new(0, 0),
        Point::new(100000, 100000),
        Point::new(1000000, 0),
        Point::new(1000000, 1000000),
        Point::new(0, 1000000),
    ];
    let hull = convex_hull(&points);
    assert_eq!(
        hull,
        vec![Point::new(0, 1000000), Point::new(0, 0), Point::new(1000000, 0), Point::new(1000000, 1000000)]
    );
    assert_eq!(points[1].orientation(&points[2], &points[0]), 0);
    assert!(points[1].twice_signed_area(&points[2], &points[0]) != 0);
    for v in &hull {
        let p = points.iter().position(|q| q == v).unwrap();
        assert!(stands_clear(&points, p));
    }
    assert!(encloses(&hull, &points));
}
