use geometry::circle::Circle;
use geometry::error::GeometryError;
use geometry::fixed::SCALE;
use geometry::point::Point;
use geometry::polygon::Polygon;

const EPSILON: f64 = 0.00001;

fn fx(v: f64) -> i32 {
    (v * 100000.0).round() as i32
}

fn fl(v: i64) -> f64 {
    v as f64 / 100000.0
}

fn at(x: f64, y: f64) -> Point {
    Point::new(fx(x), fx(y))
}

#[test]
fn circle_circumference_test() {
    let p1 = at(0.0, 0.0);
    let r: f64 = 6.0;
    let c = Circle::new(p1, fx(r));
    assert!(fl(c.circumference()) - 37.69911 < EPSILON);
}

#[test]
fn circle_area_test() {
    let p1 = at(0.0, 0.0);
    let r: f64 = 6.0;
    let c = Circle::new(p1, fx(r));
    assert!(fl(c.area()) - 226.19467105 < EPSILON);
}

#[test]
fn circle_intersects_circle() {
    let p1 = at(0.0, 0.0);
    let r1: f64 = 6.0;
    let c1 = Circle::new(p1, fx(r1));

    let p2 = at(0.0, 0.0);
    let r2: f64 = 6.0;
    let c2 = Circle::new(p2, fx(r2));

    let p3 = at(10.0, 10.0);
    let r3: f64 = 3.0;
    let c3 = Circle::new(p3, fx(r3));

    let p4 = at(4.0, 4.0);
    let r4: f64 = 7.0;
    let c4 = Circle::new(p4, fx(r4));

    assert!(c1.intersects_circle(&c2));
    assert!(!c1.intersects_circle(&c3));
    assert!(c1.intersects_circle(&c4));
}

#[test]
fn circle_distance_from_circle_test() {
    let p1 = at(0.0, 0.0);
    let r1: f64 = 6.0;
    let c1 = Circle::new(p1, fx(r1));

    let p2 = at(10.0, 10.0);
    let r2: f64 = 9.0;
    let c2 = Circle::new(p2, fx(r2));

    let p3 = at(-10.0, -10.0);
    let r3: f64 = 3.0;
    let c3 = Circle::new(p3, fx(r3));

    assert_eq!(fl(c1.distance_from_circle(&c2)), 0.0);
    assert_eq!(c1.distance_from_circle(&c3), p1.distance(&p3) - fx(r1) as i64 - fx(r3) as i64);
}

#[test]
fn circle_distance_from_point() {
    let p1 = at(0.0, 0.0);
    let r1: f64 = 6.0;
    let c1 = Circle::new(p1, fx(r1));

    let p2 = at(2.0, 1.0);

    let p3 = at(-10.0, -10.0);

    assert_eq!(fl(c1.distance_from_point(&p2)), 0.0);
    assert_eq!(c1.distance_from_point(&p3), p1.distance(&p3) - fx(r1) as i64);
}

#[test]
fn circle_contains_circle_test() {
    let p1 = at(0.0, 0.0);
    let r1: f64 = 6.0;
    let c1 = Circle::new(p1, fx(r1));

    let p2 = at(1.0, 1.0);
    let r2: f64 = 2.0;
    let c2 = Circle::new(p2, fx(r2));

    let p3 = at(6.0, 0.0);
    let r3: f64 = 3.0;
    let c3 = Circle::new(p3, fx(r3));

    let p4 = at(10.0, 10.0);
    let r4: f64 = 2.0;
    let c4 = Circle::new(p4, fx(r4));

    assert!(c1.contains_circle(&c2));
    assert!(!c1.contains_circle(&c3));
    assert!(!c1.contains_circle(&c4));
}

#[test]
fn polygon_area_test() {
    let xs: [f64; 6] = [0.0, 0.0, 1.0, 2.0, 1.0, 2.0];
    let ys: [f64; 6] = [0.0, 6.0, 7.0, 5.0, 2.0, 0.0];

    let mut points: Vec<Point> = Vec::new();

    for i in 0..6 {
        let p = at(xs[i], ys[i]);
        points.push(p);
    }
    let poly = Polygon::from_vec(points);
    assert_eq!(fl(poly.area().unwrap()), 10.0);
}

#[test]
fn radius_that_is_not_positive_becomes_zero() {
    let c = at(3.0, 4.0);
    assert_eq!(Circle::new(c, fx(-1.0)).radius(), 0);
    assert_eq!(Circle::new(c, 0).radius(), 0);
    assert_eq!(Circle::new(c, i32::MIN).radius(), 0);
    assert_eq!(Circle::new(c, 1).radius(), 1);
    assert_eq!(Circle::new(c, fx(2.5)).radius(), 250000);
    assert_eq!(Circle::new(c, fx(2.5)).center(), c);
}

#[test]
fn circumference_and_area_of_radius_six() {
    let c = Circle::new(at(0.0, 0.0), fx(6.0));
    assert!((fl(c.circumference()) - 37.699112).abs() < EPSILON);
    assert!((fl(c.area()) - 113.097336).abs() < EPSILON);
    assert_eq!(c.circumference(), 3769911);
    assert_eq!(c.area(), 11309733);
}

#[test]
fn circumference_and_area_of_the_extreme_radii() {
    let dot = Circle::new(at(0.0, 0.0), 0);
    assert_eq!(dot.circumference(), 0);
    assert_eq!(dot.area(), 0);
    let big = Circle::new(at(0.0, 0.0), i32::MAX);
    assert_eq!(big.circumference(), 13493037698);
    assert_eq!(big.area(), 144880389026612);
}

#[test]
fn circles_that_touch_do_not_intersect() {
    let a = Circle::new(at(0.0, 0.0), fx(2.0));
    let b = Circle::new(at(5.0, 0.0), fx(3.0));
    assert!(!a.intersects_circle(&b));
    assert!(!b.intersects_circle(&a));
    assert_eq!(a.distance_from_circle(&b), 0);
    let c = Circle::new(at(3.0, 4.0), fx(3.0));
    assert!(!a.intersects_circle(&c));
    // one grid unit closer, and they do
    let d = Circle::new(Point::new(fx(5.0) - 1, 0), fx(3.0));
    assert!(a.intersects_circle(&d));
}

#[test]
fn distance_between_circles_is_the_gap() {
    let a = Circle::new(at(0.0, 0.0), fx(1.0));
    let b = Circle::new(at(10.0, 0.0), fx(2.0));
    assert_eq!(a.distance_from_circle(&b), 7 * SCALE);
    // a circle inside another intersects it
    let inner = Circle::new(at(0.0, 0.0), fx(0.5));
    assert_eq!(a.distance_from_circle(&inner), 0);
}

#[test]
fn distance_from_a_point_is_never_negative() {
    let c = Circle::new(at(0.0, 0.0), fx(5.0));
    assert_eq!(c.distance_from_point(&at(0.0, 0.0)), 0);
    assert_eq!(c.distance_from_point(&at(3.0, 4.0)), 0);
    assert_eq!(c.distance_from_point(&at(6.0, 8.0)), 5 * SCALE);
}

#[test]
fn containment_is_strict() {
    let outer = Circle::new(at(0.0, 0.0), fx(5.0));
    let inside = Circle::new(at(1.0, 0.0), fx(3.0));
    let touching = Circle::new(at(2.0, 0.0), fx(3.0));
    assert!(outer.contains_circle(&inside));
    assert!(!outer.contains_circle(&touching));
    assert!(!outer.contains_circle(&outer));
    assert!(!inside.contains_circle(&outer));
}

#[test]
fn polygon_records_the_turn_of_its_first_three_vertices() {
    let cw = Polygon::from_vec(vec![at(0.0, 0.0), at(0.0, 6.0), at(1.0, 7.0), at(2.0, 0.0)]);
    assert!(cw.is_clockwise());
    let ccw = Polygon::from_vec(vec![at(0.0, 0.0), at(2.0, 0.0), at(1.0, 7.0), at(0.0, 6.0)]);
    assert!(!ccw.is_clockwise());
    let flat = Polygon::from_vec(vec![at(0.0, 0.0), at(1.0, 0.0), at(2.0, 0.0), at(0.0, 6.0)]);
    assert!(!flat.is_clockwise());
    assert_eq!(cw.points().len(), 4);
    assert_eq!(cw.points()[2], at(1.0, 7.0));
}

#[test]
fn polygon_area_does_not_depend_on_the_winding() {
    let one = vec![at(0.0, 0.0), at(0.0, 6.0), at(1.0, 7.0), at(2.0, 5.0), at(1.0, 2.0), at(2.0, 0.0)];
    let mut other = one.clone();
    other.reverse();
    assert_eq!(Polygon::from_vec(one).area(), Ok(10 * SCALE));
    assert_eq!(Polygon::from_vec(other).area(), Ok(10 * SCALE));
}

#[test]
fn polygon_area_of_a_triangle_is_rounded_down() {
    // half of 3 * 3 square units is 4.5 square units: far below one scalar unit
    let tiny = Polygon::from_vec(vec![Point::new(0, 0), Point::new(3, 0), Point::new(0, 3)]);
    assert_eq!(tiny.area(), Ok(0));
    let half = Polygon::from_vec(vec![at(0.0, 0.0), at(1.0, 0.0), at(0.0, 1.0)]);
    assert_eq!(half.area(), Ok(SCALE / 2));
    let flat = Polygon::from_vec(vec![at(0.0, 0.0), at(1.0, 1.0), at(2.0, 2.0)]);
    assert_eq!(flat.area(), Ok(0));
}

#[test]
fn polygon_area_too_large_for_a_scalar_is_out_of_range() {
    // a triangle over the whole grid, wound round 150 000 times
    let a = Point::new(i32::MIN, i32::MIN);
    let b = Point::new(i32::MAX, i32::MIN);
    let c = Point::new(0, i32::MAX);
    let mut points: Vec<Point> = Vec::new();
    for _ in 0..150000 {
        points.push(a);
        points.push(b);
        points.push(c);
    }
    assert_eq!(Polygon::from_vec(points).area(), Err(GeometryError::OutOfRange));
    let once = Polygon::from_vec(vec![a, b, c]);
    assert_eq!(once.area(), Ok(92233720325598));
}

#[test]
fn polygon_area_does_not_depend_on_the_first_vertex() {
    let mut vertices = vec![at(0.0, 0.0), at(0.0, 6.0), at(1.0, 7.0), at(2.0, 5.0), at(1.0, 2.0), at(2.0, 0.0)];
    for _ in 0..6 {
        vertices.rotate_left(1);
        assert_eq!(Polygon::from_vec(vertices.clone()).area(), Ok(10 * SCALE));
    }
}
