//! Segments and unbounded lines through two points.

use crate::error::GeometryError;
use crate::error::widen;
use crate::fixed::EPSILON;
use crate::fixed::EPSILON_SQ;
use crate::fixed::SCALE;
use crate::fixed::SPAN;
use crate::fixed::cross_of;
use crate::fixed::diff;
use crate::fixed::div_floor;
use crate::fixed::dot_of;
use crate::fixed::lemma_product_bound;
use crate::fixed::floor_sqrt;
use crate::fixed::lemma_floor_sqrt_at_least;
use crate::fixed::lemma_floor_sqrt_exists;
use crate::fixed::magnitude;
use crate::fixed::product;
use crate::point::Point;
use crate::point::cross;
use crate::point::dist;
use crate::point::dist2;
use crate::point::orientation;
use crate::wide::floor_ratio;
use crate::wide::is_floor_ratio;
use crate::wide::lemma_floor_ratio_exists;
use crate::wide::lemma_floor_ratio_unique;
use crate::wide::ratio_root;
use vstd::math::abs;
use vstd::prelude::*;

verus! {

/// The segment from `p1` to `p2` or, where `infinite` is set, the unbounded
/// line through them. Nothing forbids `p1 == p2`; the queries that need a
/// direction report such a line as degenerate.
#[derive(Copy, Clone, Debug, PartialEq, Eq, Structural)]
pub struct Line {
    pub p1: Point,
    pub p2: Point,
    pub infinite: bool,
}

/// The dot product of the vectors from `a` to `b` and from `c` to `d`.
pub open spec fn dot(a: Point, b: Point, c: Point, d: Point) -> int {
    (b.x - a.x) * (d.x - c.x) + (b.y - a.y) * (d.y - c.y)
}

/// The cross product of the directions of `l` and `m`.
pub open spec fn direction_cross(l: Line, m: Line) -> int {
    (l.p2.x - l.p1.x) * (m.p2.y - m.p1.y) - (l.p2.y - l.p1.y) * (m.p2.x - m.p1.x)
}

/// The quotient of `n` by a non-zero `d`, rounded towards negative infinity.
pub open spec fn floor_div(n: int, d: int) -> int {
    if d > 0 {
        n / d
    } else {
        (-n) / (-d)
    }
}

/// The smaller of two scalar results; an error on either side wins, the
/// left one first.
pub open spec fn least(a: Result<int, GeometryError>, b: Result<int, GeometryError>) -> Result<
    int,
    GeometryError,
> {
    match (a, b) {
        (Err(e), _) => Err(e),
        (_, Err(e)) => Err(e),
        (Ok(x), Ok(y)) => Ok(
            if x <= y {
                x
            } else {
                y
            },
        ),
    }
}

impl Line {
    /// The second point of the line `y = m x + b` that starts at `p1`: one
    /// whole further along the x axis. The product is rounded down.
    pub open spec fn equation_point(m: i64, b: i64, p1: Point) -> (int, int) {
        (p1.x + SCALE, (m * (p1.x + SCALE)) / (SCALE as int) + b)
    }

    /// What `length` answers.
    pub open spec fn spec_length(self) -> Result<int, GeometryError> {
        if self.infinite {
            Err(GeometryError::InfiniteLine)
        } else {
            Ok(dist(self.p1, self.p2))
        }
    }

    /// The distance from `p` to the unbounded line through `p1` and `p2`,
    /// rounded down to the grid: the largest `d` with
    /// `d * d * |p2 - p1|^2 <= cross^2`, which is the integer part of the
    /// magnitude of the cross product over the exact length. A line whose
    /// two points are no further apart than the tolerance has none.
    pub open spec fn perpendicular_distance(self, p: Point) -> Result<int, GeometryError> {
        if dist2(self.p1, self.p2) > EPSILON * EPSILON {
            Ok(floor_ratio(cross(self.p1, self.p2, p), dist2(self.p1, self.p2)))
        } else {
            Err(GeometryError::DegenerateLine)
        }
    }

    /// What `distance_to_point` answers. For a segment the sign of a dot
    /// product tells, exactly, whether the foot of `p` falls before the
    /// first end or beyond the second; the distance is then the distance to
    /// that end.
    pub open spec fn spec_distance_to_point(self, p: Point) -> Result<int, GeometryError> {
        if !self.infinite && dot(self.p1, self.p2, p, self.p1) > 0 {
            Ok(dist(self.p1, p))
        } else if !self.infinite && dot(self.p1, self.p2, self.p2, p) > 0 {
            Ok(dist(p, self.p2))
        } else {
            self.perpendicular_distance(p)
        }
    }

    /// The directions of the two lines agree up to the tolerance.
    pub open spec fn spec_is_parallel(self, other: Line) -> bool {
        abs(direction_cross(self, other)) < EPSILON_SQ
    }

    /// `a` and `b` lie strictly on opposite sides of the unbounded line
    /// through `p1` and `p2`.
    pub open spec fn separates(self, a: Point, b: Point) -> bool {
        let sa = cross(self.p1, self.p2, a);
        let sb = cross(self.p1, self.p2, b);
        (sa < 0 && sb > 0) || (sa > 0 && sb < 0)
    }

    /// What `intersects` answers.
    pub open spec fn spec_intersects(self, other: Line) -> bool {
        if self.infinite && other.infinite && !self.spec_is_parallel(other) {
            true
        } else if self.infinite {
            self.separates(other.p1, other.p2)
        } else if other.infinite {
            other.separates(self.p1, self.p2)
        } else {
            orientation(self.p1, self.p2, other.p1) != orientation(self.p1, self.p2, other.p2)
                && orientation(other.p1, other.p2, self.p1) != orientation(
                other.p1,
                other.p2,
                self.p2,
            )
        }
    }

    /// What `distance_to_line` answers.
    pub open spec fn spec_distance_to_line(self, other: Line) -> Result<int, GeometryError> {
        if self.spec_is_parallel(other) {
            self.spec_distance_to_point(other.p1)
        } else if self.spec_intersects(other) {
            Ok(0)
        } else {
            least(
                self.spec_distance_to_point(other.p1),
                least(
                    self.spec_distance_to_point(other.p2),
                    least(
                        other.spec_distance_to_point(self.p1),
                        other.spec_distance_to_point(self.p2),
                    ),
                ),
            )
        }
    }

    /// The coefficient `a` of the line's equation `a x + b y = c`.
    pub open spec fn coef_a(self) -> int {
        self.p2.y - self.p1.y
    }

    /// The coefficient `b` of the line's equation `a x + b y = c`.
    pub open spec fn coef_b(self) -> int {
        self.p1.x - self.p2.x
    }

    /// The right-hand side `c` of the line's equation `a x + b y = c`.
    pub open spec fn coef_c(self) -> int {
        self.coef_a() * self.p1.x + self.coef_b() * self.p1.y
    }

    /// The determinant of the two lines' equations.
    pub open spec fn determinant(self, other: Line) -> int {
        self.coef_a() * other.coef_b() - other.coef_a() * self.coef_b()
    }

    /// The solution of the two lines' equations by Cramer's rule, each
    /// coordinate rounded down. Meaningful where the determinant is not zero.
    pub open spec fn crossing(self, other: Line) -> (int, int) {
        let d = self.determinant(other);
        (
            floor_div(other.coef_b() * self.coef_c() - self.coef_b() * other.coef_c(), d),
            floor_div(self.coef_a() * other.coef_c() - other.coef_a() * self.coef_c(), d),
        )
    }

    /// What `intersection` answers.
    pub open spec fn spec_intersection(self, other: Line) -> Result<Point, GeometryError> {
        let (x, y) = self.crossing(other);
        if abs(self.determinant(other)) < EPSILON_SQ {
            Err(GeometryError::ParallelLines)
        } else if i32::MIN <= x <= i32::MAX && i32::MIN <= y <= i32::MAX {
            Ok(Point { x: x as i32, y: y as i32 })
        } else {
            Err(GeometryError::OutOfRange)
        }
    }

    /// The line through `p1` and `p2`: a segment, or unbounded where
    /// `infinite` is set.
    pub fn new(p1: Point, p2: Point, infinite: bool) -> (line: Line)
        ensures
            line == (Line { p1, p2, infinite }),
    {
        Line { p1, p2, infinite }
    }

    /// The unbounded line `y = m x + b`, through `p1` and the point one whole
    /// further along the x axis, or `None` where that point is off the grid.
    pub fn from_equation(m: i64, b: i64, p1: Point) -> (line: Option<Line>)
        ensures
            ({
                let (x, y) = Line::equation_point(m, b, p1);
                if i32::MIN <= x <= i32::MAX && i32::MIN <= y <= i32::MAX {
                    line == Some(Line { p1, p2: Point { x: x as i32, y: y as i32 }, infinite: true })
                } else {
                    line.is_none()
                }
            }),
    {
        let x: i64 = p1.x as i64 + SCALE;
        proof {
            lemma_product_bound(m as int, x as int, 0x8000_0000_0000_0000, 0x1_0000_0000);
        }
        let y: i128 = div_floor((m as i128) * (x as i128), SCALE as i128) + (b as i128);
        if x <= i32::MAX as i64 && i32::MIN as i128 <= y && y <= i32::MAX as i128 {
            Some(Line { p1, p2: Point { x: x as i32, y: y as i32 }, infinite: true })
        } else {
            None
        }
    }

    /// The line through `(x1, y1)` and `(x2, y2)`.
    pub fn from_coordinates(x1: i32, y1: i32, x2: i32, y2: i32, infinite: bool) -> (line: Line)
        ensures
            line == (Line { p1: Point { x: x1, y: y1 }, p2: Point { x: x2, y: y2 }, infinite }),
    {
        Line::new(Point::new(x1, y1), Point::new(x2, y2), infinite)
    }

    /// The length of a segment; an unbounded line has none.
    pub fn length(&self) -> (len: Result<i64, GeometryError>)
        ensures
            widen(len) == self.spec_length(),
    {
        if self.infinite {
            return Err(GeometryError::InfiniteLine);
        }
        Ok(self.p1.distance(&self.p2))
    }

    /// The distance from `p` to the line, rounded down to the grid once: for
    /// the foot of `p` on the line it is the integer part of the exact
    /// quotient of the cross product by the length. For a segment, a point
    /// whose foot falls beyond an end is measured to that end.
    pub fn distance_to_point(&self, p: &Point) -> (d: Result<i64, GeometryError>)
        ensures
            widen(d) == self.spec_distance_to_point(*p),
    {
        let dx: i64 = diff(self.p2.x, self.p1.x);
        let dy: i64 = diff(self.p2.y, self.p1.y);
        if !self.infinite {
            if dot_of(dx, dy, diff(self.p1.x, p.x), diff(self.p1.y, p.y)) > 0 {
                return Ok(self.p1.distance(p));
            }
            if dot_of(dx, dy, diff(p.x, self.p2.x), diff(p.y, self.p2.y)) > 0 {
                return Ok(p.distance(&self.p2));
            }
        }
        let ex: i64 = diff(p.x, self.p1.x);
        let ey: i64 = diff(p.y, self.p1.y);
        let len2: i128 = product(dx, dx) + product(dy, dy);
        proof {
            lemma_square_of_difference(self.p1.x as int, self.p2.x as int);
            lemma_square_of_difference(self.p1.y as int, self.p2.y as int);
            assert(len2 == dist2(self.p1, self.p2));
        }
        let tolerance: i128 = EPSILON as i128;
        proof {
            assert(tolerance * tolerance == 1 && EPSILON * EPSILON == 1) by (nonlinear_arith)
                requires
                    tolerance == 1,
                    EPSILON == 1,
            ;
        }
        if len2 <= tolerance * tolerance {
            return Err(GeometryError::DegenerateLine);
        }
        let c: i128 = cross_of(dx, dy, ex, ey);
        let num: i128 = magnitude(c);
        proof {
            lemma_cross_within_reach(dx as int, dy as int, ex as int, ey as int);
            assert(num * num == c * c) by (nonlinear_arith)
                requires
                    num == c || num == -c,
            ;
        }
        let d: u64 = ratio_root(num as u128, len2 as u128);
        proof {
            assert(is_floor_ratio(c as int, len2 as int, d as int));
            lemma_floor_ratio_unique(c as int, len2 as int, d as int);
        }
        Ok(d as i64)
    }

    /// The distance between two lines: for parallel lines the distance from
    /// `other.p1` to this line, for lines that meet 0, else the least distance
    /// from an end of one to the other.
    pub fn distance_to_line(&self, other: &Line) -> (d: Result<i64, GeometryError>)
        ensures
            widen(d) == self.spec_distance_to_line(*other),
    {
        if self.is_parallel(other) {
            return self.distance_to_point(&other.p1);
        }
        if self.intersects(other) {
            return Ok(0);
        }
        let d1: i64 = self.distance_to_point(&other.p1)?;
        let d2: i64 = self.distance_to_point(&other.p2)?;
        let d3: i64 = other.distance_to_point(&self.p1)?;
        let d4: i64 = other.distance_to_point(&self.p2)?;
        let d34: i64 = if d3 <= d4 { d3 } else { d4 };
        let d234: i64 = if d2 <= d34 { d2 } else { d34 };
        Ok(if d1 <= d234 { d1 } else { d234 })
    }

    /// Whether the two lines have the same direction, up to the tolerance.
    pub fn is_parallel(&self, other: &Line) -> (par: bool)
        ensures
            par == self.spec_is_parallel(*other),
    {
        let c: i128 = cross_of(
            diff(self.p2.x, self.p1.x),
            diff(self.p2.y, self.p1.y),
            diff(other.p2.x, other.p1.x),
            diff(other.p2.y, other.p1.y),
        );
        magnitude(c) < EPSILON_SQ
    }

    /// Which side of the unbounded line through `p1` and `p2` the point `q`
    /// is on, by the sign of the cross product.
    fn side(&self, q: &Point) -> (s: i128)
        ensures
            s == cross(self.p1, self.p2, *q),
    {
        cross_of(
            diff(self.p2.x, self.p1.x),
            diff(self.p2.y, self.p1.y),
            diff(q.x, self.p1.x),
            diff(q.y, self.p1.y),
        )
    }

    /// Whether `a` and `b` lie strictly on opposite sides of the unbounded
    /// line through `p1` and `p2`.
    fn divides(&self, a: &Point, b: &Point) -> (sep: bool)
        ensures
            sep == self.separates(*a, *b),
    {
        let sa: i128 = self.side(a);
        let sb: i128 = self.side(b);
        (sa < 0 && sb > 0) || (sa > 0 && sb < 0)
    }

    /// Whether the two lines meet. Two unbounded lines meet unless they are
    /// parallel; an unbounded line meets another where it separates the
    /// other's two points; two segments meet where each separates the ends of
    /// the other by orientation.
    pub fn intersects(&self, other: &Line) -> (meet: bool)
        ensures
            meet == self.spec_intersects(*other),
    {
        if self.infinite && other.infinite && !self.is_parallel(other) {
            return true;
        }
        if self.infinite {
            return self.divides(&other.p1, &other.p2);
        } else if other.infinite {
            return other.divides(&self.p1, &self.p2);
        }
        let o1: i32 = self.p1.orientation(&self.p2, &other.p1);
        let o2: i32 = self.p1.orientation(&self.p2, &other.p2);
        let o3: i32 = other.p1.orientation(&other.p2, &self.p1);
        let o4: i32 = other.p1.orientation(&other.p2, &self.p2);
        o1 != o2 && o3 != o4
    }

    /// The coefficients `a`, `b` and `c` of the line's equation
    /// `a x + b y = c`.
    fn equation(&self) -> (abc: (i128, i128, i128))
        ensures
            abc.0 == self.coef_a(),
            abc.1 == self.coef_b(),
            abc.2 == self.coef_c(),
            -SPAN <= abc.0 <= SPAN,
            -SPAN <= abc.1 <= SPAN,
            -2 * (SPAN * 0x8000_0000) <= abc.2 <= 2 * (SPAN * 0x8000_0000),
    {
        let a: i64 = diff(self.p2.y, self.p1.y);
        let b: i64 = diff(self.p1.x, self.p2.x);
        proof {
            lemma_product_bound(a as int, self.p1.x as int, SPAN as int, 0x8000_0000);
            lemma_product_bound(b as int, self.p1.y as int, SPAN as int, 0x8000_0000);
        }
        let c: i128 = (a as i128) * (self.p1.x as i128) + (b as i128) * (self.p1.y as i128);
        (a as i128, b as i128, c)
    }

    /// The point where the two lines' equations are both met, each
    /// coordinate rounded down to the grid. Parallel lines have none, and a
    /// crossing may lie off the grid.
    pub fn intersection(&self, other: &Line) -> (p: Result<Point, GeometryError>)
        ensures
            p == self.spec_intersection(*other),
    {
        let (a1, b1, c1) = self.equation();
        let (a2, b2, c2) = other.equation();
        proof {
            lemma_product_bound(a1 as int, b2 as int, SPAN as int, SPAN as int);
            lemma_product_bound(a2 as int, b1 as int, SPAN as int, SPAN as int);
            lemma_product_bound(b2 as int, c1 as int, SPAN as int, 2 * (SPAN * 0x8000_0000));
            lemma_product_bound(b1 as int, c2 as int, SPAN as int, 2 * (SPAN * 0x8000_0000));
            lemma_product_bound(a1 as int, c2 as int, SPAN as int, 2 * (SPAN * 0x8000_0000));
            lemma_product_bound(a2 as int, c1 as int, SPAN as int, 2 * (SPAN * 0x8000_0000));
        }
        let d: i128 = a1 * b2 - a2 * b1;
        if magnitude(d) < EPSILON_SQ {
            return Err(GeometryError::ParallelLines);
        }
        let nx: i128 = b2 * c1 - b1 * c2;
        let ny: i128 = a1 * c2 - a2 * c1;
        let x: i128 = if d > 0 { div_floor(nx, d) } else { div_floor(-nx, -d) };
        let y: i128 = if d > 0 { div_floor(ny, d) } else { div_floor(-ny, -d) };
        if i32::MIN as i128 <= x && x <= i32::MAX as i128 && i32::MIN as i128 <= y && y
            <= i32::MAX as i128 {
            Ok(Point { x: x as i32, y: y as i32 })
        } else {
            Err(GeometryError::OutOfRange)
        }
    }
}

/// The square of a difference does not depend on its direction.
pub(crate) proof fn lemma_square_of_difference(a: int, b: int)
    ensures
        (a - b) * (a - b) == (b - a) * (b - a),
        (a - b) * (a - b) >= 0,
{
    assert((a - b) * (a - b) == (b - a) * (b - a) && (a - b) * (a - b) >= 0) by (nonlinear_arith);
}

/// The squares of the dot product and of the cross product of two vectors
/// add up to the product of the squares of their lengths.
pub proof fn lemma_lagrange(dx: int, dy: int, ex: int, ey: int)
    ensures
        (dx * dx + dy * dy) * (ex * ex + ey * ey) == (dx * ex + dy * ey) * (dx * ex + dy * ey) + (dx
            * ey - dy * ex) * (dx * ey - dy * ex),
{
    let a = dx * ex;
    let b = dy * ey;
    let c = dx * ey;
    let d = dy * ex;
    let x = dx * dx;
    let y = dy * dy;
    let u = ex * ex;
    let v = ey * ey;
    assert((x + y) * (u + v) == x * u + x * v + y * u + y * v) by (nonlinear_arith);
    assert((a + b) * (a + b) == a * a + 2 * (a * b) + b * b) by (nonlinear_arith);
    assert((c - d) * (c - d) == c * c - 2 * (c * d) + d * d) by (nonlinear_arith);
    assert((dx * ex) * (dy * ey) == (dx * ey) * (dy * ex)) by (nonlinear_arith);
    assert((dx * ex) * (dx * ex) == (dx * dx) * (ex * ex)) by (nonlinear_arith);
    assert((dy * ey) * (dy * ey) == (dy * dy) * (ey * ey)) by (nonlinear_arith);
    assert((dx * ey) * (dx * ey) == (dx * dx) * (ey * ey)) by (nonlinear_arith);
    assert((dy * ex) * (dy * ex) == (dy * dy) * (ex * ex)) by (nonlinear_arith);
}

/// The square of the cross product of two vectors is at most the product
/// of the squares of their lengths.
pub proof fn lemma_cross_at_most_lengths(dx: int, dy: int, ex: int, ey: int)
    ensures
        (dx * ey - dy * ex) * (dx * ey - dy * ex) <= (dx * dx + dy * dy) * (ex * ex + ey * ey),
{
    lemma_lagrange(dx, dy, ex, ey);
    let t = dx * ex + dy * ey;
    assert(t * t >= 0) by (nonlinear_arith);
}

/// The cross product of a direction with a difference vector, over the
/// length of the direction, stays below twice the span of the grid.
proof fn lemma_cross_within_reach(dx: int, dy: int, ex: int, ey: int)
    requires
        -SPAN <= ex <= SPAN,
        -SPAN <= ey <= SPAN,
    ensures
        (dx * ey - dy * ex) * (dx * ey - dy * ex) < 0x4_0000_0000_0000_0000 * (dx * dx + dy * dy)
            || dx * dx + dy * dy <= 0,
{
    lemma_cross_at_most_lengths(dx, dy, ex, ey);
    lemma_product_bound(ex, ex, SPAN as int, SPAN as int);
    lemma_product_bound(ey, ey, SPAN as int, SPAN as int);
    let l = dx * dx + dy * dy;
    let e = ex * ex + ey * ey;
    if l > 0 {
        assert(l * e < 0x4_0000_0000_0000_0000 * l) by (nonlinear_arith)
            requires
                l > 0,
                e < 0x4_0000_0000_0000_0000,
        ;
    }
}

/// The distance from a point to the unbounded line through two points is
/// no more than its distance to either of the two.
pub proof fn lemma_perpendicular_within_ends(l: Line, p: Point)
    requires
        l.perpendicular_distance(p).is_ok(),
    ensures
        0 <= l.perpendicular_distance(p).unwrap() <= dist(l.p1, p),
        l.perpendicular_distance(p).unwrap() <= dist(p, l.p2),
{
    let dx = l.p2.x - l.p1.x;
    let dy = l.p2.y - l.p1.y;
    let ex = p.x - l.p1.x;
    let ey = p.y - l.p1.y;
    let fx = p.x - l.p2.x;
    let fy = p.y - l.p2.y;
    let len2 = dist2(l.p1, l.p2);
    let c = cross(l.p1, l.p2, p);
    lemma_square_of_difference(l.p1.x as int, l.p2.x as int);
    lemma_square_of_difference(l.p1.y as int, l.p2.y as int);
    lemma_square_of_difference(l.p1.x as int, p.x as int);
    lemma_square_of_difference(l.p1.y as int, p.y as int);
    lemma_square_of_difference(p.x as int, l.p2.x as int);
    lemma_square_of_difference(p.y as int, l.p2.y as int);
    assert(EPSILON * EPSILON == 1) by (nonlinear_arith)
        requires
            EPSILON == 1,
    ;
    lemma_floor_ratio_exists(c, len2);
    let d = floor_ratio(c, len2);
    assert(dx * fy - dy * fx == dx * ey - dy * ex) by (nonlinear_arith)
        requires
            fx == ex - dx,
            fy == ey - dy,
    ;
    lemma_cross_at_most_lengths(dx, dy, ex, ey);
    lemma_cross_at_most_lengths(dx, dy, fx, fy);
    lemma_root_within(d, len2, dist2(l.p1, p));
    lemma_root_within(d, len2, dist2(p, l.p2));
}

/// Where `d * d * l` is at most `l * e`, `d` is at most the root of `e`.
proof fn lemma_root_within(d: int, l: int, e: int)
    requires
        d >= 0,
        l > 0,
        e >= 0,
        d * d * l <= l * e,
    ensures
        d <= floor_sqrt(e),
{
    assert(d * d <= e) by (nonlinear_arith)
        requires
            l > 0,
            d * d * l <= l * e,
    ;
    lemma_floor_sqrt_exists(e);
    lemma_floor_sqrt_at_least(e, floor_sqrt(e), d);
}

/// A segment is no nearer to a point than the unbounded line through it.
pub proof fn lemma_segment_no_nearer_than_line(l: Line, p: Point)
    requires
        l.perpendicular_distance(p).is_ok(),
    ensures
        (Line { p1: l.p1, p2: l.p2, infinite: false }).spec_distance_to_point(p).is_ok(),
        (Line { p1: l.p1, p2: l.p2, infinite: true }).spec_distance_to_point(p).unwrap() <= (Line {
            p1: l.p1,
            p2: l.p2,
            infinite: false,
        }).spec_distance_to_point(p).unwrap(),
{
    lemma_perpendicular_within_ends(l, p);
}

/// The square of the distance from `p` to the point of the line at the
/// fraction `a / b` of the way from `p1` to `p2`, times the square of `b`.
pub open spec fn scaled_gap(l: Line, p: Point, a: int, b: int) -> int {
    (b * (p.x - l.p1.x) - a * (l.p2.x - l.p1.x)) * (b * (p.x - l.p1.x) - a * (l.p2.x - l.p1.x)) + (b
        * (p.y - l.p1.y) - a * (l.p2.y - l.p1.y)) * (b * (p.y - l.p1.y) - a * (l.p2.y - l.p1.y))
}

/// The square of the length of `b e - a d`, for vectors `e` and `d`.
proof fn lemma_combination_square(b: int, a: int, ex: int, ey: int, dx: int, dy: int)
    ensures
        (b * ex - a * dx) * (b * ex - a * dx) + (b * ey - a * dy) * (b * ey - a * dy) == (b * b) * (ex
            * ex + ey * ey) - 2 * ((a * b) * (ex * dx + ey * dy)) + (a * a) * (dx * dx + dy * dy),
{
    let u = b * ex;
    let v = a * dx;
    let w = b * ey;
    let z = a * dy;
    assert((u - v) * (u - v) == u * u - 2 * (u * v) + v * v) by (nonlinear_arith);
    assert((w - z) * (w - z) == w * w - 2 * (w * z) + z * z) by (nonlinear_arith);
    assert((b * ex) * (b * ex) == (b * b) * (ex * ex)) by (nonlinear_arith);
    assert((b * ey) * (b * ey) == (b * b) * (ey * ey)) by (nonlinear_arith);
    assert((a * dx) * (a * dx) == (a * a) * (dx * dx)) by (nonlinear_arith);
    assert((a * dy) * (a * dy) == (a * a) * (dy * dy)) by (nonlinear_arith);
    assert((b * ex) * (a * dx) == (a * b) * (ex * dx)) by (nonlinear_arith);
    assert((b * ey) * (a * dy) == (a * b) * (ey * dy)) by (nonlinear_arith);
    let bb = b * b;
    let aa = a * a;
    let ab = a * b;
    assert(bb * (ex * ex + ey * ey) == bb * (ex * ex) + bb * (ey * ey)) by (nonlinear_arith);
    assert(aa * (dx * dx + dy * dy) == aa * (dx * dx) + aa * (dy * dy)) by (nonlinear_arith);
    assert(ab * (ex * dx + ey * dy) == ab * (ex * dx) + ab * (ey * dy)) by (nonlinear_arith);
}

/// A sum of three terms, the last two of which are not negative, is at
/// least the first; the first is a square times a number at least `d * d`.
proof fn lemma_gap_at_least(d: int, bb: int, e: int, mixed: int, rest: int)
    requires
        bb >= 0,
        0 <= d * d <= e,
        mixed >= 0,
        rest >= 0,
    ensures
        d * d * bb <= bb * e + mixed + rest,
{
    assert(d * d * bb <= bb * e) by (nonlinear_arith)
        requires
            bb >= 0,
            d * d <= e,
    ;
}

/// No point of a line is nearer to `p` than the distance that
/// `distance_to_point` answers: not the point at any fraction of the way
/// from `p1` to `p2`, for an unbounded line, and not the point at any
/// fraction from 0 to 1, for a segment.
pub proof fn lemma_no_point_nearer(l: Line, p: Point, a: int, b: int)
    requires
        l.spec_distance_to_point(p).is_ok(),
        b > 0,
        l.infinite || 0 <= a <= b,
    ensures
        l.spec_distance_to_point(p).unwrap() >= 0,
        l.spec_distance_to_point(p).unwrap() * l.spec_distance_to_point(p).unwrap() * (b * b)
            <= scaled_gap(l, p, a, b),
{
    let d = l.spec_distance_to_point(p).unwrap();
    let dx = l.p2.x - l.p1.x;
    let dy = l.p2.y - l.p1.y;
    let ex = p.x - l.p1.x;
    let ey = p.y - l.p1.y;
    let len2 = dx * dx + dy * dy;
    let e2 = ex * ex + ey * ey;
    let ed = ex * dx + ey * dy;
    let bb = b * b;
    lemma_square_of_difference(l.p1.x as int, l.p2.x as int);
    lemma_square_of_difference(l.p1.y as int, l.p2.y as int);
    lemma_square_of_difference(l.p1.x as int, p.x as int);
    lemma_square_of_difference(l.p1.y as int, p.y as int);
    lemma_square_of_difference(p.x as int, l.p2.x as int);
    lemma_square_of_difference(p.y as int, l.p2.y as int);
    assert(bb > 0) by (nonlinear_arith)
        requires
            b > 0,
            bb == b * b,
    ;
    assert(a * a >= 0) by (nonlinear_arith);
    if !l.infinite && dot(l.p1, l.p2, p, l.p1) > 0 {
        assert(dot(l.p1, l.p2, p, l.p1) == -ed) by (nonlinear_arith)
            requires
                dot(l.p1, l.p2, p, l.p1) == dx * (l.p1.x - p.x) + dy * (l.p1.y - p.y),
                ed == ex * dx + ey * dy,
                ex == p.x - l.p1.x,
                ey == p.y - l.p1.y,
        ;
        lemma_floor_sqrt_exists(dist2(l.p1, p));
        lemma_combination_square(b, a, ex, ey, dx, dy);
        assert(-2 * ((a * b) * ed) >= 0) by (nonlinear_arith)
            requires
                a >= 0,
                b > 0,
                ed < 0,
        ;
        assert((a * a) * len2 >= 0) by (nonlinear_arith)
            requires
                a * a >= 0,
                len2 >= 0,
        ;
        lemma_gap_at_least(d, bb, e2, -2 * ((a * b) * ed), (a * a) * len2);
    } else if !l.infinite && dot(l.p1, l.p2, l.p2, p) > 0 {
        let fx = p.x - l.p2.x;
        let fy = p.y - l.p2.y;
        let f2 = fx * fx + fy * fy;
        let fd = fx * dx + fy * dy;
        let c = a - b;
        assert(dot(l.p1, l.p2, l.p2, p) == fd) by (nonlinear_arith)
            requires
                dot(l.p1, l.p2, l.p2, p) == dx * fx + dy * fy,
                fd == fx * dx + fy * dy,
        ;
        lemma_floor_sqrt_exists(dist2(p, l.p2));
        lemma_combination_square(b, c, fx, fy, dx, dy);
        assert(b * fx - c * dx == b * ex - a * dx && b * fy - c * dy == b * ey - a * dy)
            by (nonlinear_arith)
            requires
                fx == ex - dx,
                fy == ey - dy,
                c == a - b,
        ;
        assert(-2 * ((c * b) * fd) >= 0) by (nonlinear_arith)
            requires
                c <= 0,
                b > 0,
                fd > 0,
        ;
        assert((c * c) * len2 >= 0) by (nonlinear_arith)
            requires
                len2 >= 0,
        ;
        lemma_gap_at_least(d, bb, f2, -2 * ((c * b) * fd), (c * c) * len2);
    } else {
        let c = cross(l.p1, l.p2, p);
        let gx = b * ex - a * dx;
        let gy = b * ey - a * dy;
        assert(EPSILON * EPSILON == 1) by (nonlinear_arith)
            requires
                EPSILON == 1,
        ;
        lemma_floor_ratio_exists(c, len2);
        lemma_cross_at_most_lengths(dx, dy, gx, gy);
        assert(dx * gy - dy * gx == b * c) by (nonlinear_arith)
            requires
                gx == b * ex - a * dx,
                gy == b * ey - a * dy,
                c == dx * ey - dy * ex,
        ;
        assert((b * c) * (b * c) == bb * (c * c)) by (nonlinear_arith)
            requires
                bb == b * b,
        ;
        let g2 = gx * gx + gy * gy;
        assert(d * d * bb <= g2) by (nonlinear_arith)
            requires
                d * d * len2 <= c * c,
                bb * (c * c) <= len2 * g2,
                len2 > 0,
                bb > 0,
        ;
    }
}

/// Some point of a line is less than one grid unit further from `p` than
/// the distance that `distance_to_point` answers: an end of a segment, or
/// the foot of `p` on the line.
pub proof fn lemma_some_point_near(l: Line, p: Point)
    requires
        l.spec_distance_to_point(p).is_ok(),
    ensures
        exists|a: int, b: int|
            b > 0 && (l.infinite || 0 <= a <= b) && #[trigger] scaled_gap(l, p, a, b) < (
            l.spec_distance_to_point(p).unwrap() + 1) * (l.spec_distance_to_point(p).unwrap() + 1)
                * (b * b),
{
    let d = l.spec_distance_to_point(p).unwrap();
    let dx = l.p2.x - l.p1.x;
    let dy = l.p2.y - l.p1.y;
    let ex = p.x - l.p1.x;
    let ey = p.y - l.p1.y;
    let len2 = dx * dx + dy * dy;
    let ed = ex * dx + ey * dy;
    lemma_square_of_difference(l.p1.x as int, l.p2.x as int);
    lemma_square_of_difference(l.p1.y as int, l.p2.y as int);
    lemma_square_of_difference(l.p1.x as int, p.x as int);
    lemma_square_of_difference(l.p1.y as int, p.y as int);
    lemma_square_of_difference(p.x as int, l.p2.x as int);
    lemma_square_of_difference(p.y as int, l.p2.y as int);
    if !l.infinite && dot(l.p1, l.p2, p, l.p1) > 0 {
        lemma_floor_sqrt_exists(dist2(l.p1, p));
        assert(scaled_gap(l, p, 0, 1) == ex * ex + ey * ey) by (nonlinear_arith)
            requires
                scaled_gap(l, p, 0, 1) == (1 * ex - 0 * dx) * (1 * ex - 0 * dx) + (1 * ey - 0 * dy)
                    * (1 * ey - 0 * dy),
        ;
        assert((d + 1) * (d + 1) * (1 * 1) == (d + 1) * (d + 1)) by (nonlinear_arith);
        assert(scaled_gap(l, p, 0, 1) < (d + 1) * (d + 1) * (1 * 1));
    } else if !l.infinite && dot(l.p1, l.p2, l.p2, p) > 0 {
        lemma_floor_sqrt_exists(dist2(p, l.p2));
        assert(scaled_gap(l, p, 1, 1) == dist2(p, l.p2)) by (nonlinear_arith)
            requires
                scaled_gap(l, p, 1, 1) == (1 * ex - 1 * dx) * (1 * ex - 1 * dx) + (1 * ey - 1 * dy)
                    * (1 * ey - 1 * dy),
                dist2(p, l.p2) == (p.x - l.p2.x) * (p.x - l.p2.x) + (p.y - l.p2.y) * (p.y
                    - l.p2.y),
                ex - dx == p.x - l.p2.x,
                ey - dy == p.y - l.p2.y,
        ;
        assert((d + 1) * (d + 1) * (1 * 1) == (d + 1) * (d + 1)) by (nonlinear_arith);
        assert(scaled_gap(l, p, 1, 1) < (d + 1) * (d + 1) * (1 * 1));
    } else {
        let c = cross(l.p1, l.p2, p);
        assert(EPSILON * EPSILON == 1) by (nonlinear_arith)
            requires
                EPSILON == 1,
        ;
        lemma_floor_ratio_exists(c, len2);
        lemma_combination_square(len2, ed, ex, ey, dx, dy);
        lemma_lagrange(dx, dy, ex, ey);
        let e2 = ex * ex + ey * ey;
        assert(ed == dx * ex + dy * ey) by (nonlinear_arith)
            requires
                ed == ex * dx + ey * dy,
        ;
        assert((len2 * len2) * e2 - 2 * ((ed * len2) * ed) + (ed * ed) * len2 == len2 * (len2 * e2 - ed
            * ed)) by (nonlinear_arith);
        assert(scaled_gap(l, p, ed, len2) == len2 * (c * c));
        assert(len2 * (c * c) < (d + 1) * (d + 1) * (len2 * len2)) by (nonlinear_arith)
            requires
                c * c < (d + 1) * (d + 1) * len2,
                len2 > 0,
        ;
        if !l.infinite {
            assert(dot(l.p1, l.p2, p, l.p1) == -ed) by (nonlinear_arith)
                requires
                    dot(l.p1, l.p2, p, l.p1) == dx * (l.p1.x - p.x) + dy * (l.p1.y - p.y),
                    ed == ex * dx + ey * dy,
                    ex == p.x - l.p1.x,
                    ey == p.y - l.p1.y,
            ;
            assert(dot(l.p1, l.p2, l.p2, p) == ed - len2) by (nonlinear_arith)
                requires
                    dot(l.p1, l.p2, l.p2, p) == dx * (p.x - l.p2.x) + dy * (p.y - l.p2.y),
                    p.x - l.p2.x == ex - dx,
                    p.y - l.p2.y == ey - dy,
                    ed == ex * dx + ey * dy,
                    len2 == dx * dx + dy * dy,
            ;
        }
        assert(scaled_gap(l, p, ed, len2) < (d + 1) * (d + 1) * (len2 * len2));
    }
}

/// Every line is parallel to itself, and two lines are parallel whichever
/// of them is asked.
pub proof fn lemma_parallel_reflexive_symmetric(l: Line, m: Line)
    ensures
        l.spec_is_parallel(l),
        l.spec_is_parallel(m) == m.spec_is_parallel(l),
{
    let lx = l.p2.x - l.p1.x;
    let ly = l.p2.y - l.p1.y;
    let mx = m.p2.x - m.p1.x;
    let my = m.p2.y - m.p1.y;
    assert(lx * ly - ly * lx == 0) by (nonlinear_arith);
    assert(mx * ly - my * lx == -(lx * my - ly * mx)) by (nonlinear_arith);
}

/// Rounding a quotient down leaves a remainder below the magnitude of the
/// divisor.
pub(crate) proof fn lemma_floor_div_remainder(n: int, d: int)
    requires
        d != 0,
    ensures
        0 <= (n - floor_div(n, d) * d) * (if d > 0 { 1int } else { -1int }) < abs(d),
{
    if d > 0 {
        assert(n == (n / d) * d + n % d && 0 <= n % d < d) by (nonlinear_arith)
            requires
                d > 0,
        ;
    } else {
        let m = -n;
        let e = -d;
        assert(m == (m / e) * e + m % e && 0 <= m % e < e) by (nonlinear_arith)
            requires
                e > 0,
        ;
        assert((n - (m / e) * d) * (-1) == m - (m / e) * e) by (nonlinear_arith)
            requires
                m == -n,
                e == -d,
        ;
    }
}

/// Where two lines are not parallel, the crossing that `intersection`
/// rounds down to the grid meets the equation of either line up to the
/// rounding: the equation's two sides differ by less than the sum of the
/// magnitudes of its coefficients.
pub proof fn lemma_crossing_near_line(l: Line, m: Line)
    requires
        l.determinant(m) != 0,
    ensures
        abs(l.coef_a() * l.crossing(m).0 + l.coef_b() * l.crossing(m).1 - l.coef_c()) <= abs(
            l.coef_a(),
        ) + abs(l.coef_b()),
        abs(m.coef_a() * l.crossing(m).0 + m.coef_b() * l.crossing(m).1 - m.coef_c()) <= abs(
            m.coef_a(),
        ) + abs(m.coef_b()),
{
    let a1 = l.coef_a();
    let b1 = l.coef_b();
    let c1 = l.coef_c();
    let a2 = m.coef_a();
    let b2 = m.coef_b();
    let c2 = m.coef_c();
    let d = l.determinant(m);
    let nx = b2 * c1 - b1 * c2;
    let ny = a1 * c2 - a2 * c1;
    let x = l.crossing(m).0;
    let y = l.crossing(m).1;
    lemma_floor_div_remainder(nx, d);
    lemma_floor_div_remainder(ny, d);
    let rx = nx - x * d;
    let ry = ny - y * d;
    lemma_cramer(a1, b1, c1, a2, b2, c2);
    lemma_residual_bound(a1, b1, c1, x, y, rx, ry, nx, ny, d);
    lemma_residual_bound(a2, b2, c2, x, y, rx, ry, nx, ny, d);
}

/// The numerators of Cramer's rule solve both equations once each side is
/// multiplied by the determinant.
proof fn lemma_cramer(a1: int, b1: int, c1: int, a2: int, b2: int, c2: int)
    ensures
        a1 * (b2 * c1 - b1 * c2) + b1 * (a1 * c2 - a2 * c1) == c1 * (a1 * b2 - a2 * b1),
        a2 * (b2 * c1 - b1 * c2) + b2 * (a1 * c2 - a2 * c1) == c2 * (a1 * b2 - a2 * b1),
{
    let p1 = b2 * c1;
    let p2 = b1 * c2;
    let p3 = a1 * c2;
    let p4 = a2 * c1;
    let q1 = a1 * b2;
    let q2 = a2 * b1;
    assert(a1 * (p1 - p2) == a1 * p1 - a1 * p2) by (nonlinear_arith);
    assert(b1 * (p3 - p4) == b1 * p3 - b1 * p4) by (nonlinear_arith);
    assert(a2 * (p1 - p2) == a2 * p1 - a2 * p2) by (nonlinear_arith);
    assert(b2 * (p3 - p4) == b2 * p3 - b2 * p4) by (nonlinear_arith);
    assert(c1 * (q1 - q2) == c1 * q1 - c1 * q2) by (nonlinear_arith);
    assert(c2 * (q1 - q2) == c2 * q1 - c2 * q2) by (nonlinear_arith);
    assert(a1 * (b1 * c2) == b1 * (a1 * c2)) by (nonlinear_arith);
    assert(a1 * (b2 * c1) == c1 * (a1 * b2)) by (nonlinear_arith);
    assert(b1 * (a2 * c1) == c1 * (a2 * b1)) by (nonlinear_arith);
    assert(a2 * (b2 * c1) == b2 * (a2 * c1)) by (nonlinear_arith);
    assert(a2 * (b1 * c2) == c2 * (a2 * b1)) by (nonlinear_arith);
    assert(b2 * (a1 * c2) == c2 * (a1 * b2)) by (nonlinear_arith);
}

/// The residual of a line's equation at the rounded crossing, from the
/// remainders of the two divisions.
proof fn lemma_residual_bound(
    a: int,
    b: int,
    c: int,
    x: int,
    y: int,
    rx: int,
    ry: int,
    nx: int,
    ny: int,
    d: int,
)
    requires
        d != 0,
        a * nx + b * ny == c * d,
        rx == nx - x * d,
        ry == ny - y * d,
        0 <= rx * (if d > 0 { 1int } else { -1int }) < abs(d),
        0 <= ry * (if d > 0 { 1int } else { -1int }) < abs(d),
    ensures
        abs(a * x + b * y - c) <= abs(a) + abs(b),
{
    let e = a * x + b * y - c;
    let xd = x * d;
    let yd = y * d;
    let ax = a * x;
    let by = b * y;
    assert(a * (nx - xd) == a * nx - a * xd) by (nonlinear_arith);
    assert(b * (ny - yd) == b * ny - b * yd) by (nonlinear_arith);
    assert(a * (x * d) == (a * x) * d) by (nonlinear_arith);
    assert(b * (y * d) == (b * y) * d) by (nonlinear_arith);
    assert((ax + by - c) * d == ax * d + by * d - c * d) by (nonlinear_arith);
    assert(e * d == -(a * rx + b * ry));
    let s = if d > 0 { 1int } else { -1int };
    let da = abs(d) as int;
    let ux = rx * s;
    let uy = ry * s;
    assert(e * da == -(a * ux + b * uy)) by (nonlinear_arith)
        requires
            e * d == -(a * rx + b * ry),
            ux == rx * s,
            uy == ry * s,
            da == d * s,
            s == 1 || s == -1,
    ;
    let ma = abs(a) as int;
    let mb = abs(b) as int;
    lemma_product_bound(a, ux, ma, da);
    lemma_product_bound(b, uy, mb, da);
    assert(-(ma + mb) * da <= e * da <= (ma + mb) * da) by (nonlinear_arith)
        requires
            e * da == -(a * ux + b * uy),
            -(ma * da) <= a * ux <= ma * da,
            -(mb * da) <= b * uy <= mb * da,
    ;
    assert(-(ma + mb) <= e <= ma + mb) by (nonlinear_arith)
        requires
            -(ma + mb) * da <= e * da <= (ma + mb) * da,
            da > 0,
    ;
}

} // verus!
