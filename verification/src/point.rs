//! Points of the grid and the predicates that everything else rests on.

use crate::error::GeometryError;
use crate::error::widen;
use crate::fixed::EPSILON_SQ;
use crate::fixed::cross_of;
use crate::fixed::diff;
use crate::fixed::floor_sqrt;
use crate::fixed::is_floor_sqrt;
use crate::fixed::isqrt;
use crate::fixed::lemma_floor_sqrt_below;
use crate::fixed::lemma_floor_sqrt_unique;
use crate::fixed::magnitude;
use crate::fixed::product;
use crate::line::Line;
use vstd::math::abs;
use vstd::prelude::*;

verus! {

/// A point of the plane, by its coordinates in grid units.
#[derive(Copy, Clone, Debug, PartialEq, Eq, Structural)]
pub struct Point {
    pub x: i32,
    pub y: i32,
}

/// The square of the Euclidean distance between `a` and `b`, in square units.
pub open spec fn dist2(a: Point, b: Point) -> int {
    (a.x - b.x) * (a.x - b.x) + (a.y - b.y) * (a.y - b.y)
}

/// The Euclidean distance between `a` and `b`, rounded down to the grid.
pub open spec fn dist(a: Point, b: Point) -> int {
    floor_sqrt(dist2(a, b))
}

/// Twice the signed area of the triangle `a`, `b`, `c`, in square units:
/// positive when the three points turn counterclockwise.
pub open spec fn twice_signed_area(a: Point, b: Point, c: Point) -> int {
    (a.x - b.x) * (b.y - c.y) - (b.x - c.x) * (a.y - b.y)
}

/// The signed area of the triangle `a`, `b`, `c` is within the tolerance.
pub open spec fn collinear(a: Point, b: Point, c: Point) -> bool {
    abs(twice_signed_area(a, b, c)) < 2 * EPSILON_SQ
}

/// The turn that `a`, `b`, `c` make: 0 when they are collinear, 1 when they
/// turn clockwise, 2 when they turn counterclockwise.
pub open spec fn orientation(a: Point, b: Point, c: Point) -> int {
    if collinear(a, b, c) {
        0
    } else if twice_signed_area(a, b, c) < 0 {
        1
    } else {
        2
    }
}

/// The cross product of the vectors from `o` to `a` and from `o` to `b`.
pub open spec fn cross(o: Point, a: Point, b: Point) -> int {
    (a.x - o.x) * (b.y - o.y) - (a.y - o.y) * (b.x - o.x)
}

/// The directions from `p` to the two points that define `line` are parallel.
pub open spec fn on_line(p: Point, line: Line) -> bool {
    abs(cross(p, line.p1, line.p2)) < EPSILON_SQ
}

impl Point {
    /// The point with coordinates `x` and `y`.
    pub fn new(x: i32, y: i32) -> (p: Point)
        ensures
            p.x == x,
            p.y == y,
    {
        Point { x, y }
    }

    /// Whether both coordinates agree exactly.
    pub fn equals(&self, other: &Point) -> (same: bool)
        ensures
            same == (*self == *other),
    {
        self.x == other.x && self.y == other.y
    }

    /// The square of the distance to `other`, exactly.
    pub fn distance_squared(&self, other: &Point) -> (d: i128)
        ensures
            d == dist2(*self, *other),
            0 <= d <= 2 * (0xFFFF_FFFF * 0xFFFF_FFFF),
    {
        let dx: i64 = diff(self.x, other.x);
        let dy: i64 = diff(self.y, other.y);
        proof {
            assert(dx * dx >= 0 && dy * dy >= 0) by (nonlinear_arith);
        }
        product(dx, dx) + product(dy, dy)
    }

    /// The distance to `other`, rounded down to the grid.
    pub fn distance(&self, other: &Point) -> (d: i64)
        ensures
            d == dist(*self, *other),
            is_floor_sqrt(dist2(*self, *other), d as int),
            0 <= d < 0x2_0000_0000,
    {
        let d2: i128 = self.distance_squared(other);
        let r: u64 = isqrt(d2 as u128);
        proof {
            lemma_floor_sqrt_below(d2 as int, r as int, 0x2_0000_0000);
        }
        r as i64
    }

    /// The distance from this point to `line`.
    pub fn distance_to_line(&self, line: &Line) -> (d: Result<i64, GeometryError>)
        ensures
            widen(d) == line.spec_distance_to_point(*self),
    {
        line.distance_to_point(self)
    }

    /// Twice the signed area of the triangle that this point makes with `p1`
    /// and `p2`, exactly.
    pub fn twice_signed_area(&self, p1: &Point, p2: &Point) -> (t: i128)
        ensures
            t == twice_signed_area(*self, *p1, *p2),
            -2 * (0xFFFF_FFFF * 0xFFFF_FFFF) <= t <= 2 * (0xFFFF_FFFF * 0xFFFF_FFFF),
    {
        product(diff(self.x, p1.x), diff(p1.y, p2.y)) - product(diff(p1.x, p2.x), diff(self.y, p1.y))
    }

    /// Whether this point, `p1` and `p2` lie on one line, up to the tolerance.
    pub fn collinear(&self, p1: &Point, p2: &Point) -> (c: bool)
        ensures
            c == collinear(*self, *p1, *p2),
    {
        magnitude(self.twice_signed_area(p1, p2)) < 2 * EPSILON_SQ
    }

    /// The turn from this point through `p1` to `p2`: 0 collinear, 1
    /// clockwise, 2 counterclockwise.
    pub fn orientation(&self, p1: &Point, p2: &Point) -> (o: i32)
        ensures
            o == orientation(*self, *p1, *p2),
    {
        let t: i128 = self.twice_signed_area(p1, p2);
        if magnitude(t) < 2 * EPSILON_SQ {
            0
        } else if t < 0 {
            1
        } else {
            2
        }
    }

    /// Whether this point lies on the unbounded line through the two points
    /// of `line`, up to the tolerance.
    pub fn on_line(&self, line: &Line) -> (on: bool)
        ensures
            on == on_line(*self, *line),
    {
        let c: i128 = cross_of(
            diff(line.p1.x, self.x),
            diff(line.p1.y, self.y),
            diff(line.p2.x, self.x),
            diff(line.p2.y, self.y),
        );
        magnitude(c) < EPSILON_SQ
    }
}

/// The distance from `a` to `b` is the distance from `b` to `a`.
pub proof fn lemma_distance_symmetric(a: Point, b: Point)
    ensures
        dist2(a, b) == dist2(b, a),
        dist(a, b) == dist(b, a),
{
    assert(dist2(a, b) == dist2(b, a)) by (nonlinear_arith)
        requires
            dist2(a, b) == (a.x - b.x) * (a.x - b.x) + (a.y - b.y) * (a.y - b.y),
            dist2(b, a) == (b.x - a.x) * (b.x - a.x) + (b.y - a.y) * (b.y - a.y),
    ;
}

/// The distance from a point to itself is zero.
pub proof fn lemma_distance_to_self(a: Point)
    ensures
        dist2(a, a) == 0,
        dist(a, a) == 0,
{
    lemma_floor_sqrt_unique(0, 0);
}

/// Swapping the last two points of a triple turns a counterclockwise turn
/// into a clockwise one and back, and leaves a collinear triple collinear.
pub proof fn lemma_orientation_swap(a: Point, b: Point, c: Point)
    ensures
        twice_signed_area(a, c, b) == -twice_signed_area(a, b, c),
        orientation(a, b, c) == 2 <==> orientation(a, c, b) == 1,
        orientation(a, b, c) == 1 <==> orientation(a, c, b) == 2,
        orientation(a, b, c) == 0 <==> orientation(a, c, b) == 0,
{
    let ax = a.x as int;
    let ay = a.y as int;
    let bx = b.x as int;
    let by = b.y as int;
    let cx = c.x as int;
    let cy = c.y as int;
    assert((ax - cx) * (cy - by) - (cx - bx) * (ay - cy) == -((ax - bx) * (by - cy) - (bx - cx) * (
    ay - by))) by (nonlinear_arith);
}

/// Three points that share their x coordinate, or their y coordinate, are
/// collinear.
pub proof fn lemma_shared_coordinate_collinear(a: Point, b: Point, c: Point)
    requires
        (a.x == b.x && b.x == c.x) || (a.y == b.y && b.y == c.y),
    ensures
        twice_signed_area(a, b, c) == 0,
        collinear(a, b, c),
        orientation(a, b, c) == 0,
{
    let ax = a.x as int;
    let ay = a.y as int;
    let bx = b.x as int;
    let by = b.y as int;
    let cx = c.x as int;
    let cy = c.y as int;
    assert((ax - bx) * (by - cy) - (bx - cx) * (ay - by) == 0) by (nonlinear_arith)
        requires
            (ax == bx && bx == cx) || (ay == by && by == cy),
    ;
}

} // verus!
