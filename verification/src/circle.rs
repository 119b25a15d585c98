//! Circles, by centre and radius.

use crate::fixed::SCALE;
use crate::fixed::floor_sqrt;
use crate::fixed::lemma_floor_sqrt_exists;
use crate::fixed::lemma_floor_sqrt_unique;
use crate::fixed::product;
use crate::point::Point;
use crate::point::dist;
use crate::point::dist2;
use vstd::prelude::*;

verus! {

/// The numerator of the fraction that stands for pi.
pub const PI_NUM: i128 = 3_141_592_653_589_793;

/// The denominator of the fraction that stands for pi.
pub const PI_DEN: i128 = 1_000_000_000_000_000;

/// A circle. Its radius is never negative.
#[derive(Copy, Clone, Debug)]
pub struct Circle {
    center: Point,
    radius: i32,
}

impl Circle {
    /// What every circle meets: its radius is not negative.
    #[verifier::type_invariant]
    pub closed spec fn well_formed(self) -> bool {
        self.radius >= 0
    }

    /// The centre.
    pub closed spec fn spec_center(self) -> Point {
        self.center
    }

    /// The radius, in grid units.
    pub closed spec fn spec_radius(self) -> int {
        self.radius as int
    }

    /// The distance between the centres of two circles.
    pub open spec fn center_distance(self, other: Circle) -> int {
        dist(self.spec_center(), other.spec_center())
    }

    /// What `circumference` answers: twice pi times the radius, rounded down.
    pub open spec fn spec_circumference(self) -> int {
        2 * PI_NUM * self.spec_radius() / (PI_DEN as int)
    }

    /// What `area` answers: pi times the square of the radius, rounded down
    /// to a scalar.
    pub open spec fn spec_area(self) -> int {
        PI_NUM * (self.spec_radius() * self.spec_radius()) / (PI_DEN * SCALE)
    }

    /// What `intersects_circle` answers: the centres are closer than the sum
    /// of the radii.
    pub open spec fn spec_intersects_circle(self, other: Circle) -> bool {
        self.center_distance(other) < self.spec_radius() + other.spec_radius()
    }

    /// What `distance_from_circle` answers.
    pub open spec fn spec_distance_from_circle(self, other: Circle) -> int {
        if self.spec_intersects_circle(other) {
            0
        } else {
            self.center_distance(other) - self.spec_radius() - other.spec_radius()
        }
    }

    /// What `distance_from_point` answers.
    pub open spec fn spec_distance_from_point(self, p: Point) -> int {
        if dist(self.spec_center(), p) < self.spec_radius() {
            0
        } else {
            dist(self.spec_center(), p) - self.spec_radius()
        }
    }

    /// What `contains_circle` answers.
    pub open spec fn spec_contains_circle(self, other: Circle) -> bool {
        self.center_distance(other) + other.spec_radius() < self.spec_radius()
    }

    /// The circle round `center`. A radius that is not positive gives the
    /// circle of radius 0.
    pub fn new(center: Point, radius: i32) -> (c: Circle)
        ensures
            c.well_formed(),
            c.spec_center() == center,
            c.spec_radius() == if radius > 0 {
                radius as int
            } else {
                0
            },
    {
        if radius > 0 {
            return Circle { center, radius };
        }
        Circle { center, radius: 0 }
    }

    /// The centre.
    pub fn center(&self) -> (p: Point)
        ensures
            p == self.spec_center(),
    {
        self.center
    }

    /// The radius.
    pub fn radius(&self) -> (r: i32)
        ensures
            r == self.spec_radius(),
            r >= 0,
            self.well_formed(),
    {
        proof {
            use_type_invariant(self);
        }
        self.radius
    }

    /// The length of the circle's boundary.
    pub fn circumference(&self) -> (c: i64)
        ensures
            c == self.spec_circumference(),
    {
        let r: i128 = self.radius() as i128;
        proof {
            assert(2 * PI_NUM * r == 6_283_185_307_179_586 * r) by (nonlinear_arith)
                requires
                    PI_NUM == 3_141_592_653_589_793,
            ;
        }
        (2 * PI_NUM * r / PI_DEN) as i64
    }

    /// The area that the circle encloses.
    pub fn area(&self) -> (a: i64)
        ensures
            a == self.spec_area(),
    {
        let r: i64 = self.radius() as i64;
        let rr: i128 = product(r, r);
        proof {
            assert(rr >= 0) by (nonlinear_arith)
                requires
                    rr == r * r,
            ;
            assert(PI_NUM * rr == 3_141_592_653_589_793 * rr) by (nonlinear_arith)
                requires
                    PI_NUM == 3_141_592_653_589_793,
            ;
            assert(PI_DEN * SCALE == 100_000_000_000_000_000_000);
        }
        (PI_NUM * rr / (PI_DEN * (SCALE as i128))) as i64
    }

    /// Whether the two circles overlap. Circles that only touch do not.
    pub fn intersects_circle(&self, other: &Circle) -> (meet: bool)
        ensures
            meet == self.spec_intersects_circle(*other),
    {
        self.center.distance(&other.center) < self.radius() as i64 + other.radius() as i64
    }

    /// The gap between the two circles: 0 where they overlap.
    pub fn distance_from_circle(&self, other: &Circle) -> (d: i64)
        ensures
            d == self.spec_distance_from_circle(*other),
            d >= 0,
    {
        if self.intersects_circle(other) {
            return 0;
        }
        self.center.distance(&other.center) - self.radius() as i64 - other.radius() as i64
    }

    /// The gap between the circle and `p`: 0 where `p` is inside or on it.
    pub fn distance_from_point(&self, p: &Point) -> (d: i64)
        ensures
            d == self.spec_distance_from_point(*p),
            d >= 0,
    {
        let d: i64 = self.center.distance(p) - self.radius() as i64;
        if d < 0 {
            return 0;
        }
        d
    }

    /// Whether `other` lies strictly inside this circle.
    pub fn contains_circle(&self, other: &Circle) -> (inside: bool)
        ensures
            inside == self.spec_contains_circle(*other),
    {
        self.center.distance(&other.center) + (other.radius() as i64) < self.radius() as i64
    }
}

/// Two circles that touch, with their centres exactly as far apart as the
/// sum of their radii, do not intersect, and the gap between them is zero.
pub proof fn lemma_tangent_circles_apart(a: Circle, b: Circle)
    requires
        a.well_formed(),
        b.well_formed(),
        dist2(a.spec_center(), b.spec_center()) == (a.spec_radius() + b.spec_radius()) * (
        a.spec_radius() + b.spec_radius()),
    ensures
        a.center_distance(b) == a.spec_radius() + b.spec_radius(),
        !a.spec_intersects_circle(b),
        a.spec_distance_from_circle(b) == 0,
{
    let r = a.spec_radius() + b.spec_radius();
    assert(r * r < (r + 1) * (r + 1)) by (nonlinear_arith)
        requires
            r >= 0,
    ;
    lemma_floor_sqrt_unique(r * r, r);
}

/// A circle intersects another exactly where the square of the distance
/// between their centres is below the square of the sum of their radii: the
/// rounding of the distance does not show.
pub proof fn lemma_intersects_exactly(a: Circle, b: Circle)
    requires
        a.well_formed(),
        b.well_formed(),
    ensures
        a.spec_intersects_circle(b) <==> dist2(a.spec_center(), b.spec_center()) < (a.spec_radius()
            + b.spec_radius()) * (a.spec_radius() + b.spec_radius()),
{
    let r = a.spec_radius() + b.spec_radius();
    let n = dist2(a.spec_center(), b.spec_center());
    assert(n >= 0) by (nonlinear_arith)
        requires
            n == (a.spec_center().x - b.spec_center().x) * (a.spec_center().x - b.spec_center().x)
                + (a.spec_center().y - b.spec_center().y) * (a.spec_center().y
                - b.spec_center().y),
    ;
    lemma_floor_sqrt_exists(n);
    let d = floor_sqrt(n);
    if d < r {
        assert((d + 1) * (d + 1) <= r * r) by (nonlinear_arith)
            requires
                0 <= d < r,
        ;
    } else {
        assert(r * r <= d * d) by (nonlinear_arith)
            requires
                0 <= r <= d,
        ;
    }
}

} // verus!
