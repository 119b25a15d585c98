//! Polygons, by their vertices in order.

use crate::error::GeometryError;
use crate::error::widen;
use crate::fixed::SCALE;
use crate::fixed::lemma_product_bound;
use crate::fixed::magnitude;
use crate::point::Point;
use crate::point::orientation;
use crate::point::twice_signed_area;
use vstd::math::abs;
use vstd::prelude::*;

verus! {

/// A polygon of at least three vertices. Its winding is read once, off the
/// first three of them.
#[derive(Debug)]
pub struct Polygon {
    points: Vec<Point>,
    orientation: bool,
}

/// The index of the vertex after `i`, the first one following the last.
pub open spec fn successor(pts: Seq<Point>, i: int) -> int {
    if i + 1 == pts.len() {
        0
    } else {
        i + 1
    }
}

/// The term that the edge from vertex `i` to the next adds to twice the
/// signed area.
pub open spec fn shoelace_term(pts: Seq<Point>, i: int) -> int {
    pts[i].x * pts[successor(pts, i)].y - pts[successor(pts, i)].x * pts[i].y
}

/// The sum of the terms of the first `k` edges.
pub open spec fn shoelace_sum(pts: Seq<Point>, k: int) -> int
    decreases k,
{
    if k <= 0 {
        0
    } else {
        shoelace_sum(pts, k - 1) + shoelace_term(pts, k - 1)
    }
}

/// The area inside the vertices `pts`, as a scalar rounded down: half the
/// magnitude of the sum over all edges.
pub open spec fn shoelace_area(pts: Seq<Point>) -> int {
    abs(shoelace_sum(pts, pts.len() as int)) as int / (2 * SCALE)
}

impl Polygon {
    #[verifier::type_invariant]
    spec fn has_three_vertices(self) -> bool {
        self.points.len() >= 3
    }

    /// The polygon as a value: its vertices in order, and whether it was
    /// recorded as winding clockwise.
    pub closed spec fn view(self) -> (Seq<Point>, bool) {
        (self.points@, self.orientation)
    }

    /// The vertices in order.
    pub open spec fn spec_points(self) -> Seq<Point> {
        self@.0
    }

    /// Whether the polygon was recorded as winding clockwise.
    pub open spec fn spec_is_clockwise(self) -> bool {
        self@.1
    }

    /// What `area` answers.
    pub open spec fn spec_area(self) -> Result<int, GeometryError> {
        if shoelace_area(self.spec_points()) <= i64::MAX {
            Ok(shoelace_area(self.spec_points()))
        } else {
            Err(GeometryError::OutOfRange)
        }
    }

    /// The polygon with the vertices `points`, which winds clockwise where
    /// its first three vertices turn clockwise.
    pub fn from_vec(points: Vec<Point>) -> (poly: Polygon)
        requires
            points.len() >= 3,
        ensures
            poly@ == (points@, orientation(points[0], points[1], points[2]) == 1),
    {
        let o: i32 = points[0].orientation(&points[1], &points[2]);
        Polygon { points, orientation: o == 1 }
    }

    /// The vertices in order.
    pub fn points(&self) -> (pts: &Vec<Point>)
        ensures
            pts@ == self.spec_points(),
            pts.len() >= 3,
    {
        proof {
            use_type_invariant(self);
        }
        &self.points
    }

    /// Whether the polygon was recorded as winding clockwise.
    pub fn is_clockwise(&self) -> (cw: bool)
        ensures
            cw == self.spec_is_clockwise(),
    {
        self.orientation
    }

    /// The area of the polygon, whichever way it winds. A polygon whose edges
    /// cross gets the magnitude of its signed area; an area too large for a
    /// scalar is out of range.
    pub fn area(&self) -> (a: Result<i64, GeometryError>)
        ensures
            widen(a) == self.spec_area(),
    {
        let pts: &Vec<Point> = self.points();
        let n: usize = pts.len();
        let mut sum: i128 = 0;
        let mut i: usize = 0;
        while i < n
            invariant
                i <= n,
                n == pts.len(),
                n >= 3,
                sum == shoelace_sum(pts@, i as int),
                -(i * 0x8000_0000_0000_0000) <= sum <= i * 0x8000_0000_0000_0000,
            decreases n - i,
        {
            let j: usize = if i + 1 == n { 0 } else { i + 1 };
            let p: Point = pts[i];
            let q: Point = pts[j];
            proof {
                lemma_product_bound(p.x as int, q.y as int, 0x8000_0000, 0x8000_0000);
                lemma_product_bound(q.x as int, p.y as int, 0x8000_0000, 0x8000_0000);
            }
            sum = sum + ((p.x as i128) * (q.y as i128) - (q.x as i128) * (p.y as i128));
            i = i + 1;
        }
        let a: i128 = magnitude(sum) / (2 * (SCALE as i128));
        if a <= i64::MAX as i128 {
            Ok(a as i64)
        } else {
            Err(GeometryError::OutOfRange)
        }
    }
}

/// The sum over the first `k` edges of the reversed vertex list is the
/// negated sum over the last `k` edges but one of the list itself.
proof fn lemma_mirrored_sum(pts: Seq<Point>, k: int)
    requires
        0 <= k < pts.len(),
    ensures
        shoelace_sum(pts.reverse(), k) == -(shoelace_sum(pts, pts.len() - 1) - shoelace_sum(
            pts,
            pts.len() - 1 - k,
        )),
    decreases k,
{
    if k > 0 {
        lemma_mirrored_sum(pts, k - 1);
        let n = pts.len() as int;
        let rev = pts.reverse();
        assert(rev[k - 1] == pts[n - k]);
        assert(rev[k] == pts[n - 1 - k]);
        assert(shoelace_term(rev, k - 1) == -shoelace_term(pts, n - 1 - k));
    }
}

/// Listing the vertices in the opposite order negates the signed area and
/// leaves the area as it is.
pub proof fn lemma_area_ignores_winding(pts: Seq<Point>)
    ensures
        shoelace_sum(pts.reverse(), pts.len() as int) == -shoelace_sum(pts, pts.len() as int),
        shoelace_area(pts.reverse()) == shoelace_area(pts),
{
    let n = pts.len() as int;
    if n > 0 {
        let rev = pts.reverse();
        lemma_mirrored_sum(pts, n - 1);
        assert(shoelace_sum(pts, 0) == 0);
        assert(rev[n - 1] == pts[0]);
        assert(rev[0] == pts[n - 1]);
        assert(shoelace_term(rev, n - 1) == -shoelace_term(pts, n - 1));
    }
}

/// The signed area that the edges of a triangle add up to is the signed
/// area by which three points are told to be collinear or to turn.
pub proof fn lemma_triangle_sum(a: Point, b: Point, c: Point)
    ensures
        shoelace_sum(seq![a, b, c], 3) == twice_signed_area(a, b, c),
{
    let t = seq![a, b, c];
    reveal_with_fuel(shoelace_sum, 4);
    assert(t[0] == a && t[1] == b && t[2] == c);
    assert(shoelace_sum(t, 3) == shoelace_term(t, 0) + shoelace_term(t, 1) + shoelace_term(t, 2));
    let ax = a.x as int;
    let ay = a.y as int;
    let bx = b.x as int;
    let by = b.y as int;
    let cx = c.x as int;
    let cy = c.y as int;
    assert((ax * by - bx * ay) + (bx * cy - cx * by) + (cx * ay - ax * cy) == (ax - bx) * (by - cy)
        - (bx - cx) * (ay - by)) by (nonlinear_arith);
}

/// The vertices `pts` listed from the second on, with the first at the end.
pub open spec fn turned(pts: Seq<Point>) -> Seq<Point> {
    pts.subrange(1, pts.len() as int).push(pts[0])
}

/// The sum over the first `k` edges of the turned list is the sum over the
/// edges of the list itself from the second up to the one after the `k`th.
proof fn lemma_turned_sum(pts: Seq<Point>, k: int)
    requires
        0 <= k < pts.len(),
    ensures
        shoelace_sum(turned(pts), k) == shoelace_sum(pts, k + 1) - shoelace_term(pts, 0),
    decreases k,
{
    let t = turned(pts);
    let n = pts.len() as int;
    if k > 0 {
        lemma_turned_sum(pts, k - 1);
        assert(t[k - 1] == pts[k]);
        assert(t[k] == pts[if k + 1 < n { k + 1 } else { 0 }]);
        assert(shoelace_term(t, k - 1) == shoelace_term(pts, k));
    } else {
        assert(shoelace_sum(pts, 1) == shoelace_sum(pts, 0) + shoelace_term(pts, 0));
    }
}

/// The area does not depend on the vertex that the list starts with.
pub proof fn lemma_area_ignores_start(pts: Seq<Point>)
    requires
        pts.len() > 0,
    ensures
        shoelace_sum(turned(pts), pts.len() as int) == shoelace_sum(pts, pts.len() as int),
        shoelace_area(turned(pts)) == shoelace_area(pts),
{
    let t = turned(pts);
    let n = pts.len() as int;
    lemma_turned_sum(pts, n - 1);
    assert(t.len() == n);
    assert(t[n - 1] == pts[0]);
    assert(t[0] == pts[if n > 1 { 1int } else { 0int }]);
    assert(shoelace_term(t, n - 1) == shoelace_term(pts, 0));
}

} // verus!
