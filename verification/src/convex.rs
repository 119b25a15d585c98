//! Why the march closes, and why its vertices enclose the point list.

use crate::extreme::hull_stands_clear;
use crate::extreme::clearly_inside;
use crate::extreme::inner;
use crate::extreme::lemma_flat_triangle;
use crate::extreme::turn;
use crate::extreme::lemma_turn_cycle;
use crate::extreme::lemma_area_is_turn;
use crate::extreme::lemma_distinct_points;
use crate::extreme::same_ray;
use crate::extreme::lemma_hull_indices_supported;
use crate::extreme::stands_clear;
use crate::extreme::supports;
use crate::hull::hull_indices;
use crate::line::lemma_lagrange;
use crate::hull::hull_of;
use crate::hull::leftmost;
use crate::hull::lemma_leftmost_exists;
use crate::hull::lemma_march_length;
use crate::hull::lemma_march_steps;
use crate::hull::lemma_sweep_in_range;
use crate::hull::march;
use crate::hull::next_vertex;
use crate::point::Point;
use crate::point::orientation;
use crate::point::twice_signed_area;
use crate::polygon::successor;
use vstd::prelude::*;
use vstd::set_lib::lemma_int_range;
use vstd::set_lib::lemma_len_subset;
use vstd::set_lib::lemma_subset_equality;
use vstd::set_lib::set_int_range;

verus! {

/// Every point of the list lies on or to the left of every edge of the
/// polygon `hull`, exactly, the edge from its last vertex back to its first
/// included: the polygon is convex, counterclockwise, and has the list
/// inside it or on it.
pub open spec fn encloses(hull: Seq<Point>, points: Seq<Point>) -> bool {
    forall|k: int, i: int|
        0 <= k < hull.len() && 0 <= i < points.len() ==> twice_signed_area(
            #[trigger] hull[k],
            #[trigger] points[i],
            hull[successor(hull, k)],
        ) <= 0
}

/// Swapping the first two corners of a triangle negates its signed area.
pub(crate) proof fn lemma_area_swap_first(a: Point, b: Point, c: Point)
    ensures
        twice_signed_area(b, a, c) == -twice_signed_area(a, b, c),
{
    let ax = a.x as int;
    let ay = a.y as int;
    let bx = b.x as int;
    let by = b.y as int;
    let cx = c.x as int;
    let cy = c.y as int;
    assert((bx - ax) * (ay - cy) - (ax - cx) * (by - ay) == -((ax - bx) * (by - cy) - (bx - cx) * (
    ay - by))) by (nonlinear_arith);
}

/// Turning a triangle round by one corner leaves its signed area as it is.
pub(crate) proof fn lemma_area_turned_round(a: Point, b: Point, c: Point)
    ensures
        twice_signed_area(c, a, b) == twice_signed_area(a, b, c),
{
    let ax = a.x as int;
    let ay = a.y as int;
    let bx = b.x as int;
    let by = b.y as int;
    let cx = c.x as int;
    let cy = c.y as int;
    assert((cx - ax) * (ay - by) - (ax - bx) * (cy - ay) == (ax - bx) * (by - cy) - (bx - cx) * (ay
        - by)) by (nonlinear_arith);
}

/// Of three different points on one line, one is between the other two:
/// no two vectors that are parallel, from a common origin, are each longer
/// than their dot product is, where that is positive.
proof fn lemma_one_between(ux: int, uy: int, wx: int, wy: int)
    requires
        ux * wy - uy * wx == 0,
        ux * wx + uy * wy > 0,
    ensures
        !(ux * ux + uy * uy > ux * wx + uy * wy && wx * wx + wy * wy > ux * wx + uy * wy),
{
    lemma_lagrange(ux, uy, wx, wy);
    let uu = ux * ux + uy * uy;
    let ww = wx * wx + wy * wy;
    let uw = ux * wx + uy * wy;
    let t = ux * wy - uy * wx;
    assert(t * t == 0) by (nonlinear_arith)
        requires
            t == 0,
    ;
    if uu > uw && ww > uw {
        assert(uu * ww > uw * uw) by (nonlinear_arith)
            requires
                uu > uw,
                ww > uw,
                uw > 0,
        ;
    }
}

/// Two points on opposite rays from a common origin, or one of them in
/// the origin, do not both turn clockwise to a third vector.
proof fn lemma_opposite_rays(ux: int, uy: int, vx: int, vy: int, rx: int, ry: int)
    requires
        turn(vx, vy, ux, uy) == 0,
        ux * vx + uy * vy <= 0,
    ensures
        !(turn(ux, uy, rx, ry) < 0 && turn(vx, vy, rx, ry) < 0),
{
    if turn(ux, uy, rx, ry) < 0 && turn(vx, vy, rx, ry) < 0 {
        lemma_turn_cycle(vx, vy, ux, uy, rx, ry, uy, -ux);
        let a = turn(vx, vy, ux, uy);
        let b = turn(ux, uy, rx, ry);
        let c = turn(rx, ry, vx, vy);
        let hv = turn(uy, -ux, vx, vy);
        let hu = turn(uy, -ux, ux, uy);
        let hr = turn(uy, -ux, rx, ry);
        assert(hv == ux * vx + uy * vy) by (nonlinear_arith)
            requires
                hv == uy * vy - (-ux) * vx,
        ;
        assert(hu == ux * ux + uy * uy && hu >= 0) by (nonlinear_arith)
            requires
                hu == uy * uy - (-ux) * ux,
        ;
        assert(c == -turn(vx, vy, rx, ry)) by (nonlinear_arith)
            requires
                c == rx * vy - ry * vx,
                turn(vx, vy, rx, ry) == vx * ry - vy * rx,
        ;
        assert(a * hr == 0) by (nonlinear_arith)
            requires
                a == 0,
        ;
        assert(b * hv >= 0) by (nonlinear_arith)
            requires
                b < 0,
                hv <= 0,
        ;
        assert(c * hu >= 0 && (c * hu == 0 ==> hu == 0)) by (nonlinear_arith)
            requires
                c > 0,
                hu >= 0,
        ;
        assert(ux == 0 && uy == 0) by (nonlinear_arith)
            requires
                ux * ux + uy * uy == 0,
        ;
        assert(turn(ux, uy, rx, ry) == 0) by (nonlinear_arith)
            requires
                ux == 0,
                uy == 0,
                turn(ux, uy, rx, ry) == ux * ry - uy * rx,
        ;
    }
}

/// Two vertices with one vertex `q` after them are one vertex, where they
/// and `q` stand clear.
pub(crate) proof fn lemma_one_vertex_before(points: Seq<Point>, a: int, b: int, q: int)
    requires
        supports(points, a, q),
        supports(points, b, q),
        q == next_vertex(points, a),
        q == next_vertex(points, b),
        stands_clear(points, a),
        stands_clear(points, b),
        stands_clear(points, q),
        a != q,
        b != q,
    ensures
        a == b,
{
    if a != b {
        let pa = points[a];
        let pb = points[b];
        let pq = points[q];
        let pr = points[next_vertex(points, q)];
        lemma_flat_triangle(pa, pq);
        lemma_flat_triangle(pb, pq);
        assert(!clearly_inside(points, a, q));
        assert(!clearly_inside(points, b, q));
        assert(orientation(pa, pb, pq) != 0 || same_ray(pa, pb, pq));
        assert(orientation(pb, pa, pq) != 0 || same_ray(pb, pa, pq));
        assert(orientation(pq, pa, pb) != 0 || same_ray(pq, pa, pb) || (clearly_inside(
            points,
            q,
            a,
        ) && clearly_inside(points, q, b)));
        assert(twice_signed_area(pa, pb, pq) <= 0);
        assert(twice_signed_area(pb, pa, pq) <= 0);
        lemma_area_swap_first(pa, pb, pq);
        lemma_area_turned_round(pa, pb, pq);
        lemma_area_is_turn(pa, pb, pq);
        let ux = pb.x - pa.x;
        let uy = pb.y - pa.y;
        let wx = pq.x - pa.x;
        let wy = pq.y - pa.y;
        assert(inner(pa, pb, pq) == ux * wx + uy * wy);
        assert(inner(pb, pa, pq) == (ux * ux + uy * uy) - (ux * wx + uy * wy)) by (nonlinear_arith)
            requires
                inner(pb, pa, pq) == (pa.x - pb.x) * (pq.x - pb.x) + (pa.y - pb.y) * (pq.y - pb.y),
                ux == pb.x - pa.x,
                uy == pb.y - pa.y,
                wx == pq.x - pa.x,
                wy == pq.y - pa.y,
        ;
        assert(inner(pq, pa, pb) == (wx * wx + wy * wy) - (ux * wx + uy * wy)) by (nonlinear_arith)
            requires
                inner(pq, pa, pb) == (pa.x - pq.x) * (pb.x - pq.x) + (pa.y - pq.y) * (pb.y - pq.y),
                ux == pb.x - pa.x,
                uy == pb.y - pa.y,
                wx == pq.x - pa.x,
                wy == pq.y - pa.y,
        ;
        lemma_one_between(ux, uy, wx, wy);
        assert(!same_ray(pq, pa, pb));
        lemma_area_is_turn(pq, pb, pa);
        lemma_area_swap_first(pa, pb, pq);
        lemma_area_turned_round(pb, pa, pq);
        lemma_area_is_turn(pq, pa, pr);
        lemma_area_is_turn(pq, pb, pr);
        lemma_opposite_rays(
            pa.x - pq.x,
            pa.y - pq.y,
            pb.x - pq.x,
            pb.y - pq.y,
            pr.x - pq.x,
            pr.y - pq.y,
        );
    }
}

/// Where the hull vertices stand clear, the march visits no vertex twice.
pub proof fn lemma_hull_indices_distinct(points: Seq<Point>, i: int, j: int)
    requires
        points.len() > 3,
        hull_stands_clear(points),
        0 <= i < j < hull_indices(points).len(),
    ensures
        hull_indices(points)[i] != hull_indices(points)[j],
    decreases i,
{
    let l = leftmost(points);
    let idx = hull_indices(points);
    lemma_leftmost_exists(points);
    lemma_march_steps(points, l, l, points.len(), i);
    lemma_march_steps(points, l, l, points.len(), j);
    if i > 0 && idx[i] == idx[j] {
        lemma_march_steps(points, l, l, points.len(), i - 1);
        lemma_march_steps(points, l, l, points.len(), j - 1);
        lemma_hull_indices_supported(points, i - 1);
        lemma_hull_indices_supported(points, j - 1);
        assert(stands_clear(points, idx[i - 1]));
        assert(stands_clear(points, idx[j - 1]));
        assert(stands_clear(points, idx[i]));
        lemma_one_vertex_before(points, idx[i - 1], idx[j - 1], idx[i]);
        lemma_hull_indices_distinct(points, i - 1, j - 1);
    }
}

/// Where the hull vertices stand clear, the march closes: the vertex after
/// its last is the one it started from.
pub proof fn lemma_hull_closes(points: Seq<Point>)
    requires
        points.len() > 3,
        hull_stands_clear(points),
    ensures
        hull_indices(points).len() >= 1,
        next_vertex(points, hull_indices(points).last()) == hull_indices(points)[0],
        hull_indices(points)[0] == leftmost(points),
{
    let n = points.len() as int;
    let l = leftmost(points);
    let idx = hull_indices(points);
    lemma_leftmost_exists(points);
    lemma_march_length(points, l, l, points.len());
    let last = idx.len() - 1;
    lemma_march_steps(points, l, l, points.len(), last);
    let q = next_vertex(points, idx[last]);
    lemma_sweep_in_range(points, idx[last], n);
    if idx.len() == n && q != l {
        assert(idx.no_duplicates()) by {
            assert forall|i: int, j: int| 0 <= i < idx.len() && 0 <= j < idx.len() && i != j implies idx[i]
                != idx[j] by {
                if i < j {
                    lemma_hull_indices_distinct(points, i, j);
                } else {
                    lemma_hull_indices_distinct(points, j, i);
                }
            }
        }
        idx.unique_seq_to_set();
        lemma_int_range(0, n);
        assert(idx.to_set().subset_of(set_int_range(0, n))) by {
            assert forall|v: int| idx.to_set().contains(v) implies set_int_range(0, n).contains(
                v,
            ) by {
                let m = choose|m: int| 0 <= m < idx.len() && idx[m] == v;
                lemma_march_steps(points, l, l, points.len(), m);
            }
        }
        lemma_len_subset(idx.to_set(), set_int_range(0, n));
        lemma_subset_equality(idx.to_set(), set_int_range(0, n));
        assert(set_int_range(0, n).contains(q));
        assert(idx.to_set().contains(q));
        let j = choose|j: int| 0 <= j < idx.len() && idx[j] == q;
        lemma_march_steps(points, l, l, points.len(), j);
        assert(j >= 1);
        lemma_march_steps(points, l, l, points.len(), j - 1);
        lemma_hull_indices_supported(points, j - 1);
        lemma_hull_indices_supported(points, last);
        assert(stands_clear(points, idx[j - 1]));
        assert(stands_clear(points, idx[last]));
        assert(stands_clear(points, idx[j]));
        lemma_one_vertex_before(points, idx[j - 1], idx[last], q);
        if j - 1 < last {
            lemma_hull_indices_distinct(points, j - 1, last);
        }
    }
}

/// Where every hull vertex stands clear of every two other points, the
/// hull of more than three points is a closed convex polygon round the
/// list: its vertices are different points, and every point of
/// the list lies on or to the left of each of its edges, the edge from the
/// last vertex back to the first included.
pub proof fn lemma_hull_encloses(points: Seq<Point>)
    requires
        points.len() > 3,
        hull_stands_clear(points),
    ensures
        encloses(hull_of(points), points),
        forall|i: int, j: int|
            0 <= i < j < hull_of(points).len() ==> #[trigger] hull_of(points)[i]
                != #[trigger] hull_of(points)[j],
{
    let hull = hull_of(points);
    let idx = hull_indices(points);
    lemma_leftmost_exists(points);
    lemma_hull_closes(points);
    assert forall|k: int, i: int|
        0 <= k < hull.len() && 0 <= i < points.len() implies twice_signed_area(
        #[trigger] hull[k],
        #[trigger] points[i],
        hull[successor(hull, k)],
    ) <= 0 by {
        lemma_hull_indices_supported(points, k);
        lemma_march_steps(points, leftmost(points), leftmost(points), points.len(), k);
        assert(hull[k] == points[idx[k]]);
        assert(hull[successor(hull, k)] == points[next_vertex(points, idx[k])]);
    }
    assert forall|i: int, j: int| 0 <= i < j < hull.len() implies #[trigger] hull[i]
        != #[trigger] hull[j] by {
        lemma_hull_indices_distinct(points, i, j);
        lemma_march_steps(points, leftmost(points), leftmost(points), points.len(), i);
        lemma_march_steps(points, leftmost(points), leftmost(points), points.len(), j);
        lemma_distinct_points(points, idx[i], idx[j]);
    }
}

} // verus!
