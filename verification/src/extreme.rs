//! Why the vertices that the march visits are extreme points.

use crate::fixed::EPSILON_SQ;
use crate::hull::hull_indices;
use crate::hull::hull_of;
use crate::hull::is_leftmost;
use crate::hull::leftmost;
use crate::hull::lemma_leftmost_exists;
use crate::hull::lemma_march_steps;
use crate::hull::march;
use crate::hull::next_vertex;
use crate::hull::sweep;
use crate::point::Point;
use crate::point::lemma_orientation_swap;
use crate::point::orientation;
use crate::point::twice_signed_area;
use vstd::prelude::*;

verus! {

/// The cross product of the vectors `(ax, ay)` and `(bx, by)`.
pub open spec fn turn(ax: int, ay: int, bx: int, by: int) -> int {
    ax * by - ay * bx
}

/// Twice the signed area of a triangle is the cross product of two of its
/// sides, taken from the first corner.
pub(crate) proof fn lemma_area_is_turn(a: Point, b: Point, c: Point)
    ensures
        twice_signed_area(a, b, c) == turn(b.x - a.x, b.y - a.y, c.x - a.x, c.y - a.y),
{
    let ax = a.x as int;
    let ay = a.y as int;
    let bx = b.x as int;
    let by = b.y as int;
    let cx = c.x as int;
    let cy = c.y as int;
    assert((ax - bx) * (by - cy) - (bx - cx) * (ay - by) == (bx - ax) * (cy - ay) - (by - ay) * (cx
        - ax)) by (nonlinear_arith);
}

/// For three vectors `i`, `q`, `j` and any direction `d`, the cross products
/// among the three, each weighted by the height of the remaining vector over
/// `d`, cancel.
pub(crate) proof fn lemma_turn_cycle(
    ix: int,
    iy: int,
    qx: int,
    qy: int,
    jx: int,
    jy: int,
    dx: int,
    dy: int,
)
    ensures
        turn(ix, iy, qx, qy) * turn(dx, dy, jx, jy) + turn(qx, qy, jx, jy) * turn(dx, dy, ix, iy)
            + turn(jx, jy, ix, iy) * turn(dx, dy, qx, qy) == 0,
{
    let iq = ix * qy;
    let qi = iy * qx;
    let qj = qx * jy;
    let jq = qy * jx;
    let ji = jx * iy;
    let ij = jy * ix;
    let di = dx * iy;
    let id = dy * ix;
    let dq = dx * qy;
    let qd = dy * qx;
    let dj = dx * jy;
    let jd = dy * jx;
    assert((iq - qi) * (dj - jd) == iq * dj - iq * jd - qi * dj + qi * jd) by (nonlinear_arith);
    assert((qj - jq) * (di - id) == qj * di - qj * id - jq * di + jq * id) by (nonlinear_arith);
    assert((ji - ij) * (dq - qd) == ji * dq - ji * qd - ij * dq + ij * qd) by (nonlinear_arith);
    assert((ix * qy) * (dx * jy) == (jy * ix) * (dx * qy)) by (nonlinear_arith);
    assert((ix * qy) * (dy * jx) == (qy * jx) * (dy * ix)) by (nonlinear_arith);
    assert((iy * qx) * (dx * jy) == (qx * jy) * (dx * iy)) by (nonlinear_arith);
    assert((iy * qx) * (dy * jx) == (jx * iy) * (dy * qx)) by (nonlinear_arith);
    assert((qx * jy) * (dy * ix) == (jy * ix) * (dy * qx)) by (nonlinear_arith);
    assert((qy * jx) * (dx * iy) == (jx * iy) * (dx * qy)) by (nonlinear_arith);
}

/// A negative number times a height that is not negative is zero only
/// where the height is zero, and is never positive.
pub(crate) proof fn lemma_negative_times_height(c: int, h: int)
    requires
        c < 0,
        h >= 0,
    ensures
        c * h <= 0,
        c * h == 0 ==> h == 0,
{
    assert(c * h <= 0 && (c * h == 0 ==> h == 0)) by (nonlinear_arith)
        requires
            c < 0,
            h >= 0,
    ;
}

/// Two vectors of height zero over a direction that is not zero are
/// parallel.
pub(crate) proof fn lemma_flat_vectors_parallel(ix: int, iy: int, qx: int, qy: int, dx: int, dy: int)
    requires
        dx != 0 || dy != 0,
        turn(dx, dy, ix, iy) == 0,
        turn(dx, dy, qx, qy) == 0,
    ensures
        turn(ix, iy, qx, qy) == 0,
{
    let t = turn(ix, iy, qx, qy);
    assert(t * dx == 0 && t * dy == 0) by (nonlinear_arith)
        requires
            t == ix * qy - iy * qx,
            dx * iy - dy * ix == 0,
            dx * qy - dy * qx == 0,
    ;
    assert(t == 0) by (nonlinear_arith)
        requires
            t * dx == 0,
            t * dy == 0,
            dx != 0 || dy != 0,
    ;
}

/// Among vectors on one side of a line through their common origin, turning
/// clockwise is transitive: where the turn from `i` to `q` is clockwise by
/// `e` or more, and so is the turn from `q` to `j`, the turn from `i` to `j`
/// is not counterclockwise by `e` or more.
pub(crate) proof fn lemma_turn_transitive(
    ix: int,
    iy: int,
    qx: int,
    qy: int,
    jx: int,
    jy: int,
    dx: int,
    dy: int,
    e: int,
)
    requires
        e > 0,
        dx != 0 || dy != 0,
        turn(dx, dy, ix, iy) >= 0,
        turn(dx, dy, qx, qy) >= 0,
        turn(dx, dy, jx, jy) >= 0,
        turn(ix, iy, qx, qy) <= -e,
        turn(jx, jy, qx, qy) >= e,
    ensures
        turn(ix, iy, jx, jy) < e,
{
    if turn(ix, iy, jx, jy) >= e {
        let a = turn(ix, iy, qx, qy);
        let b = turn(qx, qy, jx, jy);
        let c = turn(jx, jy, ix, iy);
        let hi = turn(dx, dy, ix, iy);
        let hq = turn(dx, dy, qx, qy);
        let hj = turn(dx, dy, jx, jy);
        assert(b == -turn(jx, jy, qx, qy)) by (nonlinear_arith)
            requires
                b == qx * jy - qy * jx,
                turn(jx, jy, qx, qy) == jx * qy - jy * qx,
        ;
        assert(c == -turn(ix, iy, jx, jy)) by (nonlinear_arith)
            requires
                c == jx * iy - jy * ix,
                turn(ix, iy, jx, jy) == ix * jy - iy * jx,
        ;
        lemma_turn_cycle(ix, iy, qx, qy, jx, jy, dx, dy);
        lemma_negative_times_height(a, hj);
        lemma_negative_times_height(b, hi);
        lemma_negative_times_height(c, hq);
        assert(a * hj + b * hi + c * hq == 0);
        assert(hi == 0 && hq == 0);
        lemma_flat_vectors_parallel(ix, iy, qx, qy, dx, dy);
    }
}

/// A vector on the ray of `q` turns to a third vector as `q` does: where
/// `i` and `q` are parallel and point the same way, and the turn from `q`
/// to `j` is clockwise by `e` or more, the turn from `i` to `j` is not
/// counterclockwise.
pub(crate) proof fn lemma_same_ray_turn(
    ix: int,
    iy: int,
    qx: int,
    qy: int,
    jx: int,
    jy: int,
    e: int,
)
    requires
        e > 0,
        turn(ix, iy, qx, qy) == 0,
        ix * qx + iy * qy > 0,
        turn(jx, jy, qx, qy) >= e,
    ensures
        turn(ix, iy, jx, jy) < 0,
{
    lemma_turn_cycle(ix, iy, qx, qy, jx, jy, qy, -qx);
    let a = turn(ix, iy, qx, qy);
    let b = turn(qx, qy, jx, jy);
    let c = turn(jx, jy, ix, iy);
    let hi = turn(qy, -qx, ix, iy);
    let hq = turn(qy, -qx, qx, qy);
    let hj = turn(qy, -qx, jx, jy);
    assert(hi == ix * qx + iy * qy) by (nonlinear_arith)
        requires
            hi == qy * iy - (-qx) * ix,
    ;
    assert(hq >= 0) by (nonlinear_arith)
        requires
            hq == qy * qy - (-qx) * qx,
    ;
    assert(b == -turn(jx, jy, qx, qy)) by (nonlinear_arith)
        requires
            b == qx * jy - qy * jx,
            turn(jx, jy, qx, qy) == jx * qy - jy * qx,
    ;
    assert(c == -turn(ix, iy, jx, jy)) by (nonlinear_arith)
        requires
            c == jx * iy - jy * ix,
            turn(ix, iy, jx, jy) == ix * jy - iy * jx,
    ;
    assert(a * hj == 0) by (nonlinear_arith)
        requires
            a == 0,
    ;
    assert(b * hi < 0) by (nonlinear_arith)
        requires
            b < 0,
            hi > 0,
    ;
    assert(c > 0) by (nonlinear_arith)
        requires
            c * hq > 0,
            hq >= 0,
    ;
}

/// A point that stands clear shares its place with no other point of a list
/// of three or more.
pub(crate) proof fn lemma_distinct_points(points: Seq<Point>, p: int, q: int)
    requires
        points.len() >= 3,
        0 <= p < points.len(),
        0 <= q < points.len(),
        p != q,
        stands_clear(points, p),
    ensures
        points[p] != points[q],
{
    let r = if p != 0 && q != 0 {
        0int
    } else if p != 1 && q != 1 {
        1int
    } else {
        2int
    };
    assert(orientation(points[p], points[q], points[r]) != 0 || same_ray(
        points[p],
        points[q],
        points[r],
    ) || (clearly_inside(points, p, q) && clearly_inside(points, p, r)));
    if points[p] == points[q] {
        lemma_flat_triangle(points[p], points[r]);
        lemma_flat_triangle(points[p], points[next_vertex(points, p)]);
        let vx = points[r].x - points[p].x;
        let vy = points[r].y - points[p].y;
        assert(0 * vx + 0 * vy == 0) by (nonlinear_arith);
    }
}

/// No three points of the list lie on one line, up to the tolerance.
pub open spec fn general_position(points: Seq<Point>) -> bool {
    forall|i: int, j: int, k: int|
        0 <= i < points.len() && 0 <= j < points.len() && 0 <= k < points.len() && i != j && j != k
            && i != k ==> #[trigger] orientation(points[i], points[j], points[k]) != 0
}

/// The dot product of the vectors from `o` to `a` and from `o` to `b`.
pub open spec fn inner(o: Point, a: Point, b: Point) -> int {
    (a.x - o.x) * (b.x - o.x) + (a.y - o.y) * (b.y - o.y)
}

/// `a` and `b` lie on one ray from `o`, exactly: the three are on one line,
/// and `a` and `b` on the same side of `o`, neither in the place of `o`.
pub open spec fn same_ray(o: Point, a: Point, b: Point) -> bool {
    twice_signed_area(o, a, b) == 0 && inner(o, a, b) > 0
}

/// `points[i]` lies clearly inside the edge that leaves the vertex
/// `points[p]`: the turn from `points[p]` through it to the vertex after
/// `points[p]` is clockwise by more than the tolerance hides.
pub open spec fn clearly_inside(points: Seq<Point>, p: int, i: int) -> bool {
    orientation(points[p], points[i], points[next_vertex(points, p)]) == 1
}

/// `points[p]` stands clear of every two other points of the list: they
/// make a turn with it that the tolerance does not hide, or lie exactly on
/// one ray from it, or both lie clearly inside the edge that leaves it.
/// What is left out is a point that is nearly in line with `points[p]` and
/// another point, or exactly in line on the other side of it, or in its
/// place, unless both points are clearly inside that edge: so a point of
/// the list within the tolerance of an edge of the hull without being
/// exactly on it, and a vertex that occurs twice.
pub open spec fn stands_clear(points: Seq<Point>, p: int) -> bool {
    forall|i: int, j: int|
        0 <= i < points.len() && 0 <= j < points.len() && i != j && i != p && j != p ==> {
            ||| #[trigger] orientation(points[p], points[i], points[j]) != 0
            ||| same_ray(points[p], points[i], points[j])
            ||| (clearly_inside(points, p, i) && clearly_inside(points, p, j))
        }
}

/// Every vertex of the hull stands clear of every two other points. This
/// asks nothing of the points that are clearly inside the hull, whether or
/// not they are in line with a vertex, as the centre of a square is.
pub open spec fn hull_stands_clear(points: Seq<Point>) -> bool {
    forall|k: int|
        0 <= k < hull_indices(points).len() ==> stands_clear(
            points,
            #[trigger] hull_indices(points)[k],
        )
}

/// In general position every point stands clear.
pub(crate) proof fn lemma_general_position_stands_clear(points: Seq<Point>, p: int)
    requires
        general_position(points),
        0 <= p < points.len(),
    ensures
        stands_clear(points, p),
{
}

/// Every point of the list lies on the line through `points[p]` with the
/// direction `(dx, dy)`, or to the left of it.
pub open spec fn half_plane(points: Seq<Point>, p: int, dx: int, dy: int) -> bool {
    &&& dx != 0 || dy != 0
    &&& forall|i: int|
        0 <= i < points.len() ==> turn(
            dx,
            dy,
            #[trigger] points[i].x - points[p].x,
            points[i].y - points[p].y,
        ) >= 0
}

/// The line from `points[p]` to `points[q]` has the whole list on one side:
/// the two points differ, and every point of the list lies on the line or
/// to the left of it, exactly.
pub open spec fn supports(points: Seq<Point>, p: int, q: int) -> bool {
    &&& 0 <= p < points.len()
    &&& 0 <= q < points.len()
    &&& points[p] != points[q]
    &&& forall|i: int|
        0 <= i < points.len() ==> twice_signed_area(points[p], #[trigger] points[i], points[q])
            <= 0
}

/// A triangle with two corners in one place has no area.
pub(crate) proof fn lemma_flat_triangle(a: Point, b: Point)
    ensures
        twice_signed_area(a, a, b) == 0,
        twice_signed_area(a, b, b) == 0,
        twice_signed_area(a, b, a) == 0,
{
    lemma_area_is_turn(a, a, b);
    lemma_area_is_turn(a, b, b);
    lemma_area_is_turn(a, b, a);
    assert(turn(0, 0, b.x - a.x, b.y - a.y) == 0) by (nonlinear_arith)
        requires
            turn(0, 0, b.x - a.x, b.y - a.y) == 0 * (b.y - a.y) - 0 * (b.x - a.x),
    ;
    assert(turn(b.x - a.x, b.y - a.y, b.x - a.x, b.y - a.y) == 0) by (nonlinear_arith)
        requires
            turn(b.x - a.x, b.y - a.y, b.x - a.x, b.y - a.y) == (b.x - a.x) * (b.y - a.y) - (b.y
                - a.y) * (b.x - a.x),
    ;
    assert(turn(b.x - a.x, b.y - a.y, 0, 0) == 0) by (nonlinear_arith)
        requires
            turn(b.x - a.x, b.y - a.y, 0, 0) == (b.x - a.x) * 0 - (b.y - a.y) * 0,
    ;
}

/// Where `points[p]` stands clear and has the list on one side of a line
/// through it, the turn from `points[p]` through any of the first `k`
/// points to the candidate that the scan holds after them is not
/// counterclockwise, unless the point is clearly inside the edge that
/// leaves `points[p]`; and the candidate is not `p`.
pub(crate) proof fn lemma_sweep_keeps_rightmost(points: Seq<Point>, p: int, k: int, dx: int, dy: int)
    requires
        points.len() > 3,
        stands_clear(points, p),
        0 <= p < points.len(),
        half_plane(points, p, dx, dy),
        0 <= k <= points.len(),
    ensures
        0 <= sweep(points, p, k) < points.len(),
        sweep(points, p, k) != p,
        forall|i: int|
            0 <= i < k ==> orientation(points[p], #[trigger] points[i], points[sweep(points, p, k)])
                != 2 || clearly_inside(points, p, i),
    decreases k,
{
    if k > 0 {
        lemma_sweep_keeps_rightmost(points, p, k - 1, dx, dy);
        let q = sweep(points, p, k - 1);
        let j = k - 1;
        let o = points[p];
        if orientation(o, points[j], points[q]) == 2 {
            lemma_flat_triangle(o, points[q]);
            assert(j != p);
            assert(j != q) by {
                lemma_flat_triangle(o, points[j]);
            }
            assert forall|i: int| 0 <= i < k implies orientation(o, #[trigger] points[i], points[j])
                != 2 || clearly_inside(points, p, i) by {
                if clearly_inside(points, p, i) {
                } else if i == j {
                    lemma_flat_triangle(o, points[j]);
                } else if i == p {
                    lemma_flat_triangle(o, points[j]);
                } else if i == q {
                    lemma_orientation_swap(o, points[j], points[q]);
                } else {
                    assert(orientation(o, points[i], points[q]) != 0 || same_ray(
                        o,
                        points[i],
                        points[q],
                    ) || (clearly_inside(points, p, i) && clearly_inside(points, p, q)));
                    lemma_area_is_turn(o, points[i], points[q]);
                    lemma_area_is_turn(o, points[j], points[q]);
                    lemma_area_is_turn(o, points[i], points[j]);
                    if orientation(o, points[i], points[q]) != 0 {
                        lemma_turn_transitive(
                            points[i].x - o.x,
                            points[i].y - o.y,
                            points[q].x - o.x,
                            points[q].y - o.y,
                            points[j].x - o.x,
                            points[j].y - o.y,
                            dx,
                            dy,
                            2 * EPSILON_SQ,
                        );
                    } else {
                        lemma_same_ray_turn(
                            points[i].x - o.x,
                            points[i].y - o.y,
                            points[q].x - o.x,
                            points[q].y - o.y,
                            points[j].x - o.x,
                            points[j].y - o.y,
                            2 * EPSILON_SQ,
                        );
                    }
                }
            }
        }
    }
}

/// Where `points[p]` stands clear and has the list on one side of a line
/// through it, the line from it to the vertex after it has the whole list
/// on one side, and so does the same line taken through that next vertex.
pub(crate) proof fn lemma_next_vertex_supports(points: Seq<Point>, p: int, dx: int, dy: int)
    requires
        points.len() > 3,
        stands_clear(points, p),
        0 <= p < points.len(),
        half_plane(points, p, dx, dy),
    ensures
        supports(points, p, next_vertex(points, p)),
        next_vertex(points, p) != p,
        half_plane(
            points,
            next_vertex(points, p),
            points[next_vertex(points, p)].x - points[p].x,
            points[next_vertex(points, p)].y - points[p].y,
        ),
{
    let n = points.len() as int;
    let q = next_vertex(points, p);
    lemma_sweep_keeps_rightmost(points, p, n, dx, dy);
    let o = points[p];
    let t = points[q];
    let ex = t.x - o.x;
    let ey = t.y - o.y;
    lemma_distinct_points(points, p, q);
    assert(ex != 0 || ey != 0);
    assert forall|i: int| 0 <= i < n implies twice_signed_area(o, #[trigger] points[i], t)
        <= 0 by {
        assert(orientation(o, points[i], t) != 2);
        lemma_flat_triangle(o, t);
        if i != p && i != q {
            assert(orientation(o, points[i], t) != 0 || same_ray(o, points[i], t) || (
            clearly_inside(points, p, i) && clearly_inside(points, p, q)));
        }
    }
    assert forall|i: int| 0 <= i < n implies turn(
        ex,
        ey,
        #[trigger] points[i].x - t.x,
        points[i].y - t.y,
    ) >= 0 by {
        let vx = points[i].x - o.x;
        let vy = points[i].y - o.y;
        lemma_area_is_turn(o, points[i], t);
        assert(twice_signed_area(o, points[i], t) <= 0);
        assert(turn(vx, vy, ex, ey) <= 0);
        assert(turn(ex, ey, vx - ex, vy - ey) == -turn(vx, vy, ex, ey)) by (nonlinear_arith)
            requires
                turn(ex, ey, vx - ex, vy - ey) == ex * (vy - ey) - ey * (vx - ex),
                turn(vx, vy, ex, ey) == vx * ey - vy * ex,
        ;
    }
}

/// Where the vertices that the march visits stand clear, and the first of
/// them has the list on one side of a line through it, each of them has the
/// list on one side of the line to the vertex after it.
pub(crate) proof fn lemma_march_supports(
    points: Seq<Point>,
    start: int,
    p: int,
    fuel: nat,
    dx: int,
    dy: int,
    k: int,
)
    requires
        points.len() > 3,
        0 <= p < points.len(),
        half_plane(points, p, dx, dy),
        0 <= k < march(points, start, p, fuel).len(),
        forall|m: int|
            0 <= m <= k ==> stands_clear(points, #[trigger] march(points, start, p, fuel)[m]),
    ensures
        supports(points, march(points, start, p, fuel)[k], next_vertex(
            points,
            march(points, start, p, fuel)[k],
        )),
    decreases fuel,
{
    let q = next_vertex(points, p);
    assert(march(points, start, p, fuel)[0] == p);
    lemma_next_vertex_supports(points, p, dx, dy);
    if k > 0 {
        assert forall|m: int| 0 <= m <= k - 1 implies stands_clear(
            points,
            #[trigger] march(points, start, q, (fuel - 1) as nat)[m],
        ) by {
            assert(march(points, start, p, fuel)[m + 1] == march(
                points,
                start,
                q,
                (fuel - 1) as nat,
            )[m]);
        }
        lemma_march_supports(
            points,
            start,
            q,
            (fuel - 1) as nat,
            points[q].x - points[p].x,
            points[q].y - points[p].y,
            k - 1,
        );
    }
}

/// Where the hull vertices stand clear, every vertex that the march visits
/// from the leftmost point has the whole list on one side of the line to
/// the vertex after it.
pub proof fn lemma_hull_indices_supported(points: Seq<Point>, k: int)
    requires
        points.len() > 3,
        hull_stands_clear(points),
        0 <= k < hull_indices(points).len(),
    ensures
        supports(points, hull_indices(points)[k], next_vertex(points, hull_indices(points)[k])),
{
    let l = leftmost(points);
    assert(is_leftmost(points, l)) by {
        lemma_leftmost_exists(points);
    }
    assert forall|i: int| 0 <= i < points.len() implies turn(
        0,
        -1,
        #[trigger] points[i].x - points[l].x,
        points[i].y - points[l].y,
    ) >= 0 by {
        let vx = points[i].x - points[l].x;
        let vy = points[i].y - points[l].y;
        assert(turn(0, -1, vx, vy) == vx) by (nonlinear_arith)
            requires
                turn(0, -1, vx, vy) == 0 * vy - (-1) * vx,
        ;
    }
    lemma_march_supports(points, l, l, points.len(), 0, -1, k);
}

/// Some line through `v` and another point of the list has the whole list
/// on one side: every point of the list lies on the line from `v` to that
/// other point or to the left of it, exactly. A point that lies strictly
/// inside a triangle of points of the list has no such line.
pub open spec fn is_extreme(points: Seq<Point>, v: Point) -> bool {
    exists|q: int|
        0 <= q < points.len() && #[trigger] points[q] != v && forall|i: int|
            0 <= i < points.len() ==> twice_signed_area(v, #[trigger] points[i], points[q]) <= 0
}

/// `v` lies strictly inside the counterclockwise triangle `a`, `b`, `c`.
pub open spec fn strictly_inside(v: Point, a: Point, b: Point, c: Point) -> bool {
    &&& twice_signed_area(v, a, b) > 0
    &&& twice_signed_area(v, b, c) > 0
    &&& twice_signed_area(v, c, a) > 0
}

/// An extreme point of the list lies strictly inside no triangle with its
/// corners in the list.
pub proof fn lemma_extreme_not_inside(points: Seq<Point>, v: Point, a: int, b: int, c: int)
    requires
        is_extreme(points, v),
        0 <= a < points.len(),
        0 <= b < points.len(),
        0 <= c < points.len(),
    ensures
        !strictly_inside(v, points[a], points[b], points[c]),
{
    let q = choose|q: int|
        0 <= q < points.len() && #[trigger] points[q] != v && forall|i: int|
            0 <= i < points.len() ==> twice_signed_area(v, #[trigger] points[i], points[q]) <= 0;
    let dx = points[q].x - v.x;
    let dy = points[q].y - v.y;
    let ax = points[a].x - v.x;
    let ay = points[a].y - v.y;
    let bx = points[b].x - v.x;
    let by = points[b].y - v.y;
    let cx = points[c].x - v.x;
    let cy = points[c].y - v.y;
    if strictly_inside(v, points[a], points[b], points[c]) {
        lemma_area_is_turn(v, points[a], points[b]);
        lemma_area_is_turn(v, points[b], points[c]);
        lemma_area_is_turn(v, points[c], points[a]);
        lemma_height_over_line(v, points[a], points[q]);
        lemma_height_over_line(v, points[b], points[q]);
        lemma_height_over_line(v, points[c], points[q]);
        lemma_turn_cycle(bx, by, cx, cy, ax, ay, dx, dy);
        lemma_positive_times_height(turn(bx, by, cx, cy), turn(dx, dy, ax, ay));
        lemma_positive_times_height(turn(cx, cy, ax, ay), turn(dx, dy, bx, by));
        lemma_positive_times_height(turn(ax, ay, bx, by), turn(dx, dy, cx, cy));
        lemma_flat_vectors_parallel(ax, ay, bx, by, dx, dy);
    }
}

/// The height of `p` over the line from `v` to `q` is the negated signed
/// area of the triangle `v`, `p`, `q`.
proof fn lemma_height_over_line(v: Point, p: Point, q: Point)
    ensures
        turn(q.x - v.x, q.y - v.y, p.x - v.x, p.y - v.y) == -twice_signed_area(v, p, q),
{
    lemma_area_is_turn(v, p, q);
    let px = p.x - v.x;
    let py = p.y - v.y;
    let qx = q.x - v.x;
    let qy = q.y - v.y;
    assert(qx * py - qy * px == -(px * qy - py * qx)) by (nonlinear_arith);
}

/// A positive number times a height that is not negative is zero only where
/// the height is zero, and is never negative.
proof fn lemma_positive_times_height(c: int, h: int)
    requires
        c > 0,
        h >= 0,
    ensures
        c * h >= 0,
        c * h == 0 ==> h == 0,
{
    assert(c * h >= 0 && (c * h == 0 ==> h == 0)) by (nonlinear_arith)
        requires
            c > 0,
            h >= 0,
    ;
}

/// Where every hull vertex stands clear of every two other points, every
/// vertex of the hull of more than three points is an extreme point of the
/// list, and no point of the list lies to the right of
/// an edge that joins two consecutive vertices of the hull.
pub proof fn lemma_hull_vertices_extreme(points: Seq<Point>, k: int)
    requires
        points.len() > 3,
        hull_stands_clear(points),
        0 <= k < hull_of(points).len(),
    ensures
        is_extreme(points, hull_of(points)[k]),
        k + 1 < hull_of(points).len() ==> forall|i: int|
            0 <= i < points.len() ==> twice_signed_area(
                hull_of(points)[k],
                #[trigger] points[i],
                hull_of(points)[k + 1],
            ) <= 0,
{
    lemma_hull_indices_supported(points, k);
    lemma_leftmost_exists(points);
    lemma_march_steps(points, leftmost(points), leftmost(points), points.len(), k);
    let p = hull_indices(points)[k];
    let q = next_vertex(points, p);
    assert(hull_of(points)[k] == points[p]);
    assert(points[q] != points[p]);
}

/// No vertex of the hull lies strictly inside a triangle with its corners
/// in the list, where the list has three points or fewer or every hull
/// vertex stands clear of every two other points.
pub proof fn lemma_hull_vertices_not_inside(points: Seq<Point>, k: int, a: int, b: int, c: int)
    requires
        points.len() <= 3 || hull_stands_clear(points),
        0 <= k < hull_of(points).len(),
        0 <= a < points.len(),
        0 <= b < points.len(),
        0 <= c < points.len(),
    ensures
        !strictly_inside(hull_of(points)[k], points[a], points[b], points[c]),
{
    let v = hull_of(points)[k];
    if points.len() <= 3 {
        lemma_flat_triangle(v, points[a]);
        lemma_flat_triangle(v, points[b]);
        lemma_flat_triangle(v, points[c]);
    } else {
        lemma_hull_vertices_extreme(points, k);
        lemma_extreme_not_inside(points, v, a, b, c);
    }
}

/// In general position, with no three points on one line up to the
/// tolerance, every vertex of the hull stands clear, so that what holds of
/// such hulls holds of the hull of these points: its vertices are extreme
/// points of the list.
pub proof fn lemma_general_position_clears_hull(points: Seq<Point>)
    requires
        points.len() > 3,
        general_position(points),
    ensures
        hull_stands_clear(points),
        forall|k: int|
            0 <= k < hull_of(points).len() ==> is_extreme(points, #[trigger] hull_of(points)[k]),
{
    lemma_leftmost_exists(points);
    assert forall|m: int| 0 <= m < hull_indices(points).len() implies stands_clear(
        points,
        #[trigger] hull_indices(points)[m],
    ) by {
        lemma_march_steps(points, leftmost(points), leftmost(points), points.len(), m);
        lemma_general_position_stands_clear(points, hull_indices(points)[m]);
    }
    assert forall|k: int| 0 <= k < hull_of(points).len() implies is_extreme(
        points,
        #[trigger] hull_of(points)[k],
    ) by {
        lemma_hull_vertices_extreme(points, k);
    }
}

} // verus!
