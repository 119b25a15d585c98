//! The convex hull of a point set, by gift wrapping.

use crate::convex::encloses;
use crate::convex::lemma_hull_encloses;
use crate::extreme::hull_stands_clear;
use crate::extreme::is_extreme;
use crate::extreme::lemma_hull_vertices_extreme;
use crate::point::Point;
use crate::point::orientation;
use crate::polygon::successor;
use vstd::prelude::*;

verus! {

/// `a` comes before `b` in the choice of the starting vertex: it lies
/// further left, or as far left and higher.
pub open spec fn left_of(a: Point, b: Point) -> bool {
    a.x < b.x || (a.x == b.x && a.y > b.y)
}

/// `m` is the first index of the leftmost point, the highest of them where
/// several are as far left.
pub open spec fn is_leftmost(points: Seq<Point>, m: int) -> bool {
    &&& 0 <= m < points.len()
    &&& forall|i: int| 0 <= i < points.len() ==> !left_of(#[trigger] points[i], points[m])
    &&& forall|i: int| 0 <= i < m ==> left_of(points[m], #[trigger] points[i])
}

/// The index at which the hull starts.
pub open spec fn leftmost(points: Seq<Point>) -> int {
    choose|m: int| is_leftmost(points, m)
}

/// The candidate for the vertex after `p` once the first `k` points have
/// been looked at. The first candidate is the point after `p` in the list,
/// the first after the last; a point replaces the candidate where the turn
/// from `p` through that point to the candidate is counterclockwise.
pub open spec fn sweep(points: Seq<Point>, p: int, k: int) -> int
    decreases k,
{
    if k <= 0 {
        successor(points, p)
    } else if orientation(points[p], points[k - 1], points[sweep(points, p, k - 1)]) == 2 {
        k - 1
    } else {
        sweep(points, p, k - 1)
    }
}

/// The hull vertex after `p`.
pub open spec fn next_vertex(points: Seq<Point>, p: int) -> int {
    sweep(points, p, points.len() as int)
}

/// The vertices that the march visits from `p` on, until it is back at
/// `start` or has taken `fuel` steps.
pub open spec fn march(points: Seq<Point>, start: int, p: int, fuel: nat) -> Seq<int>
    decreases fuel,
{
    if fuel == 0 {
        Seq::empty()
    } else if next_vertex(points, p) == start {
        seq![p]
    } else {
        seq![p] + march(points, start, next_vertex(points, p), (fuel - 1) as nat)
    }
}

/// The indices of the hull vertices of more than three points, in the order
/// of the march.
pub open spec fn hull_indices(points: Seq<Point>) -> Seq<int> {
    march(points, leftmost(points), leftmost(points), points.len())
}

/// The points that the indices `idx` name.
pub open spec fn select(points: Seq<Point>, idx: Seq<int>) -> Seq<Point> {
    Seq::new(idx.len(), |k: int| points[idx[k]])
}

/// What `convex_hull` answers: three points or fewer are their own hull.
pub open spec fn hull_of(points: Seq<Point>) -> Seq<Point> {
    if points.len() <= 3 {
        points
    } else {
        select(points, hull_indices(points))
    }
}

/// Only one index is the leftmost.
pub proof fn lemma_leftmost_unique(points: Seq<Point>, m: int)
    requires
        is_leftmost(points, m),
    ensures
        leftmost(points) == m,
{
    let c = leftmost(points);
    assert(is_leftmost(points, c));
    if c < m {
        assert(left_of(points[m], points[c]));
    } else if m < c {
        assert(left_of(points[c], points[m]));
    }
}

/// The first index of the leftmost point among the first `k` points.
proof fn leftmost_of_prefix(points: Seq<Point>, k: int) -> (m: int)
    requires
        1 <= k <= points.len(),
    ensures
        0 <= m < k,
        forall|i: int| 0 <= i < k ==> !left_of(#[trigger] points[i], points[m]),
        forall|i: int| 0 <= i < m ==> left_of(points[m], #[trigger] points[i]),
    decreases k,
{
    if k == 1 {
        0
    } else {
        let m = leftmost_of_prefix(points, k - 1);
        if left_of(points[k - 1], points[m]) {
            k - 1
        } else {
            m
        }
    }
}

/// A list that is not empty has a leftmost point.
pub proof fn lemma_leftmost_exists(points: Seq<Point>)
    requires
        points.len() > 0,
    ensures
        is_leftmost(points, leftmost(points)),
{
    let m = leftmost_of_prefix(points, points.len() as int);
    assert(is_leftmost(points, m));
}

/// The index of the leftmost point, the highest of them where several are as
/// far left, the first where several are the same; 0 for an empty list.
pub fn leftmost_index(points: &Vec<Point>) -> (m: usize)
    ensures
        points.len() > 0 ==> is_leftmost(points@, m as int) && m == leftmost(points@),
        points.len() == 0 ==> m == 0,
{
    if points.len() == 0 {
        return 0;
    }
    let mut m: usize = 0;
    let mut i: usize = 1;
    while i < points.len()
        invariant
            0 <= m < i <= points.len(),
            forall|k: int| 0 <= k < i ==> !left_of(#[trigger] points[k], points[m as int]),
            forall|k: int| 0 <= k < m ==> left_of(points[m as int], #[trigger] points[k]),
        decreases points.len() - i,
    {
        if points[i].x < points[m].x {
            m = i;
        } else if points[i].x == points[m].x {
            if points[i].y > points[m].y {
                m = i;
            }
        }
        i = i + 1;
    }
    proof {
        lemma_leftmost_unique(points@, m as int);
    }
    m
}

/// The candidate for the next vertex is always a point of the list.
pub(crate) proof fn lemma_sweep_in_range(points: Seq<Point>, p: int, k: int)
    requires
        0 <= p < points.len(),
        0 <= k <= points.len(),
    ensures
        0 <= sweep(points, p, k) < points.len(),
    decreases k,
{
    if k > 0 {
        lemma_sweep_in_range(points, p, k - 1);
    }
}

/// The hull vertex after `p`: the point that no other point beats by a
/// counterclockwise turn, as far as the scan can tell.
pub fn next_hull_vertex(points: &Vec<Point>, p: usize) -> (q: usize)
    requires
        p < points.len(),
    ensures
        q == next_vertex(points@, p as int),
        q < points.len(),
{
    let n: usize = points.len();
    let mut q: usize = if p + 1 == n {
        0
    } else {
        p + 1
    };
    let mut i: usize = 0;
    while i < n
        invariant
            i <= n,
            n == points.len(),
            p < n,
            q < n,
            q == sweep(points@, p as int, i as int),
        decreases n - i,
    {
        if points[p].orientation(&points[i], &points[q]) == 2 {
            q = i;
        }
        i = i + 1;
    }
    q
}

/// The march takes at most `fuel` steps.
pub proof fn lemma_march_length(points: Seq<Point>, start: int, p: int, fuel: nat)
    ensures
        march(points, start, p, fuel).len() <= fuel,
        fuel > 0 ==> march(points, start, p, fuel).len() >= 1,
    decreases fuel,
{
    if fuel > 0 && next_vertex(points, p) != start {
        lemma_march_length(points, start, next_vertex(points, p), (fuel - 1) as nat);
    }
}

/// The march starts at `p`, visits points of the list, goes from each
/// vertex to the one after it, and does not come back to `start`; where it
/// ends before its steps run out, the vertex after its last is `start`.
pub proof fn lemma_march_steps(points: Seq<Point>, start: int, p: int, fuel: nat, k: int)
    requires
        0 <= p < points.len(),
        0 <= k < march(points, start, p, fuel).len(),
    ensures
        march(points, start, p, fuel)[0] == p,
        0 <= march(points, start, p, fuel)[k] < points.len(),
        k >= 1 ==> march(points, start, p, fuel)[k] != start,
        k + 1 < march(points, start, p, fuel).len() ==> march(points, start, p, fuel)[k + 1]
            == next_vertex(points, march(points, start, p, fuel)[k]),
        k + 1 == march(points, start, p, fuel).len() && k + 1 < fuel ==> next_vertex(
            points,
            march(points, start, p, fuel)[k],
        ) == start,
    decreases fuel,
{
    let q = next_vertex(points, p);
    lemma_sweep_in_range(points, p, points.len() as int);
    if k > 0 {
        lemma_march_steps(points, start, q, (fuel - 1) as nat, k - 1);
    } else if q != start && fuel > 1 {
        lemma_march_length(points, start, q, (fuel - 1) as nat);
        lemma_march_steps(points, start, q, (fuel - 1) as nat, 0);
    }
}

/// The convex hull of `points`, counterclockwise: the points themselves
/// where they are three or fewer, else the vertices that the march from the
/// leftmost point visits, each followed by the point that has no other
/// point strictly to the right of the line to it, as far as one scan can
/// tell. The march ends when it is back at its start, and at the latest
/// after as many vertices as there are points.
///
/// Where every vertex of the hull stands clear of every two other points
/// (they make a turn with it that the tolerance does not hide, or lie
/// exactly on one ray from it, or both lie clearly inside the edge that
/// leaves it), the hull is a closed convex polygon round the points, its
/// vertices are different points, and each of them is an extreme point.
/// Left out are the lists where, seen from a vertex, two points are nearly
/// in line without being on one ray, and not both clearly inside the edge
/// that leaves the vertex: a point within the tolerance of an edge, a
/// vertex between two points of an edge, a vertex that occurs twice.
pub fn convex_hull(points: &Vec<Point>) -> (hull: Vec<Point>)
    ensures
        hull@ == hull_of(points@),
        hull.len() <= points.len(),
        points.len() > 0 ==> hull.len() >= 1,
        points.len() > 3 ==> hull[0] == points[leftmost(points@)],
        points.len() > 3 && hull_stands_clear(points@) ==> encloses(hull@, points@),
        points.len() > 3 && hull_stands_clear(points@) ==> forall|k: int|
            0 <= k < hull.len() ==> is_extreme(points@, #[trigger] hull[k]),
        points.len() > 3 && hull_stands_clear(points@) ==> forall|i: int, j: int|
            0 <= i < j < hull.len() ==> #[trigger] hull[i] != #[trigger] hull[j],
{
    let n: usize = points.len();
    if n <= 3 {
        let mut hull: Vec<Point> = Vec::new();
        let mut i: usize = 0;
        while i < n
            invariant
                i <= n,
                n == points.len(),
                hull@ == points@.take(i as int),
            decreases n - i,
        {
            hull.push(points[i]);
            assert(points@.take(i + 1) =~= points@.take(i as int).push(points[i as int]));
            i = i + 1;
        }
        assert(points@.take(n as int) =~= points@);
        return hull;
    }
    let start: usize = leftmost_index(points);
    let mut hull: Vec<Point> = Vec::new();
    let ghost mut visited: Seq<int> = Seq::empty();
    let mut p: usize = start;
    let mut closed: bool = false;
    while !closed
        invariant
            n == points.len(),
            n > 3,
            start == leftmost(points@),
            start < n,
            p < n,
            hull.len() == visited.len(),
            hull@ == select(points@, visited),
            hull.len() <= n,
            !closed ==> hull.len() < n,
            !closed ==> hull_indices(points@) == visited + march(
                points@,
                start as int,
                p as int,
                (n - hull.len()) as nat,
            ),
            closed ==> hull_indices(points@) == visited,
        decreases n - hull.len() + if closed { 0int } else { 1int },
    {
        let ghost before = visited;
        let ghost rest = march(points@, start as int, p as int, (n - hull.len()) as nat);
        hull.push(points[p]);
        proof {
            visited = visited.push(p as int);
            assert(hull@ =~= select(points@, visited));
        }
        let q: usize = next_hull_vertex(points, p);
        if q == start || hull.len() == n {
            closed = true;
            proof {
                if q != start {
                    assert(march(points@, start as int, q as int, 0) =~= Seq::<int>::empty());
                }
                assert(rest =~= seq![p as int]);
                assert(visited =~= before + rest);
            }
        } else {
            proof {
                assert(before + rest =~= visited + march(
                    points@,
                    start as int,
                    q as int,
                    (n - hull.len()) as nat,
                ));
            }
            p = q;
        }
    }
    proof {
        lemma_march_length(points@, start as int, start as int, n as nat);
        assert(hull_indices(points@)[0] == start);
        if hull_stands_clear(points@) {
            lemma_hull_encloses(points@);
            assert forall|k: int| 0 <= k < hull.len() implies is_extreme(
                points@,
                #[trigger] hull[k],
            ) by {
                lemma_hull_vertices_extreme(points@, k);
            }
        }
    }
    hull
}

} // verus!
