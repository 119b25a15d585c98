//! Sorting indices into a point list by one coordinate of the points, with
//! every tie broken, so that a list has one sorted order.

use crate::point::Point;
use vstd::multiset::group_multiset_axioms;
use vstd::prelude::*;
use vstd::seq_lib::group_to_multiset_ensures;
use vstd::seq_lib::lemma_multiset_commutative;
use vstd::seq_lib::to_multiset_build;

verus! {

/// The coordinate of `p` along an axis: `y` where `vertical` is set, else `x`.
pub open spec fn coordinate(p: Point, vertical: bool) -> int {
    if vertical {
        p.y as int
    } else {
        p.x as int
    }
}

/// Every member of `s` is an index into a list of `n` points.
pub open spec fn indices_below(s: Seq<usize>, n: int) -> bool {
    forall|i: int| 0 <= i < s.len() ==> #[trigger] s[i] < n
}

/// Point `a` comes before point `b` from left to right: it has the smaller
/// x, or the same x and the smaller index.
pub open spec fn left_first(points: Seq<Point>, a: usize, b: usize) -> bool {
    points[a as int].x < points[b as int].x || (points[a as int].x == points[b as int].x && a < b)
}

/// Point `a` comes before point `b` in the sorted order: from left to right,
/// or, where `vertical` is set, from bottom to top with points of one
/// height from left to right. This is the order that a stable sort by `y`
/// gives to a list that stands from left to right. Of two different
/// indices one comes before the other.
pub open spec fn precedes(points: Seq<Point>, a: usize, b: usize, vertical: bool) -> bool {
    if vertical {
        points[a as int].y < points[b as int].y || (points[a as int].y == points[b as int].y
            && left_first(points, a, b))
    } else {
        left_first(points, a, b)
    }
}

/// No member of `s` comes before a member that stands earlier in `s`.
pub open spec fn sorted_by(points: Seq<Point>, s: Seq<usize>, vertical: bool) -> bool {
    forall|i: int, j: int|
        0 <= i <= j < s.len() ==> !precedes(points, #[trigger] s[j], #[trigger] s[i], vertical)
}

/// `out` holds the members of `input`, each as often, in sorted order.
pub open spec fn sorting(points: Seq<Point>, input: Seq<usize>, out: Seq<usize>, vertical: bool) -> bool {
    out.to_multiset() == input.to_multiset() && sorted_by(points, out, vertical)
}

/// Whether point `a` comes before point `b` in the sorted order.
pub(crate) fn comes_before(points: &Vec<Point>, a: usize, b: usize, vertical: bool) -> (before: bool)
    requires
        a < points.len(),
        b < points.len(),
    ensures
        before == precedes(points@, a, b, vertical),
{
    let p: Point = points[a];
    let q: Point = points[b];
    let left: bool = p.x < q.x || (p.x == q.x && a < b);
    if vertical {
        p.y < q.y || (p.y == q.y && left)
    } else {
        left
    }
}

/// Merges two sorted index lists into one.
pub(crate) fn merge(points: &Vec<Point>, left: &Vec<usize>, right: &Vec<usize>, vertical: bool) -> (out:
    Vec<usize>)
    requires
        indices_below(left@, points.len() as int),
        indices_below(right@, points.len() as int),
        sorted_by(points@, left@, vertical),
        sorted_by(points@, right@, vertical),
    ensures
        out@.to_multiset() == left@.to_multiset().add(right@.to_multiset()),
        out.len() == left.len() + right.len(),
        indices_below(out@, points.len() as int),
        sorted_by(points@, out@, vertical),
{
    broadcast use {group_to_multiset_ensures, group_multiset_axioms};

    let mut out: Vec<usize> = Vec::new();
    let mut i: usize = 0;
    let mut j: usize = 0;
    assert(left@.take(0) =~= Seq::<usize>::empty());
    assert(right@.take(0) =~= Seq::<usize>::empty());
    while i < left.len() || j < right.len()
        invariant
            i <= left.len(),
            j <= right.len(),
            out.len() == i + j,
            indices_below(left@, points.len() as int),
            indices_below(right@, points.len() as int),
            sorted_by(points@, left@, vertical),
            sorted_by(points@, right@, vertical),
            out@.to_multiset() =~= left@.take(i as int).to_multiset().add(
                right@.take(j as int).to_multiset(),
            ),
            indices_below(out@, points.len() as int),
            sorted_by(points@, out@, vertical),
            forall|k: int|
                0 <= k < out.len() && i < left.len() ==> !precedes(
                    points@,
                    left[i as int],
                    #[trigger] out[k],
                    vertical,
                ),
            forall|k: int|
                0 <= k < out.len() && j < right.len() ==> !precedes(
                    points@,
                    right[j as int],
                    #[trigger] out[k],
                    vertical,
                ),
        decreases left.len() - i + right.len() - j,
    {
        let take_left: bool = if i >= left.len() {
            false
        } else if j >= right.len() {
            true
        } else {
            !comes_before(points, right[j], left[i], vertical)
        };
        let ghost before = out@;
        let ghost seen_left = left@.take(i as int);
        let ghost seen_right = right@.take(j as int);
        if take_left {
            out.push(left[i]);
            proof {
                let x = left[i as int];
                assert(left@.take(i + 1) =~= seen_left.push(x));
                assert(out@ =~= before.push(x));
                assert(before.to_multiset().insert(x) =~= seen_left.to_multiset().insert(x).add(
                    seen_right.to_multiset(),
                ));
                to_multiset_build(before, x);
                to_multiset_build(seen_left, x);
            }
            i = i + 1;
        } else {
            out.push(right[j]);
            proof {
                let x = right[j as int];
                assert(right@.take(j + 1) =~= seen_right.push(x));
                assert(out@ =~= before.push(x));
                assert(before.to_multiset().insert(x) =~= seen_left.to_multiset().add(
                    seen_right.to_multiset().insert(x),
                ));
                to_multiset_build(before, x);
                to_multiset_build(seen_right, x);
            }
            j = j + 1;
        }
    }
    assert(left@.take(i as int) =~= left@);
    assert(right@.take(j as int) =~= right@);
    out
}

/// The members of `indices` from position `lo` up to `hi`, sorted by the
/// coordinate of the points they name.
pub(crate) fn sort_range(
    points: &Vec<Point>,
    indices: &Vec<usize>,
    lo: usize,
    hi: usize,
    vertical: bool,
) -> (out: Vec<usize>)
    requires
        lo <= hi <= indices.len(),
        indices_below(indices@, points.len() as int),
    ensures
        out@.to_multiset() == indices@.subrange(lo as int, hi as int).to_multiset(),
        out.len() == hi - lo,
        indices_below(out@, points.len() as int),
        sorted_by(points@, out@, vertical),
    decreases hi - lo,
{
    broadcast use group_to_multiset_ensures;

    if hi - lo <= 1 {
        let mut out: Vec<usize> = Vec::new();
        if hi - lo == 1 {
            out.push(indices[lo]);
            assert(indices@.subrange(lo as int, hi as int) =~= Seq::<usize>::empty().push(
                indices[lo as int],
            ));
        } else {
            assert(indices@.subrange(lo as int, hi as int) =~= Seq::<usize>::empty());
        }
        return out;
    }
    let mid: usize = lo + (hi - lo) / 2;
    let left: Vec<usize> = sort_range(points, indices, lo, mid, vertical);
    let right: Vec<usize> = sort_range(points, indices, mid, hi, vertical);
    proof {
        assert(indices@.subrange(lo as int, hi as int) =~= indices@.subrange(lo as int, mid as int)
            + indices@.subrange(mid as int, hi as int));
        lemma_multiset_commutative(
            indices@.subrange(lo as int, mid as int),
            indices@.subrange(mid as int, hi as int),
        );
    }
    merge(points, &left, &right, vertical)
}

/// All of `indices`, sorted by the coordinate of the points they name.
pub fn sort_indices(points: &Vec<Point>, indices: &Vec<usize>, vertical: bool) -> (out: Vec<usize>)
    requires
        indices_below(indices@, points.len() as int),
    ensures
        out@.to_multiset() == indices@.to_multiset(),
        out.len() == indices.len(),
        indices_below(out@, points.len() as int),
        sorted_by(points@, out@, vertical),
{
    assert(indices@.subrange(0, indices.len() as int) =~= indices@);
    sort_range(points, indices, 0, indices.len(), vertical)
}

} // verus!
