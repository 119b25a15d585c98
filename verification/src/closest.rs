//! The closest pair of a point set, by divide and conquer.

use crate::fixed::diff;
use crate::fixed::lemma_square_monotone;
use crate::fixed::product;
use crate::order::coordinate;
use crate::line::lemma_square_of_difference;
use crate::order::indices_below;
use crate::order::precedes;
use crate::order::sort_indices;
use crate::order::sorting;
use crate::order::sorted_by;
use crate::point::Point;
use crate::point::dist;
use crate::point::dist2;
use crate::point::lemma_distance_symmetric;
use vstd::prelude::*;
use vstd::seq_lib::to_multiset_contains;

verus! {

/// Two points of a list, by their indices, with the square of their
/// distance.
#[derive(Copy, Clone, Debug, PartialEq, Eq, Structural)]
pub struct Pair {
    pub first: usize,
    pub second: usize,
    pub gap: i128,
}

impl Pair {
    /// The pair names two different places of `points` and carries the
    /// square of the distance between the points there.
    pub open spec fn valid(self, points: Seq<Point>) -> bool {
        &&& self.first < points.len()
        &&& self.second < points.len()
        &&& self.first != self.second
        &&& self.gap == dist2(points[self.first as int], points[self.second as int])
    }

    /// Both points of the pair are named by `s` somewhere from position `lo`
    /// up to `hi`.
    pub open spec fn within(self, s: Seq<usize>, lo: int, hi: int) -> bool {
        exists|i: int, j: int|
            lo <= i < hi && lo <= j < hi && #[trigger] s[i] == self.first && #[trigger] s[j]
                == self.second
    }
}

/// No two points that `s` names at different positions from `lo` up to `hi`
/// are closer than the square root of `d`.
pub open spec fn bounds_pairs(points: Seq<Point>, s: Seq<usize>, lo: int, hi: int, d: int) -> bool {
    forall|i: int, j: int|
        lo <= i < j < hi ==> d <= dist2(points[#[trigger] s[i] as int], points[#[trigger] s[j] as int])
}

/// Every two points that `s` names from position `lo` up to `hi`, at
/// positions that the scan reaches before the positions `i` and `j`, are
/// further apart than the square root of `d`. The scan takes the positions
/// in order, each with every later position in order.
pub open spec fn earlier_farther(
    points: Seq<Point>,
    s: Seq<usize>,
    lo: int,
    hi: int,
    i: int,
    j: int,
    d: int,
) -> bool {
    forall|a: int, b: int|
        lo <= a < b < hi && (a < i || (a == i && b < j)) ==> d < dist2(
            points[#[trigger] s[a] as int],
            points[#[trigger] s[b] as int],
        )
}

/// `pair` is the first that the scan of `s` from position `lo` up to `hi`
/// reaches among the pairs at its distance: its first point stands before
/// its second, and every pair that the scan reaches earlier is further
/// apart.
pub open spec fn first_at_gap(
    points: Seq<Point>,
    s: Seq<usize>,
    lo: int,
    hi: int,
    pair: Pair,
) -> bool {
    exists|i: int, j: int|
        lo <= i < j < hi && #[trigger] s[i] == pair.first && #[trigger] s[j] == pair.second
            && earlier_farther(points, s, lo, hi, i, j, pair.gap as int)
}

/// What `closest_strip` answers to the strip `strip` and the pair `best`:
/// `best`, where no two points of the strip are closer; else the first
/// closest pair that the scan of the sorted strip reaches.
pub open spec fn strip_answer(points: Seq<Point>, strip: Seq<usize>, best: Pair, found: Pair) -> bool {
    &&& found.valid(points)
    &&& bounds_pairs(points, strip, 0, strip.len() as int, found.gap as int)
    &&& if found.gap < best.gap {
        exists|sorted: Seq<usize>| #[trigger]
            sorting(points, strip, sorted, true) && first_at_gap(
                points,
                sorted,
                0,
                sorted.len() as int,
                found,
            )
    } else {
        found == best
    }
}

/// The members of `order` from position `lo` up to `k`, in order, that
/// name points less than the square root of `gap` to the left or right of
/// the line `x = px`.
pub open spec fn band(
    points: Seq<Point>,
    order: Seq<usize>,
    lo: int,
    k: int,
    px: int,
    gap: int,
) -> Seq<usize>
    decreases k - lo,
{
    if k <= lo {
        Seq::empty()
    } else if (points[order[k - 1] as int].x - px) * (points[order[k - 1] as int].x - px) < gap {
        band(points, order, lo, k - 1, px, gap).push(order[k - 1])
    } else {
        band(points, order, lo, k - 1, px, gap)
    }
}

/// The closer of the answers of the two halves, the right one where they
/// tie.
pub open spec fn closer_half(left: Pair, right: Pair) -> Pair {
    if left.gap < right.gap {
        left
    } else {
        right
    }
}

/// What `closest_strip` makes of the answers `left` and `right` for the two
/// halves of the range from `lo` up to `hi`: its answer to the closer of
/// them and to the band round the first point of the right half.
pub open spec fn combines(
    points: Seq<Point>,
    order: Seq<usize>,
    lo: int,
    hi: int,
    left: Pair,
    right: Pair,
    pair: Pair,
) -> bool {
    strip_answer(
        points,
        band(
            points,
            order,
            lo,
            hi,
            points[order[lo + (hi - lo) / 2] as int].x as int,
            closer_half(left, right).gap as int,
        ),
        closer_half(left, right),
        pair,
    )
}

/// What `closest_util` answers for the members of `order` from position
/// `lo` up to `hi`. For three points or fewer it is the first closest pair
/// that the scan of them reaches. For more, the range is split in the
/// middle, and the answer is what `closest_strip` makes of the answers for
/// the two halves.
#[verifier::opaque]
pub open spec fn answers(points: Seq<Point>, order: Seq<usize>, lo: int, hi: int, pair: Pair) -> bool
    decreases hi - lo,
{
    if hi - lo <= 3 {
        &&& pair.valid(points)
        &&& bounds_pairs(points, order, lo, hi, pair.gap as int)
        &&& first_at_gap(points, order, lo, hi, pair)
    } else {
        exists|left: Pair, right: Pair|
            answers(points, order, lo, lo + (hi - lo) / 2, left) && answers(
                points,
                order,
                lo + (hi - lo) / 2,
                hi,
                right,
            ) && #[trigger] combines(points, order, lo, hi, left, right, pair)
    }
}

/// The answer for a range of more than three points, from the answers for
/// its halves.
proof fn lemma_answers_combine(
    points: Seq<Point>,
    order: Seq<usize>,
    lo: int,
    hi: int,
    left: Pair,
    right: Pair,
    pair: Pair,
)
    requires
        hi - lo > 3,
        answers(points, order, lo, lo + (hi - lo) / 2, left),
        answers(points, order, lo + (hi - lo) / 2, hi, right),
        combines(points, order, lo, hi, left, right, pair),
    ensures
        answers(points, order, lo, hi, pair),
{
    reveal(answers);
}

/// The answer for a range of three points or fewer.
proof fn lemma_answers_directly(points: Seq<Point>, order: Seq<usize>, lo: int, hi: int, pair: Pair)
    requires
        hi - lo <= 3,
        pair.valid(points),
        bounds_pairs(points, order, lo, hi, pair.gap as int),
        first_at_gap(points, order, lo, hi, pair),
    ensures
        answers(points, order, lo, hi, pair),
{
    reveal(answers);
}

/// A pair of two members of the band is a pair of two members of the range
/// that the band is taken from.
proof fn lemma_band_within(
    points: Seq<Point>,
    order: Seq<usize>,
    lo: int,
    hi: int,
    px: int,
    gap: int,
    pair: Pair,
)
    requires
        lo <= hi,
        band(points, order, lo, hi, px, gap).contains(pair.first),
        band(points, order, lo, hi, px, gap).contains(pair.second),
    ensures
        pair.within(order, lo, hi),
{
    lemma_band_member(points, order, lo, hi, px, gap, pair.first);
    lemma_band_member(points, order, lo, hi, px, gap, pair.second);
    let i = choose|i: int| lo <= i < hi && order[i] == pair.first;
    let j = choose|j: int| lo <= j < hi && order[j] == pair.second;
    assert(order[i] == pair.first && order[j] == pair.second);
}

/// A member of the band is a member of the range that the band is taken
/// from.
proof fn lemma_band_member(
    points: Seq<Point>,
    order: Seq<usize>,
    lo: int,
    k: int,
    px: int,
    gap: int,
    v: usize,
)
    requires
        lo <= k,
        band(points, order, lo, k, px, gap).contains(v),
    ensures
        exists|i: int| lo <= i < k && order[i] == v,
    decreases k - lo,
{
    if k > lo {
        let rest = band(points, order, lo, k - 1, px, gap);
        if rest.contains(v) {
            lemma_band_member(points, order, lo, k - 1, px, gap, v);
            let i = choose|i: int| lo <= i < k - 1 && order[i] == v;
            assert(lo <= i < k && order[i] == v);
        } else {
            let m = choose|m: int|
                0 <= m < band(points, order, lo, k, px, gap).len() && band(
                    points,
                    order,
                    lo,
                    k,
                    px,
                    gap,
                )[m] == v;
            if m < rest.len() {
                assert(rest[m] == v);
            }
            assert(order[k - 1] == v);
        }
    }
}

/// The indices of a list of `n` points, in order.
pub open spec fn all_indices(n: nat) -> Seq<usize> {
    Seq::new(n, |i: int| i as usize)
}

/// What `closest_pair` answers: the points of the pair that `closest_util`
/// answers for all the points, sorted from left to right.
pub open spec fn closest_of(points: Seq<Point>, a: Point, b: Point) -> bool {
    exists|order: Seq<usize>, pair: Pair|
        {
            &&& #[trigger] sorting(points, all_indices(points.len()), order, false)
            &&& #[trigger] answers(points, order, 0, points.len() as int, pair)
            &&& a == points[pair.first as int]
            &&& b == points[pair.second as int]
        }
}

/// `a` and `b` stand at two different places of `points`, and no two points
/// at different places of `points` are closer to each other than they are.
pub open spec fn is_closest_pair(points: Seq<Point>, a: Point, b: Point) -> bool {
    &&& exists|i: int, j: int|
        0 <= i < points.len() && 0 <= j < points.len() && i != j && #[trigger] points[i] == a
            && #[trigger] points[j] == b
    &&& forall|i: int, j: int|
        0 <= i < j < points.len() ==> dist2(a, b) <= dist2(#[trigger] points[i], #[trigger] points[j])
}

/// Two points are at least as far apart as they are along either axis.
pub(crate) proof fn lemma_dist2_at_least_gap(a: Point, b: Point, vertical: bool)
    ensures
        dist2(a, b) >= (coordinate(a, vertical) - coordinate(b, vertical)) * (coordinate(a, vertical)
            - coordinate(b, vertical)),
{
    assert((a.x - b.x) * (a.x - b.x) >= 0 && (a.y - b.y) * (a.y - b.y) >= 0) by (nonlinear_arith);
}

/// The square of the distance between two points of the list.
fn gap_between(points: &Vec<Point>, a: usize, b: usize) -> (d: i128)
    requires
        a < points.len(),
        b < points.len(),
    ensures
        d == dist2(points[a as int], points[b as int]),
{
    points[a].distance_squared(&points[b])
}

/// The closest two of the points that `order` names from position `lo` up to
/// `hi`, by comparing every two of them: of several closest pairs the first
/// that the scan reaches, its earlier point first.
pub fn closest_brute_force(points: &Vec<Point>, order: &Vec<usize>, lo: usize, hi: usize) -> (best:
    Pair)
    requires
        lo + 2 <= hi <= order.len(),
        indices_below(order@, points.len() as int),
        order@.no_duplicates(),
    ensures
        best.valid(points@),
        best.within(order@, lo as int, hi as int),
        bounds_pairs(points@, order@, lo as int, hi as int, best.gap as int),
        first_at_gap(points@, order@, lo as int, hi as int, best),
{
    let mut best: Pair = Pair {
        first: order[lo],
        second: order[lo + 1],
        gap: gap_between(points, order[lo], order[lo + 1]),
    };
    let ghost mut at: (int, int) = (lo as int, lo + 1);
    let mut i: usize = lo;
    while i < hi
        invariant
            lo <= i <= hi <= order.len(),
            lo + 2 <= hi,
            indices_below(order@, points.len() as int),
            order@.no_duplicates(),
            best.valid(points@),
            best.within(order@, lo as int, hi as int),
            lo <= at.0 < at.1 < hi,
            order[at.0] == best.first,
            order[at.1] == best.second,
            earlier_farther(points@, order@, lo as int, hi as int, at.0, at.1, best.gap as int),
            forall|s: int, t: int|
                lo <= s < i && s < t < hi ==> best.gap <= dist2(
                    points[#[trigger] order[s] as int],
                    points[#[trigger] order[t] as int],
                ),
        decreases hi - i,
    {
        let mut j: usize = i + 1;
        while j < hi
            invariant
                lo <= i < j <= hi <= order.len(),
                indices_below(order@, points.len() as int),
                order@.no_duplicates(),
                best.valid(points@),
                best.within(order@, lo as int, hi as int),
                lo <= at.0 < at.1 < hi,
                order[at.0] == best.first,
                order[at.1] == best.second,
                earlier_farther(points@, order@, lo as int, hi as int, at.0, at.1, best.gap as int),
                forall|s: int, t: int|
                    lo <= s < i && s < t < hi ==> best.gap <= dist2(
                        points[#[trigger] order[s] as int],
                        points[#[trigger] order[t] as int],
                    ),
                forall|t: int|
                    i < t < j ==> best.gap <= dist2(
                        points[order[i as int] as int],
                        points[#[trigger] order[t] as int],
                    ),
            decreases hi - j,
        {
            let d: i128 = gap_between(points, order[i], order[j]);
            if d < best.gap {
                best = Pair { first: order[i], second: order[j], gap: d };
                proof {
                    at = (i as int, j as int);
                }
            }
            j = j + 1;
        }
        i = i + 1;
    }
    best
}

/// The better of `best` and the closest two of the points that `strip`
/// names. The strip is sorted along the y axis, and each point is compared
/// with those after it for as long as their gap along that axis is below
/// the best distance so far. `best` stays unless two points of the strip
/// are closer; of several closest pairs the scan keeps the first it
/// reaches.
pub fn closest_strip(points: &Vec<Point>, strip: &Vec<usize>, best: Pair) -> (found: Pair)
    requires
        indices_below(strip@, points.len() as int),
        strip@.no_duplicates(),
        best.valid(points@),
    ensures
        found.valid(points@),
        found.gap <= best.gap,
        found != best ==> found.gap < best.gap,
        found == best || (strip@.contains(found.first) && strip@.contains(found.second)),
        bounds_pairs(points@, strip@, 0, strip.len() as int, found.gap as int),
        strip_answer(points@, strip@, best, found),
{
    let sorted: Vec<usize> = sort_indices(points, strip, true);
    proof {
        lemma_same_members(strip@, sorted@);
    }
    let n: usize = sorted.len();
    let mut found: Pair = best;
    let ghost mut at: (int, int) = (0, 0);
    let mut i: usize = 0;
    while i < n
        invariant
            i <= n,
            n == sorted.len(),
            indices_below(sorted@, points.len() as int),
            sorted@.no_duplicates(),
            sorted_by(points@, sorted@, true),
            found.valid(points@),
            found.gap <= best.gap,
            found == best || (sorted@.contains(found.first) && sorted@.contains(found.second)),
            found.gap >= best.gap ==> found == best,
            found.gap < best.gap ==> 0 <= at.0 < at.1 < n && sorted[at.0] == found.first
                && sorted[at.1] == found.second && earlier_farther(
                points@,
                sorted@,
                0,
                n as int,
                at.0,
                at.1,
                found.gap as int,
            ),
            forall|s: int, t: int|
                0 <= s < i && s < t < n ==> found.gap <= dist2(
                    points[#[trigger] sorted[s] as int],
                    points[#[trigger] sorted[t] as int],
                ),
        decreases n - i,
    {
        let mut j: usize = i + 1;
        let mut near: bool = true;
        while near && j < n
            invariant
                i < j <= n,
                n == sorted.len(),
                indices_below(sorted@, points.len() as int),
                sorted@.no_duplicates(),
                sorted_by(points@, sorted@, true),
                found.valid(points@),
                found.gap <= best.gap,
                found == best || (sorted@.contains(found.first) && sorted@.contains(found.second)),
                found.gap >= best.gap ==> found == best,
                found.gap < best.gap ==> 0 <= at.0 < at.1 < n && sorted[at.0] == found.first
                    && sorted[at.1] == found.second && earlier_farther(
                    points@,
                    sorted@,
                    0,
                    n as int,
                    at.0,
                    at.1,
                    found.gap as int,
                ),
                forall|s: int, t: int|
                    0 <= s < i && s < t < n ==> found.gap <= dist2(
                        points[#[trigger] sorted[s] as int],
                        points[#[trigger] sorted[t] as int],
                    ),
                forall|t: int|
                    i < t < j ==> found.gap <= dist2(
                        points[sorted[i as int] as int],
                        points[#[trigger] sorted[t] as int],
                    ),
                !near ==> forall|t: int|
                    j <= t < n ==> found.gap <= dist2(
                        points[sorted[i as int] as int],
                        points[#[trigger] sorted[t] as int],
                    ),
            decreases n - j + if near { 1int } else { 0int },
        {
            let dy: i64 = diff(points[sorted[j]].y, points[sorted[i]].y);
            if product(dy, dy) < found.gap {
                let d: i128 = gap_between(points, sorted[i], sorted[j]);
                if d < found.gap {
                    found = Pair { first: sorted[i], second: sorted[j], gap: d };
                    proof {
                        at = (i as int, j as int);
                    }
                }
                j = j + 1;
            } else {
                near = false;
                proof {
                    let a = points[sorted[i as int] as int];
                    assert forall|t: int| j <= t < n implies found.gap <= dist2(
                        a,
                        points[#[trigger] sorted[t] as int],
                    ) by {
                        let b = points[sorted[t] as int];
                        let c = points[sorted[j as int] as int];
                        assert(coordinate(a, true) <= coordinate(c, true) <= coordinate(b, true));
                        lemma_square_monotone(c.y - a.y, b.y - a.y);
                        lemma_dist2_at_least_gap(b, a, true);
                        lemma_distance_symmetric(a, b);
                    }
                }
            }
        }
        i = i + 1;
    }
    proof {
        assert forall|s: int, t: int| 0 <= s < t < strip.len() implies found.gap <= dist2(
            points[#[trigger] strip[s] as int],
            points[#[trigger] strip[t] as int],
        ) by {
            assert(strip@.contains(strip[s]));
            assert(strip@.contains(strip[t]));
            let u = choose|u: int| 0 <= u < sorted.len() && sorted[u] == strip[s];
            let v = choose|v: int| 0 <= v < sorted.len() && sorted[v] == strip[t];
            if u > v {
                lemma_distance_symmetric(points[strip[s] as int], points[strip[t] as int]);
            }
        }
        if found.gap < best.gap {
            assert(sorting(points@, strip@, sorted@, true));
            assert(first_at_gap(points@, sorted@, 0, sorted@.len() as int, found));
        }
    }
    found
}

/// Two index lists with the same members, each as often as in the other,
/// have the same members, and neither repeats one unless the other does.
pub(crate) proof fn lemma_same_members(a: Seq<usize>, b: Seq<usize>)
    requires
        a.to_multiset() == b.to_multiset(),
        a.no_duplicates(),
    ensures
        b.no_duplicates(),
        forall|x: usize| a.contains(x) <==> b.contains(x),
{
    a.lemma_multiset_has_no_duplicates();
    b.lemma_multiset_has_no_duplicates_conv();
    assert forall|x: usize| a.contains(x) <==> b.contains(x) by {
        to_multiset_contains(a, x);
        to_multiset_contains(b, x);
    }
}

/// A bound on the pairs of either half of a range, and a bound on the pairs
/// of the band round the split that is no larger, make a bound on the pairs
/// of the range: two points on different sides that are closer than the
/// first bound both lie in the band.
proof fn lemma_split_bounds(
    points: Seq<Point>,
    order: Seq<usize>,
    strip: Seq<usize>,
    lo: int,
    mid: int,
    hi: int,
    half_gap: int,
    gap: int,
)
    requires
        0 <= lo <= mid < hi <= order.len(),
        indices_below(order, points.len() as int),
        order.no_duplicates(),
        sorted_by(points, order, false),
        bounds_pairs(points, order, lo, mid, half_gap),
        bounds_pairs(points, order, mid, hi, half_gap),
        gap <= half_gap,
        forall|t: int|
            lo <= t < hi && (points[#[trigger] order[t] as int].x - points[order[mid] as int].x) * (
            points[order[t] as int].x - points[order[mid] as int].x) < half_gap
                ==> strip.contains(order[t]),
        bounds_pairs(points, strip, 0, strip.len() as int, gap),
    ensures
        bounds_pairs(points, order, lo, hi, gap),
{
    assert forall|i: int, j: int| lo <= i < j < hi implies gap <= dist2(
        points[#[trigger] order[i] as int],
        points[#[trigger] order[j] as int],
    ) by {
        let a = points[order[i] as int];
        let b = points[order[j] as int];
        let p = points[order[mid] as int];
        if i < mid && mid <= j && dist2(a, b) < half_gap {
            assert(!precedes(points, order[mid], order[i], false));
            assert(!precedes(points, order[j], order[mid], false));
            assert(a.x <= p.x <= b.x);
            lemma_dist2_at_least_gap(b, a, false);
            lemma_distance_symmetric(a, b);
            lemma_square_monotone(p.x - a.x, b.x - a.x);
            lemma_square_monotone(b.x - p.x, b.x - a.x);
            lemma_square_of_difference(a.x as int, p.x as int);
            assert(strip.contains(order[i]));
            assert(strip.contains(order[j]));
            let s = choose|s: int| 0 <= s < strip.len() && strip[s] == order[i];
            let t = choose|t: int| 0 <= t < strip.len() && strip[t] == order[j];
            if s > t {
                lemma_distance_symmetric(b, a);
            }
        }
    }
}

/// The closest two of the points that `order` names from position `lo` up to
/// `hi`, where `order` lists them from left to right. Three points or fewer
/// are compared directly; more are split in the middle, and the better
/// answer of the two halves is held against the points near the split.
pub fn closest_util(points: &Vec<Point>, order: &Vec<usize>, lo: usize, hi: usize) -> (best: Pair)
    requires
        lo + 2 <= hi <= order.len(),
        indices_below(order@, points.len() as int),
        order@.no_duplicates(),
        sorted_by(points@, order@, false),
    ensures
        best.valid(points@),
        best.within(order@, lo as int, hi as int),
        bounds_pairs(points@, order@, lo as int, hi as int, best.gap as int),
        answers(points@, order@, lo as int, hi as int, best),
    decreases hi - lo,
{
    if hi - lo <= 3 {
        let best: Pair = closest_brute_force(points, order, lo, hi);
        proof {
            lemma_answers_directly(points@, order@, lo as int, hi as int, best);
        }
        return best;
    }
    let mid: usize = lo + (hi - lo) / 2;
    let left: Pair = closest_util(points, order, lo, mid);
    let right: Pair = closest_util(points, order, mid, hi);
    let best: Pair = if left.gap < right.gap {
        left
    } else {
        right
    };
    let px: i32 = points[order[mid]].x;
    let mut strip: Vec<usize> = Vec::new();
    let mut k: usize = lo;
    while k < hi
        invariant
            lo <= k <= hi <= order.len(),
            indices_below(order@, points.len() as int),
            order@.no_duplicates(),
            indices_below(strip@, points.len() as int),
            strip@ == band(points@, order@, lo as int, k as int, px as int, best.gap as int),
            forall|s: int|
                0 <= s < strip.len() ==> exists|t: int| lo <= t < k && order[t] == #[trigger] strip[s],
            forall|t: int|
                lo <= t < k && (points[#[trigger] order[t] as int].x - px) * (points[order[t] as int].x
                    - px) < best.gap ==> strip@.contains(order[t]),
            strip@.no_duplicates(),
        decreases hi - k,
    {
        let dx: i64 = diff(points[order[k]].x, px);
        if product(dx, dx) < best.gap {
            let ghost before = strip@;
            strip.push(order[k]);
            proof {
                assert forall|t: int|
                    lo <= t < k + 1 && (points[#[trigger] order[t] as int].x - px) * (points[order[t] as int].x
                        - px) < best.gap implies strip@.contains(order[t]) by {
                    if t < k {
                        let s = choose|s: int| 0 <= s < before.len() && before[s] == order[t];
                        assert(strip@[s] == order[t]);
                    } else {
                        assert(strip@[strip.len() - 1] == order[t]);
                    }
                }
            }
        }
        k = k + 1;
    }
    let found: Pair = closest_strip(points, &strip, best);
    proof {
        if found != best {
            lemma_band_within(
                points@,
                order@,
                lo as int,
                hi as int,
                px as int,
                best.gap as int,
                found,
            );
        }
        lemma_split_bounds(
            points@,
            order@,
            strip@,
            lo as int,
            mid as int,
            hi as int,
            best.gap as int,
            found.gap as int,
        );
        assert(best == closer_half(left, right));
        assert(combines(points@, order@, lo as int, hi as int, left, right, found));
        lemma_answers_combine(points@, order@, lo as int, hi as int, left, right, found);
    }
    found
}

/// The two points of `points` that are closest to each other, and their
/// distance rounded down to the grid. Where several pairs are equally
/// close, the pair is the one that `closest_util` answers for the points
/// sorted from left to right, points of one x in the order of the list.
pub fn closest_pair(points: &Vec<Point>) -> (closest: (Point, Point, i64))
    requires
        points.len() >= 2,
    ensures
        is_closest_pair(points@, closest.0, closest.1),
        closest.2 == dist(closest.0, closest.1),
        closest_of(points@, closest.0, closest.1),
{
    let n: usize = points.len();
    let mut all: Vec<usize> = Vec::new();
    let mut i: usize = 0;
    while i < n
        invariant
            i <= n,
            all.len() == i,
            forall|k: int| 0 <= k < i ==> all[k] == k,
        decreases n - i,
    {
        all.push(i);
        i = i + 1;
    }
    let order: Vec<usize> = sort_indices(points, &all, false);
    proof {
        assert(all@ =~= all_indices(n as nat));
        lemma_same_members(all@, order@);
    }
    let best: Pair = closest_util(points, &order, 0, n);
    let a: Point = points[best.first];
    let b: Point = points[best.second];
    proof {
        assert(points[best.first as int] == a && points[best.second as int] == b);
        assert forall|i: int, j: int| 0 <= i < j < points.len() implies dist2(a, b) <= dist2(
            #[trigger] points[i],
            #[trigger] points[j],
        ) by {
            assert(all[i] == i && all[j] == j);
            assert(all@.contains(i as usize));
            assert(all@.contains(j as usize));
            let u = choose|u: int| 0 <= u < order.len() && order[u] == i as usize;
            let v = choose|v: int| 0 <= v < order.len() && order[v] == j as usize;
            if u > v {
                lemma_distance_symmetric(points[i], points[j]);
            }
        }
    }
    proof {
        assert(sorting(points@, all_indices(points@.len()), order@, false));
        assert(answers(points@, order@, 0, points@.len() as int, best));
    }
    (a, b, a.distance(&b))
}

} // verus!
