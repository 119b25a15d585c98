//! Why the sorted order and the answered closest pair are fixed by the
//! points: no two orders, and no two pairs, meet the contracts.

use crate::closest::Pair;
use crate::closest::all_indices;
use crate::closest::answers;
use crate::closest::band;
use crate::closest::bounds_pairs;
use crate::closest::closer_half;
use crate::closest::closest_of;
use crate::closest::combines;
use crate::closest::earlier_farther;
use crate::closest::first_at_gap;
use crate::closest::strip_answer;
use crate::order::precedes;
use crate::order::sorting;
use crate::point::Point;
use crate::point::dist2;
use crate::point::lemma_distance_symmetric;
use vstd::prelude::*;
use vstd::seq_lib::to_multiset_contains;
use vstd::seq_lib::to_multiset_len;
use vstd::seq_lib::to_multiset_remove;

verus! {

/// A list has one sorted order.
pub proof fn lemma_sorting_unique(
    points: Seq<Point>,
    input: Seq<usize>,
    a: Seq<usize>,
    b: Seq<usize>,
    vertical: bool,
)
    requires
        sorting(points, input, a, vertical),
        sorting(points, input, b, vertical),
    ensures
        a == b,
    decreases a.len(),
{
    to_multiset_len(a);
    to_multiset_len(b);
    if a.len() > 0 {
        to_multiset_contains(a, b[0]);
        to_multiset_contains(b, b[0]);
        to_multiset_contains(a, a[0]);
        to_multiset_contains(b, a[0]);
        assert(b.contains(b[0]));
        assert(a.contains(a[0]));
        let m = choose|m: int| 0 <= m < b.len() && b[m] == a[0];
        let k = choose|k: int| 0 <= k < a.len() && a[k] == b[0];
        assert(!precedes(points, b[m], b[0], vertical));
        assert(!precedes(points, a[k], a[0], vertical));
        assert(a[0] == b[0]);
        to_multiset_remove(a, 0);
        to_multiset_remove(b, 0);
        let ta = a.remove(0);
        let tb = b.remove(0);
        assert forall|i: int, j: int| 0 <= i <= j < ta.len() implies !precedes(
            points,
            #[trigger] ta[j],
            #[trigger] ta[i],
            vertical,
        ) by {
            assert(ta[i] == a[i + 1] && ta[j] == a[j + 1]);
        }
        assert forall|i: int, j: int| 0 <= i <= j < tb.len() implies !precedes(
            points,
            #[trigger] tb[j],
            #[trigger] tb[i],
            vertical,
        ) by {
            assert(tb[i] == b[i + 1] && tb[j] == b[j + 1]);
        }
        lemma_sorting_unique(points, ta, ta, tb, vertical);
        assert(a =~= seq![a[0]] + ta);
        assert(b =~= seq![b[0]] + tb);
    } else {
        assert(a =~= b);
    }
}

/// Of the pairs at one distance, the scan of a list reaches one first.
pub proof fn lemma_first_at_gap_unique(
    points: Seq<Point>,
    s: Seq<usize>,
    lo: int,
    hi: int,
    a: Pair,
    b: Pair,
)
    requires
        a.valid(points),
        b.valid(points),
        a.gap == b.gap,
        first_at_gap(points, s, lo, hi, a),
        first_at_gap(points, s, lo, hi, b),
    ensures
        a == b,
{
    let (i, j) = choose|i: int, j: int|
        lo <= i < j < hi && #[trigger] s[i] == a.first && #[trigger] s[j] == a.second
            && earlier_farther(points, s, lo, hi, i, j, a.gap as int);
    let (k, l) = choose|k: int, l: int|
        lo <= k < l < hi && #[trigger] s[k] == b.first && #[trigger] s[l] == b.second
            && earlier_farther(points, s, lo, hi, k, l, b.gap as int);
    assert(s[i] == a.first && s[j] == a.second && s[k] == b.first && s[l] == b.second);
    if i < k || (i == k && j < l) {
        assert(b.gap < dist2(points[s[i] as int], points[s[j] as int]));
    } else if k < i || (k == i && l < j) {
        assert(a.gap < dist2(points[s[k] as int], points[s[l] as int]));
    }
}

/// A bound on the pairs of a list bounds the distance of a valid pair of
/// two of its members.
proof fn lemma_bound_reaches(points: Seq<Point>, s: Seq<usize>, d: int, pair: Pair)
    requires
        pair.valid(points),
        s.contains(pair.first),
        s.contains(pair.second),
        bounds_pairs(points, s, 0, s.len() as int, d),
    ensures
        d <= pair.gap,
{
    let i = choose|i: int| 0 <= i < s.len() && s[i] == pair.first;
    let j = choose|j: int| 0 <= j < s.len() && s[j] == pair.second;
    if i < j {
        assert(d <= dist2(points[s[i] as int], points[s[j] as int]));
    } else {
        assert(d <= dist2(points[s[j] as int], points[s[i] as int]));
        lemma_distance_symmetric(points[pair.first as int], points[pair.second as int]);
    }
}

/// The pair that the scan of a sorted strip reaches first is a pair of
/// members of the strip.
proof fn lemma_found_in_strip(points: Seq<Point>, strip: Seq<usize>, sorted: Seq<usize>, pair: Pair)
    requires
        sorting(points, strip, sorted, true),
        first_at_gap(points, sorted, 0, sorted.len() as int, pair),
    ensures
        strip.contains(pair.first),
        strip.contains(pair.second),
{
    let (i, j) = choose|i: int, j: int|
        0 <= i < j < sorted.len() && #[trigger] sorted[i] == pair.first && #[trigger] sorted[j]
            == pair.second && earlier_farther(
            points,
            sorted,
            0,
            sorted.len() as int,
            i,
            j,
            pair.gap as int,
        );
    assert(sorted.contains(sorted[i]));
    assert(sorted.contains(sorted[j]));
    to_multiset_contains(sorted, pair.first);
    to_multiset_contains(strip, pair.first);
    to_multiset_contains(sorted, pair.second);
    to_multiset_contains(strip, pair.second);
}

/// `closest_strip` has one answer to a strip and a pair.
pub proof fn lemma_strip_answer_unique(
    points: Seq<Point>,
    strip: Seq<usize>,
    best: Pair,
    a: Pair,
    b: Pair,
)
    requires
        strip_answer(points, strip, best, a),
        strip_answer(points, strip, best, b),
    ensures
        a == b,
{
    if a.gap < best.gap {
        let sa = choose|sorted: Seq<usize>| #[trigger]
            sorting(points, strip, sorted, true) && first_at_gap(
                points,
                sorted,
                0,
                sorted.len() as int,
                a,
            );
        lemma_found_in_strip(points, strip, sa, a);
        lemma_bound_reaches(points, strip, b.gap as int, a);
        let sb = choose|sorted: Seq<usize>| #[trigger]
            sorting(points, strip, sorted, true) && first_at_gap(
                points,
                sorted,
                0,
                sorted.len() as int,
                b,
            );
        lemma_found_in_strip(points, strip, sb, b);
        lemma_bound_reaches(points, strip, a.gap as int, b);
        lemma_sorting_unique(points, strip, sa, sb, true);
        lemma_first_at_gap_unique(points, sa, 0, sa.len() as int, a, b);
    } else if b.gap < best.gap {
        let sb = choose|sorted: Seq<usize>| #[trigger]
            sorting(points, strip, sorted, true) && first_at_gap(
                points,
                sorted,
                0,
                sorted.len() as int,
                b,
            );
        lemma_found_in_strip(points, strip, sb, b);
        lemma_bound_reaches(points, strip, a.gap as int, b);
    }
}

/// `closest_util` has one answer for a range of a list.
pub proof fn lemma_answers_unique(
    points: Seq<Point>,
    order: Seq<usize>,
    lo: int,
    hi: int,
    a: Pair,
    b: Pair,
)
    requires
        answers(points, order, lo, hi, a),
        answers(points, order, lo, hi, b),
    ensures
        a == b,
    decreases hi - lo,
{
    reveal(answers);
    if hi - lo <= 3 {
        let (i, j) = choose|i: int, j: int|
            lo <= i < j < hi && #[trigger] order[i] == a.first && #[trigger] order[j] == a.second
                && earlier_farther(points, order, lo, hi, i, j, a.gap as int);
        let (k, l) = choose|k: int, l: int|
            lo <= k < l < hi && #[trigger] order[k] == b.first && #[trigger] order[l] == b.second
                && earlier_farther(points, order, lo, hi, k, l, b.gap as int);
        assert(b.gap <= dist2(points[order[i] as int], points[order[j] as int]));
        assert(a.gap <= dist2(points[order[k] as int], points[order[l] as int]));
        lemma_first_at_gap_unique(points, order, lo, hi, a, b);
    } else {
        let mid = lo + (hi - lo) / 2;
        let (la, ra) = choose|left: Pair, right: Pair|
            answers(points, order, lo, mid, left) && answers(points, order, mid, hi, right)
                && #[trigger] combines(points, order, lo, hi, left, right, a);
        let (lb, rb) = choose|left: Pair, right: Pair|
            answers(points, order, lo, mid, left) && answers(points, order, mid, hi, right)
                && #[trigger] combines(points, order, lo, hi, left, right, b);
        lemma_answers_unique(points, order, lo, mid, la, lb);
        lemma_answers_unique(points, order, mid, hi, ra, rb);
        lemma_strip_answer_unique(
            points,
            band(
                points,
                order,
                lo,
                hi,
                points[order[mid] as int].x as int,
                closer_half(la, ra).gap as int,
            ),
            closer_half(la, ra),
            a,
            b,
        );
    }
}

/// `closest_pair` has one answer for a list of points: whichever pairs are
/// equally close, the contract names the one that is returned.
pub proof fn lemma_closest_of_unique(points: Seq<Point>, a: Point, b: Point, c: Point, d: Point)
    requires
        closest_of(points, a, b),
        closest_of(points, c, d),
    ensures
        a == c,
        b == d,
{
    let (oa, pa) = choose|order: Seq<usize>, pair: Pair|
        {
            &&& #[trigger] sorting(points, all_indices(points.len()), order, false)
            &&& #[trigger] answers(points, order, 0, points.len() as int, pair)
            &&& a == points[pair.first as int]
            &&& b == points[pair.second as int]
        };
    let (ob, pb) = choose|order: Seq<usize>, pair: Pair|
        {
            &&& #[trigger] sorting(points, all_indices(points.len()), order, false)
            &&& #[trigger] answers(points, order, 0, points.len() as int, pair)
            &&& c == points[pair.first as int]
            &&& d == points[pair.second as int]
        };
    lemma_sorting_unique(points, all_indices(points.len()), oa, ob, false);
    lemma_answers_unique(points, oa, 0, points.len() as int, pa, pb);
}

} // verus!
