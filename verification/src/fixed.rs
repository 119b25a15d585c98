//! The number model: fixed-point scalars, the tolerance, and integer roots.

use vstd::math::abs;
use vstd::prelude::*;

verus! {

/// Grid units per whole: a scalar `v` stands for the real number `v / SCALE`.
pub const SCALE: i64 = 100_000;

/// The tolerance `1 / SCALE` as a length, in grid units.
pub const EPSILON: i64 = 1;

/// The tolerance `1 / SCALE` as an area or a dot product, in square units.
pub const EPSILON_SQ: i128 = 100_000;

/// The largest magnitude of a difference of two coordinates.
pub const SPAN: i64 = 0xFFFF_FFFF;

/// `r` is the integer part of the square root of `n`.
pub open spec fn is_floor_sqrt(n: int, r: int) -> bool {
    r >= 0 && r * r <= n && n < (r + 1) * (r + 1)
}

/// The integer part of the square root of `n`, for `n >= 0`.
pub open spec fn floor_sqrt(n: int) -> int {
    choose|r: int| is_floor_sqrt(n, r)
}

/// Squaring keeps the order of the non-negative integers.
pub(crate) proof fn lemma_square_monotone(a: int, b: int)
    requires
        0 <= a <= b,
    ensures
        a * a <= b * b,
        a < b ==> a * a < b * b,
{
    assert(a * a <= b * b && (a < b ==> a * a < b * b)) by (nonlinear_arith)
        requires
            0 <= a <= b,
    ;
}

/// At most one integer is the floor of the square root of `n`.
pub proof fn lemma_floor_sqrt_unique(n: int, r: int)
    requires
        is_floor_sqrt(n, r),
    ensures
        floor_sqrt(n) == r,
{
    let s = floor_sqrt(n);
    assert(is_floor_sqrt(n, s));
    if s < r {
        lemma_square_monotone(s, r);
        assert((s + 1) * (s + 1) <= r * r) by (nonlinear_arith)
            requires
                0 <= s < r,
        ;
    } else if r < s {
        assert((r + 1) * (r + 1) <= s * s) by (nonlinear_arith)
            requires
                0 <= r < s,
        ;
    }
}

/// The integer part of the square root of `n`.
pub fn isqrt(n: u128) -> (r: u64)
    ensures
        is_floor_sqrt(n as int, r as int),
        r as int == floor_sqrt(n as int),
{
    let mut lo: u128 = 0;
    let mut hi: u128 = 0x1_0000_0000_0000_0000;
    while hi - lo > 1
        invariant
            lo < hi <= 0x1_0000_0000_0000_0000,
            lo * lo <= n,
            n < hi * hi,
        decreases hi - lo,
    {
        let mid: u128 = lo + (hi - lo) / 2;
        assert(mid * mid < 0x1_0000_0000_0000_0000int * 0x1_0000_0000_0000_0000int) by (nonlinear_arith)
            requires
                0 <= mid < 0x1_0000_0000_0000_0000int,
        ;
        if mid * mid <= n {
            lo = mid;
        } else {
            hi = mid;
        }
    }
    proof {
        assert(hi == lo + 1);
        lemma_floor_sqrt_unique(n as int, lo as int);
    }
    lo as u64
}

/// The root of a number below `bound * bound` is below `bound`.
pub(crate) proof fn lemma_floor_sqrt_below(n: int, r: int, bound: int)
    requires
        is_floor_sqrt(n, r),
        0 <= bound,
        n < bound * bound,
    ensures
        r < bound,
{
    if r >= bound {
        assert(bound * bound <= r * r) by (nonlinear_arith)
            requires
                0 <= bound <= r,
        ;
    }
}

/// The root of a number that is at least `m * m` is at least `m`.
pub(crate) proof fn lemma_floor_sqrt_at_least(n: int, r: int, m: int)
    requires
        is_floor_sqrt(n, r),
        0 <= m,
        m * m <= n,
    ensures
        m <= r,
{
    if r < m {
        assert((r + 1) * (r + 1) <= m * m) by (nonlinear_arith)
            requires
                0 <= r < m,
        ;
    }
}

/// Every number that is not negative has an integer root.
pub proof fn lemma_floor_sqrt_exists(n: int)
    requires
        n >= 0,
    ensures
        is_floor_sqrt(n, floor_sqrt(n)),
{
    let r = root_below(n, n);
    assert((n + 1) * (n + 1) > n) by (nonlinear_arith)
        requires
            n >= 0,
    ;
    assert(is_floor_sqrt(n, r));
}

/// The largest `r` up to `k` whose square is at most `n`.
proof fn root_below(n: int, k: int) -> (r: int)
    requires
        n >= 0,
        k >= 0,
    ensures
        0 <= r <= k,
        r * r <= n,
        n < (r + 1) * (r + 1) || (r == k && (k + 1) * (k + 1) <= n),
    decreases k,
{
    if k == 0 {
        assert(0 * 0 == 0int && (0 + 1) * (0 + 1) == 1int);
        0
    } else {
        let r = root_below(n, k - 1);
        if r == k - 1 && k * k <= n {
            k
        } else {
            r
        }
    }
}

/// The difference of two coordinates.
pub(crate) fn diff(a: i32, b: i32) -> (d: i64)
    ensures
        d == a - b,
        -SPAN <= d <= SPAN,
{
    (a as i64) - (b as i64)
}

/// The product of two coordinate differences, in square units.
pub(crate) fn product(a: i64, b: i64) -> (p: i128)
    requires
        -SPAN <= a <= SPAN,
        -SPAN <= b <= SPAN,
    ensures
        p == a * b,
        -SPAN * SPAN <= p <= SPAN * SPAN,
{
    proof {
        lemma_product_bound(a as int, b as int, SPAN as int, SPAN as int);
    }
    (a as i128) * (b as i128)
}

/// A product is bounded by the product of the bounds of its factors.
pub(crate) proof fn lemma_product_bound(a: int, b: int, m: int, n: int)
    requires
        -m <= a <= m,
        -n <= b <= n,
    ensures
        -(m * n) <= a * b <= m * n,
{
    assert(-(m * n) <= a * b <= m * n) by (nonlinear_arith)
        requires
            -m <= a <= m,
            -n <= b <= n,
    ;
}

/// The magnitude of `v`.
pub(crate) fn magnitude(v: i128) -> (m: i128)
    requires
        v > i128::MIN,
    ensures
        m == abs(v as int),
{
    if v < 0 {
        -v
    } else {
        v
    }
}

/// The quotient of `n` by a positive `d`, rounded towards negative infinity.
pub fn div_floor(n: i128, d: i128) -> (q: i128)
    requires
        d > 0,
        n > i128::MIN,
    ensures
        q == n / d,
{
    if n >= 0 {
        n / d
    } else {
        let m: i128 = -n;
        let q: i128 = m / d;
        let r: i128 = m % d;
        proof {
            lemma_div_floor_negative(n as int, d as int);
        }
        if r == 0 {
            -q
        } else {
            -q - 1
        }
    }
}

/// Rounding the quotient of a negative numerator down, from the quotient of
/// its magnitude.
pub(crate) proof fn lemma_div_floor_negative(n: int, d: int)
    requires
        n < 0,
        d > 0,
    ensures
        (-n) % d == 0 ==> n / d == -((-n) / d),
        (-n) % d != 0 ==> n / d == -((-n) / d) - 1,
{
    let m = -n;
    let q = m / d;
    let r = m % d;
    assert(m == q * d + r && 0 <= r < d) by (nonlinear_arith)
        requires
            d > 0,
            q == m / d,
            r == m % d,
    ;
    if r == 0 {
        assert(n == (-q) * d) by (nonlinear_arith)
            requires
                -n == q * d,
        ;
        lemma_quotient_unique(n, d, -q, 0);
    } else {
        assert(n == (-q - 1) * d + (d - r)) by (nonlinear_arith)
            requires
                -n == q * d + r,
        ;
        lemma_quotient_unique(n, d, -q - 1, d - r);
    }
}

/// Division with remainder has one answer.
pub(crate) proof fn lemma_quotient_unique(n: int, d: int, q: int, r: int)
    requires
        d > 0,
        0 <= r < d,
        n == q * d + r,
    ensures
        n / d == q,
        n % d == r,
{
    vstd::arithmetic::div_mod::lemma_fundamental_div_mod_converse(n, d, q, r);
}

/// The cross product `ax * by - ay * bx` of two difference vectors.
pub(crate) fn cross_of(ax: i64, ay: i64, bx: i64, by: i64) -> (c: i128)
    requires
        -SPAN <= ax <= SPAN,
        -SPAN <= ay <= SPAN,
        -SPAN <= bx <= SPAN,
        -SPAN <= by <= SPAN,
    ensures
        c == ax * by - ay * bx,
        -2 * (SPAN * SPAN) <= c <= 2 * (SPAN * SPAN),
{
    product(ax, by) - product(ay, bx)
}

/// The dot product `ax * bx + ay * by` of two difference vectors.
pub(crate) fn dot_of(ax: i64, ay: i64, bx: i64, by: i64) -> (c: i128)
    requires
        -SPAN <= ax <= SPAN,
        -SPAN <= ay <= SPAN,
        -SPAN <= bx <= SPAN,
        -SPAN <= by <= SPAN,
    ensures
        c == ax * bx + ay * by,
        -2 * (SPAN * SPAN) <= c <= 2 * (SPAN * SPAN),
{
    product(ax, bx) + product(ay, by)
}

} // verus!
