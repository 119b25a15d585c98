//! Products that do not fit 128 bits, and the quotient of a cross product by
//! a length.

use crate::fixed::lemma_square_monotone;
use vstd::prelude::*;

verus! {

/// The base of the three digits that hold a wide product.
pub const DIGIT: u128 = 0x8_0000_0000;

/// The bound on the factors of a wide product: the square of `DIGIT`.
pub const WIDE: u128 = 0x40_0000_0000_0000_0000;

/// `d` is the integer part of `c` over the square root of `l`: the largest
/// number whose square times `l` is at most the square of `c`.
pub open spec fn is_floor_ratio(c: int, l: int, d: int) -> bool {
    d >= 0 && d * d * l <= c * c && c * c < (d + 1) * (d + 1) * l
}

/// The integer part of `c` over the square root of `l`, for `l > 0`.
pub open spec fn floor_ratio(c: int, l: int) -> int {
    choose|d: int| is_floor_ratio(c, l, d)
}

/// At most one integer is the integer part of `c` over the root of `l`.
pub proof fn lemma_floor_ratio_unique(c: int, l: int, d: int)
    requires
        l >= 0,
        is_floor_ratio(c, l, d),
    ensures
        floor_ratio(c, l) == d,
{
    let e = floor_ratio(c, l);
    assert(is_floor_ratio(c, l, e));
    if e < d {
        lemma_square_monotone(e + 1, d);
        lemma_scaled(l, (e + 1) * (e + 1), d * d);
    } else if d < e {
        lemma_square_monotone(d + 1, e);
        lemma_scaled(l, (d + 1) * (d + 1), e * e);
    }
}

/// Every number has an integer part over the root of a positive number.
pub proof fn lemma_floor_ratio_exists(c: int, l: int)
    requires
        l > 0,
    ensures
        is_floor_ratio(c, l, floor_ratio(c, l)),
{
    let m = if c < 0 {
        -c
    } else {
        c
    };
    assert(c * c == m * m) by (nonlinear_arith)
        requires
            m == c || m == -c,
    ;
    assert(m * m < (m + 1) * (m + 1) * l) by (nonlinear_arith)
        requires
            m >= 0,
            l >= 1,
    ;
    let d = ratio_below(c, l, m);
    assert(is_floor_ratio(c, l, d));
}

/// The largest `d` up to `k` whose square times `l` is at most the square
/// of `c`.
proof fn ratio_below(c: int, l: int, k: int) -> (d: int)
    requires
        l > 0,
        k >= 0,
    ensures
        0 <= d <= k,
        d * d * l <= c * c,
        c * c < (d + 1) * (d + 1) * l || (d == k && (k + 1) * (k + 1) * l <= c * c),
    decreases k,
{
    if k == 0 {
        assert(0 * 0 * l == 0 && c * c >= 0) by (nonlinear_arith);
        0
    } else {
        let d = ratio_below(c, l, k - 1);
        if d == k - 1 && k * k * l <= c * c {
            k
        } else {
            d
        }
    }
}

/// Multiplying by a number that is not negative keeps the order.
pub(crate) proof fn lemma_scaled(l: int, a: int, b: int)
    requires
        l >= 0,
        a <= b,
    ensures
        a * l <= b * l,
{
    assert(a * l <= b * l) by (nonlinear_arith)
        requires
            l >= 0,
            a <= b,
    ;
}

/// The product of two numbers below `DIGIT` is below `WIDE`.
proof fn lemma_digit_product(a: int, b: int)
    requires
        0 <= a < DIGIT,
        0 <= b < DIGIT,
    ensures
        0 <= a * b <= (DIGIT - 1) * (DIGIT - 1),
{
    assert(0 <= a * b <= (DIGIT - 1) * (DIGIT - 1)) by (nonlinear_arith)
        requires
            0 <= a <= DIGIT - 1,
            0 <= b <= DIGIT - 1,
    ;
}

/// The product of two numbers of two digits each, digit by digit.
proof fn lemma_two_digit_product(a1: int, a0: int, b1: int, b0: int, k: int)
    ensures
        (a1 * k + a0) * (b1 * k + b0) == (a1 * b1) * (k * k) + (a1 * b0 + a0 * b1) * k + a0 * b0,
{
    let u = a1 * k;
    let v = b1 * k;
    assert((u + a0) * (v + b0) == u * v + u * b0 + a0 * v + a0 * b0) by (nonlinear_arith);
    assert((a1 * k) * (b1 * k) == (a1 * b1) * (k * k)) by (nonlinear_arith);
    assert((a1 * k) * b0 == (a1 * b0) * k) by (nonlinear_arith);
    assert(a0 * (b1 * k) == (a0 * b1) * k) by (nonlinear_arith);
    assert((a1 * b0) * k + (a0 * b1) * k == (a1 * b0 + a0 * b1) * k) by (nonlinear_arith);
}

/// The product of `a` and `b` in three digits, the two lower ones below
/// `DIGIT`.
fn wide_product(a: u128, b: u128) -> (p: (u128, u128, u128))
    requires
        a < WIDE,
        b < WIDE,
    ensures
        a * b == p.0 * WIDE + p.1 * DIGIT + p.2,
        p.1 < DIGIT,
        p.2 < DIGIT,
{
    let a1: u128 = a / DIGIT;
    let a0: u128 = a % DIGIT;
    let b1: u128 = b / DIGIT;
    let b0: u128 = b % DIGIT;
    proof {
        lemma_digit_product(a0 as int, b0 as int);
        lemma_digit_product(a1 as int, b0 as int);
        lemma_digit_product(a0 as int, b1 as int);
        lemma_digit_product(a1 as int, b1 as int);
    }
    let low: u128 = a0 * b0;
    let mid: u128 = a1 * b0 + a0 * b1;
    let top: u128 = a1 * b1;
    proof {
        let k = DIGIT as int;
        lemma_two_digit_product(a1 as int, a0 as int, b1 as int, b0 as int, k);
        assert(a == a1 * k + a0);
        assert(b == b1 * k + b0);
        assert(k * k == WIDE);
        assert(top * (k * k) == top * WIDE);
    }
    let carried: u128 = mid + low / DIGIT;
    (top + carried / DIGIT, carried % DIGIT, low % DIGIT)
}

/// Whether `a * b <= c * d`, for factors whose products need not fit 128
/// bits.
pub(crate) fn product_at_most(a: u128, b: u128, c: u128, d: u128) -> (le: bool)
    requires
        a < WIDE,
        b < WIDE,
        c < WIDE,
        d < WIDE,
    ensures
        le == (a * b <= c * d),
{
    let (x2, x1, x0) = wide_product(a, b);
    let (y2, y1, y0) = wide_product(c, d);
    if x2 != y2 {
        x2 < y2
    } else if x1 != y1 {
        x1 < y1
    } else {
        x0 <= y0
    }
}

/// The integer part of `c` over the square root of `l`.
pub(crate) fn ratio_root(c: u128, l: u128) -> (d: u64)
    requires
        l >= 1,
        l < WIDE,
        c < WIDE,
        c * c < 0x4_0000_0000_0000_0000 * l,
    ensures
        is_floor_ratio(c as int, l as int, d as int),
        d == floor_ratio(c as int, l as int),
        d < 0x2_0000_0000,
{
    let mut lo: u128 = 0;
    let mut hi: u128 = 0x2_0000_0000;
    proof {
        assert(0 * 0 * l == 0);
        assert(c * c >= 0) by (nonlinear_arith);
        assert(0x2_0000_0000 * 0x2_0000_0000 * l == 0x4_0000_0000_0000_0000 * l);
    }
    while hi - lo > 1
        invariant
            lo < hi <= 0x2_0000_0000,
            l >= 1,
            l < WIDE,
            c < WIDE,
            lo * lo * l <= c * c,
            c * c < hi * hi * l,
        decreases hi - lo,
    {
        let mid: u128 = lo + (hi - lo) / 2;
        proof {
            lemma_square_monotone(mid as int, 0x2_0000_0000);
        }
        if product_at_most(mid * mid, l, c, c) {
            lo = mid;
        } else {
            hi = mid;
        }
    }
    proof {
        lemma_floor_ratio_unique(c as int, l as int, lo as int);
    }
    lo as u64
}

} // verus!
