//! Fixed-point arithmetic: every quantity is an `i64` raw value counting
//! units of `1 / SCALE`.  Products are taken in `i128` and scaled back down
//! with truncation toward zero, and square roots are integer square roots
//! of raw values, so every operation has an exact integer specification.

use vstd::arithmetic::div_mod::{
    lemma_div_is_ordered, lemma_div_nonincreasing, lemma_div_pos_is_pos,
};
use vstd::prelude::*;

verus! {

/// Raw units per whole unit.
pub const SCALE: i64 = 16777216;

/// Largest raw magnitude of a scene coordinate (position, radius, light).
pub const COORD_MAX: i64 = 1099511627776;

/// Largest raw magnitude of a ray direction component: a direction may be
/// the difference of two scene coordinates.
pub const DIR_MAX: i64 = 2199023255552;

/// Quotient of `a` by `b`, truncated toward zero (the rounding that the
/// executable code produces for raw values of either sign).
pub open spec fn div_trunc(a: int, b: int) -> int {
    if a >= 0 {
        a / b
    } else {
        -((-a) / b)
    }
}

/// Raw value of the fixed-point product of two raw values.
pub open spec fn mul_fx(a: int, b: int) -> int {
    div_trunc(a * b, SCALE as int)
}

/// `r` is the integer square root of `n`.
pub open spec fn is_sqrt(n: int, r: int) -> bool {
    0 <= r && r * r <= n && n < (r + 1) * (r + 1)
}

/// The integer square root (rounded down) of a nonnegative integer.
pub open spec fn sqrt_floor(n: int) -> int {
    choose|r: int| #[trigger] is_sqrt(n, r)
}

/// The product of two `i64` values always fits in an `i128`.
pub proof fn lemma_i64_mul_fits(a: int, b: int)
    by (nonlinear_arith)
    requires
        -0x8000000000000000 <= a <= 0x7fffffffffffffff,
        -0x8000000000000000 <= b <= 0x7fffffffffffffff,
    ensures
        -0x40000000000000000000000000000000 <= a * b
            <= 0x40000000000000000000000000000000,
{
}

/// A product of values bounded by `ma` and `mb` is bounded by `ma * mb`.
pub proof fn lemma_mul_bound(a: int, b: int, ma: int, mb: int)
    by (nonlinear_arith)
    requires
        -ma <= a <= ma,
        -mb <= b <= mb,
        0 <= ma,
        0 <= mb,
    ensures
        -(ma * mb) <= a * b <= ma * mb,
{
}

/// Truncating division by a positive divisor keeps a symmetric bound.
pub proof fn lemma_div_trunc_bound(a: int, b: int, m: int)
    requires
        1 <= b,
        -m <= a <= m,
        0 <= m,
    ensures
        -(m / b) <= div_trunc(a, b) <= m / b,
{
    if a >= 0 {
        lemma_div_is_ordered(a, m, b);
        lemma_div_pos_is_pos(a, b);
    } else {
        lemma_div_is_ordered(-a, m, b);
        lemma_div_pos_is_pos(-a, b);
    }
}

/// Truncating division never grows the magnitude.
pub proof fn lemma_div_trunc_le(a: int, b: int)
    requires
        1 <= b,
    ensures
        -(if a >= 0 { a } else { -a }) <= div_trunc(a, b) <= (if a >= 0 { a } else { -a }),
{
    if a >= 0 {
        lemma_div_nonincreasing(a, b);
        lemma_div_pos_is_pos(a, b);
    } else {
        lemma_div_nonincreasing(-a, b);
        lemma_div_pos_is_pos(-a, b);
    }
}

/// Truncating division loses less than one divisor's worth of the
/// dividend.
pub proof fn lemma_div_trunc_err(a: int, den: int)
    requires
        1 <= den,
    ensures
        -(den - 1) <= a - den * div_trunc(a, den) <= den - 1,
{
    if a >= 0 {
        vstd::arithmetic::div_mod::lemma_fundamental_div_mod(a, den);
        vstd::arithmetic::div_mod::lemma_mod_bound(a, den);
    } else {
        vstd::arithmetic::div_mod::lemma_fundamental_div_mod(-a, den);
        vstd::arithmetic::div_mod::lemma_mod_bound(-a, den);
        assert(a - den * div_trunc(a, den) == -((-a) - den * ((-a) / den)))
            by (nonlinear_arith)
            requires
                div_trunc(a, den) == -((-a) / den);
    }
}

/// Wide product of two raw values.
pub fn mul_wide(a: i64, b: i64) -> (r: i128)
    ensures
        r == a * b,
{
    proof {
        lemma_i64_mul_fits(a as int, b as int);
    }
    (a as i128) * (b as i128)
}

/// Truncating division of a wide value by a positive divisor.
pub fn div_wide(a: i128, b: i128) -> (r: i128)
    requires
        1 <= b,
    ensures
        r == div_trunc(a as int, b as int),
{
    proof {
        if a >= 0 {
            lemma_div_nonincreasing(a as int, b as int);
            lemma_div_pos_is_pos(a as int, b as int);
        } else {
            lemma_div_nonincreasing(-(a as int), b as int);
            lemma_div_pos_is_pos(-(a as int), b as int);
        }
    }
    a / b
}

/// Scale a wide product back down to raw units.
pub fn div_scale(a: i128) -> (r: i128)
    ensures
        r == div_trunc(a as int, SCALE as int),
{
    div_wide(a, SCALE as i128)
}

/// Two integer square roots of the same value are equal.
pub proof fn lemma_sqrt_unique(n: int, a: int, b: int)
    by (nonlinear_arith)
    requires
        is_sqrt(n, a),
        is_sqrt(n, b),
    ensures
        a == b,
{
}

/// Every nonnegative integer has an integer square root.
pub proof fn lemma_sqrt_exists(n: int)
    requires
        0 <= n,
    ensures
        exists|r: int| #[trigger] is_sqrt(n, r),
    decreases n,
{
    if n == 0 {
        assert(is_sqrt(0, 0)) by (nonlinear_arith);
    } else {
        lemma_sqrt_exists(n - 1);
        let r = choose|r: int| #[trigger] is_sqrt(n - 1, r);
        if (r + 1) * (r + 1) <= n {
            assert(is_sqrt(n, r + 1)) by (nonlinear_arith)
                requires
                    is_sqrt(n - 1, r) && (r + 1) * (r + 1) <= n;
        } else {
            assert(is_sqrt(n, r)) by (nonlinear_arith)
                requires
                    is_sqrt(n - 1, r) && n < (r + 1) * (r + 1);
        }
    }
}

/// `sqrt_floor` satisfies its characterisation.
pub proof fn lemma_sqrt_floor_is_sqrt(n: int)
    requires
        0 <= n,
    ensures
        is_sqrt(n, sqrt_floor(n)),
{
    lemma_sqrt_exists(n);
}

/// A square bound on the argument bounds the square root.
pub proof fn lemma_sqrt_floor_le(n: int, m: int)
    requires
        0 <= n,
        0 <= m,
        n <= m * m,
    ensures
        0 <= sqrt_floor(n) <= m,
{
    lemma_sqrt_floor_is_sqrt(n);
    assert(sqrt_floor(n) <= m) by (nonlinear_arith)
        requires
            is_sqrt(n, sqrt_floor(n)) && 0 <= m && n <= m * m;
}

/// Integer square root by binary search.
pub fn isqrt_u128(n: u128) -> (r: u128)
    ensures
        r == sqrt_floor(n as int),
        is_sqrt(n as int, r as int),
{
    let mut lo: u128 = 0;
    let mut hi: u128 = 0x10000000000000000;
    proof {
        assert((0x10000000000000000 as int) * (0x10000000000000000 as int)
            == 0x100000000000000000000000000000000);
    }
    while lo + 1 < hi
        invariant
            0 <= lo < hi <= 0x10000000000000000,
            lo * lo <= n,
            (n as int) < (hi as int) * (hi as int),
        decreases hi - lo,
    {
        let mid: u128 = lo + (hi - lo) / 2;
        proof {
            assert((mid as int) * (mid as int)
                <= 0xffffffffffffffff * 0xffffffffffffffff) by (nonlinear_arith)
                requires
                    0 <= mid <= 0xffffffffffffffff;
            assert(0 <= (mid as int) * (mid as int)) by (nonlinear_arith);
        }
        if mid * mid <= n {
            lo = mid;
        } else {
            hi = mid;
        }
    }
    proof {
        assert(is_sqrt(n as int, lo as int));
        lemma_sqrt_floor_is_sqrt(n as int);
        lemma_sqrt_unique(n as int, lo as int, sqrt_floor(n as int));
    }
    lo
}

/// Integer square root of a nonnegative wide value.
pub fn isqrt_i128(n: i128) -> (r: i128)
    requires
        0 <= n,
    ensures
        r == sqrt_floor(n as int),
        is_sqrt(n as int, r as int),
{
    let r = isqrt_u128(n as u128);
    proof {
        assert(n * n >= n) by (nonlinear_arith)
            requires
                0 <= n;
        lemma_sqrt_floor_le(n as int, n as int);
    }
    r as i128
}

} // verus!
