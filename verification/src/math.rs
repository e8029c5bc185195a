//! Integer square roots, cube roots and truncating division: the exact
//! rounding primitives the fixed-point engine is specified with.

use vstd::prelude::*;

verus! {

use vstd::arithmetic::div_mod::{
    lemma_div_by_multiple, lemma_div_is_ordered, lemma_div_nonincreasing, lemma_div_pos_is_pos,
    lemma_fundamental_div_mod_converse,
};

/// `r` is the square root of `n` rounded down.
pub open spec fn is_sqrt_floor(n: int, r: int) -> bool {
    0 <= r && r * r <= n && n < (r + 1) * (r + 1)
}

/// The square root of `n` rounded down (meaningful for `n >= 0`).
pub open spec fn sqrt_floor(n: int) -> int {
    choose|r: int| is_sqrt_floor(n, r)
}

/// `r` is the cube root of `n` rounded down.
pub open spec fn is_cbrt_floor(n: int, r: int) -> bool {
    0 <= r && r * r * r <= n && n < (r + 1) * (r + 1) * (r + 1)
}

/// The cube root of `n` rounded down (meaningful for `n >= 0`).
pub open spec fn cbrt_floor(n: int) -> int {
    choose|r: int| is_cbrt_floor(n, r)
}

/// The absolute value of an integer.
pub open spec fn iabs(a: int) -> int {
    if a < 0 {
        -a
    } else {
        a
    }
}

/// Signed division rounding toward zero.
pub open spec fn div_trunc(a: int, b: int) -> int {
    if a >= 0 {
        a / b
    } else {
        -((-a) / b)
    }
}

/// The quotient of `a` by `b` rounded up (meaningful for `a >= 0`, `b > 0`).
pub open spec fn ceil_div(a: int, b: int) -> int {
    (a + b - 1) / b
}

pub proof fn lemma_sqrt_floor_exists(n: int)
    requires
        n >= 0,
    ensures
        is_sqrt_floor(n, sqrt_floor(n)),
    decreases n,
{
    if n == 0 {
        assert(is_sqrt_floor(0, 0));
    } else {
        lemma_sqrt_floor_exists(n - 1);
        let r = sqrt_floor(n - 1);
        if n < (r + 1) * (r + 1) {
            assert(is_sqrt_floor(n, r));
        } else {
            assert(n == (r + 1) * (r + 1));
            assert((r + 2) * (r + 2) > (r + 1) * (r + 1)) by (nonlinear_arith)
                requires
                    r >= 0,
            ;
            assert(is_sqrt_floor(n, r + 1));
        }
    }
}

pub proof fn lemma_sqrt_floor_unique(n: int, r: int)
    requires
        n >= 0,
        is_sqrt_floor(n, r),
    ensures
        r == sqrt_floor(n),
{
    lemma_sqrt_floor_exists(n);
    let s = sqrt_floor(n);
    if r < s {
        assert((r + 1) * (r + 1) <= s * s) by (nonlinear_arith)
            requires
                0 <= r,
                r < s,
        ;
    }
    if s < r {
        assert((s + 1) * (s + 1) <= r * r) by (nonlinear_arith)
            requires
                0 <= s,
                s < r,
        ;
    }
}

/// Any `r` whose square is at most `n` is at most `sqrt_floor(n)`.
pub proof fn lemma_sqrt_floor_lower(n: int, r: int)
    requires
        n >= 0,
        r >= 0,
        r * r <= n,
    ensures
        sqrt_floor(n) >= r,
{
    lemma_sqrt_floor_exists(n);
    let s = sqrt_floor(n);
    if s < r {
        assert((s + 1) * (s + 1) <= r * r) by (nonlinear_arith)
            requires
                0 <= s,
                s < r,
        ;
    }
}

pub proof fn lemma_cbrt_floor_exists(n: int)
    requires
        n >= 0,
    ensures
        is_cbrt_floor(n, cbrt_floor(n)),
    decreases n,
{
    if n == 0 {
        assert(is_cbrt_floor(0, 0));
    } else {
        lemma_cbrt_floor_exists(n - 1);
        let r = cbrt_floor(n - 1);
        if n < (r + 1) * (r + 1) * (r + 1) {
            assert(is_cbrt_floor(n, r));
        } else {
            assert(n == (r + 1) * (r + 1) * (r + 1));
            assert((r + 2) * (r + 2) * (r + 2) > (r + 1) * (r + 1) * (r + 1)) by (nonlinear_arith)
                requires
                    r >= 0,
            ;
            assert(is_cbrt_floor(n, r + 1));
        }
    }
}

pub proof fn lemma_cbrt_floor_unique(n: int, r: int)
    requires
        n >= 0,
        is_cbrt_floor(n, r),
    ensures
        r == cbrt_floor(n),
{
    lemma_cbrt_floor_exists(n);
    let s = cbrt_floor(n);
    if r < s {
        assert((r + 1) * (r + 1) * (r + 1) <= s * s * s) by (nonlinear_arith)
            requires
                0 <= r,
                r < s,
        ;
    }
    if s < r {
        assert((s + 1) * (s + 1) * (s + 1) <= r * r * r) by (nonlinear_arith)
            requires
                0 <= s,
                s < r,
        ;
    }
}

/// Any `r` whose cube is at most `n` is at most `cbrt_floor(n)`.
pub proof fn lemma_cbrt_floor_lower(n: int, r: int)
    requires
        n >= 0,
        r >= 0,
        r * r * r <= n,
    ensures
        cbrt_floor(n) >= r,
{
    lemma_cbrt_floor_exists(n);
    let s = cbrt_floor(n);
    if s < r {
        assert((s + 1) * (s + 1) * (s + 1) <= r * r * r) by (nonlinear_arith)
            requires
                0 <= s,
                s < r,
        ;
    }
}

/// Dividing a value of magnitude at most `m * b` by `b` gives a quotient of
/// magnitude at most `m`.
pub proof fn lemma_div_trunc_bound(a: int, b: int, m: int)
    requires
        0 < b,
        0 <= m,
        -(m * b) <= a <= m * b,
    ensures
        -m <= div_trunc(a, b) <= m,
{
    if a >= 0 {
        lemma_div_pos_is_pos(a, b);
        lemma_div_is_ordered(a, m * b, b);
        lemma_div_by_multiple(m, b);
    } else {
        lemma_div_pos_is_pos(-a, b);
        lemma_div_is_ordered(-a, m * b, b);
        lemma_div_by_multiple(m, b);
    }
}

/// A negative numerator over a positive denominator floors below zero.
pub proof fn lemma_neg_div_neg(x: int, d: int)
    requires
        x < 0,
        0 < d,
    ensures
        x / d < 0,
{
    lemma_fundamental_div_mod_converse(-1, d, -1, d - 1);
    lemma_div_is_ordered(x, -1, d);
}

/// The integer square root of a `u64`, rounded down.
pub fn isqrt_u64(n: u64) -> (r: u64)
    ensures
        r as int == sqrt_floor(n as int),
        is_sqrt_floor(n as int, r as int),
{
    let mut lo: u64 = 0;
    let mut hi: u64 = 4294967296;
    assert((4294967296int) * 4294967296 > n as int);
    while hi - lo > 1
        invariant
            0 <= lo < hi <= 4294967296,
            (lo as int) * (lo as int) <= n as int,
            (n as int) < (hi as int) * (hi as int),
        decreases hi - lo,
    {
        let mid: u64 = lo + (hi - lo) / 2;
        assert(mid < 4294967296);
        assert((mid as int) * (mid as int) <= 18446744073709551615) by (nonlinear_arith)
            requires
                (mid as int) <= 4294967295,
        ;
        let sq: u64 = mid * mid;
        if sq <= n {
            lo = mid;
        } else {
            hi = mid;
        }
    }
    proof {
        assert(is_sqrt_floor(n as int, lo as int));
        lemma_sqrt_floor_unique(n as int, lo as int);
    }
    lo
}

/// The integer cube root of a `u64`, rounded down.
pub fn icbrt_u64(n: u64) -> (r: u64)
    ensures
        r as int == cbrt_floor(n as int),
        is_cbrt_floor(n as int, r as int),
{
    let mut lo: u64 = 0;
    let mut hi: u64 = 2642246;
    assert((2642246int) * 2642246 * 2642246 > u64::MAX as int);
    while hi - lo > 1
        invariant
            0 <= lo < hi <= 2642246,
            (lo as int) * (lo as int) * (lo as int) <= n as int,
            (n as int) < (hi as int) * (hi as int) * (hi as int),
        decreases hi - lo,
    {
        let mid: u64 = lo + (hi - lo) / 2;
        assert(mid < 2642246);
        assert((mid as int) * (mid as int) <= (2642245int) * 2642245) by (nonlinear_arith)
            requires
                0 <= (mid as int) <= 2642245,
        ;
        assert((mid as int) * (mid as int) * (mid as int) <= (2642245int) * 2642245 * 2642245)
            by (nonlinear_arith)
            requires
                0 <= (mid as int) <= 2642245,
        ;
        let cube: u128 = (mid as u128) * (mid as u128) * (mid as u128);
        if cube <= n as u128 {
            lo = mid;
        } else {
            hi = mid;
        }
    }
    proof {
        assert(is_cbrt_floor(n as int, lo as int));
        lemma_cbrt_floor_unique(n as int, lo as int);
    }
    lo
}

/// The quotient of a nonnegative `a` by a positive `b`.
pub fn udiv_i64(a: i64, b: i64) -> (q: i64)
    requires
        0 <= a,
        0 < b,
    ensures
        q as int == a as int / b as int,
        0 <= q <= a,
{
    proof {
        lemma_div_pos_is_pos(a as int, b as int);
        lemma_div_nonincreasing(a as int, b as int);
    }
    ((a as u64) / (b as u64)) as i64
}

/// Signed division rounding toward zero.
pub fn div_trunc_i64(a: i64, b: i64) -> (q: i64)
    requires
        i64::MIN < a,
        0 < b,
    ensures
        q as int == div_trunc(a as int, b as int),
        a >= 0 ==> 0 <= q <= a,
        a < 0 ==> a <= q <= 0,
{
    if a >= 0 {
        udiv_i64(a, b)
    } else {
        let m = udiv_i64(-a, b);
        -m
    }
}

/// Signed division rounding toward zero, on wide intermediates.
pub fn div_trunc_i128(a: i128, b: i128) -> (q: i128)
    requires
        i128::MIN < a,
        0 < b,
    ensures
        q as int == div_trunc(a as int, b as int),
        a >= 0 ==> 0 <= q <= a,
        a < 0 ==> a <= q <= 0,
{
    if a >= 0 {
        proof {
            lemma_div_pos_is_pos(a as int, b as int);
            lemma_div_nonincreasing(a as int, b as int);
        }
        ((a as u128) / (b as u128)) as i128
    } else {
        proof {
            lemma_div_pos_is_pos(-(a as int), b as int);
            lemma_div_nonincreasing(-(a as int), b as int);
        }
        let m: i128 = (((-a) as u128) / (b as u128)) as i128;
        -m
    }
}

} // verus!
