//! Fixed-point sine and cosine on milliradians.
//!
//! Angles are integers counting thousandths of a radian; results are
//! thousandths of a unit, always within `[-SCALE, SCALE]`. Each quadrant is
//! a truncated power series folded onto `[0, HALF_PI_MILLI]`: an exactly
//! specified approximation, with separate sine and cosine series so that an
//! angle of zero yields exactly `(SCALE, 0)`, at the price of a residue of
//! about two percent at the quadrant seams.

use vstd::prelude::*;

verus! {

use crate::SCALE;
use crate::math::udiv_i64;
use vstd::arithmetic::div_mod::{lemma_fundamental_div_mod, lemma_fundamental_div_mod_converse};

/// One full turn, in milliradians.
pub const TAU_MILLI: i64 = 6283;

/// Half a turn, in milliradians.
pub const PI_MILLI: i64 = 3142;

/// A quarter turn, in milliradians.
pub const HALF_PI_MILLI: i64 = 1571;

/// Clamp a quarter-wave sample into `[0, SCALE]`.
pub open spec fn clamp_unit(v: int) -> int {
    if v < 0 {
        0
    } else if v > SCALE as int {
        SCALE as int
    } else {
        v
    }
}

/// Truncated cosine series on a quarter turn: `t` in `[0, HALF_PI_MILLI]`.
pub open spec fn quarter_cos_spec(t: int) -> int {
    let x2 = (t * t) / (SCALE as int);
    clamp_unit((SCALE as int) - x2 / 2 + (x2 * x2) / (24 * (SCALE as int)))
}

/// Truncated sine series on a quarter turn: `t` in `[0, HALF_PI_MILLI]`.
pub open spec fn quarter_sin_spec(t: int) -> int {
    let x2 = (t * t) / (SCALE as int);
    clamp_unit(
        t - (x2 * t) / (6 * (SCALE as int)) + (((x2 * x2) / (SCALE as int)) * t) / (120 * (
        SCALE as int
        )),
    )
}

/// The fixed-point cosine of `a` milliradians.
pub open spec fn cos_milli_spec(a: int) -> int {
    let r = a % (TAU_MILLI as int);
    if r < HALF_PI_MILLI as int {
        quarter_cos_spec(r)
    } else if r < PI_MILLI as int {
        -quarter_cos_spec(PI_MILLI as int - r)
    } else if r < PI_MILLI as int + HALF_PI_MILLI as int {
        -quarter_cos_spec(r - PI_MILLI as int)
    } else {
        quarter_cos_spec(TAU_MILLI as int - r)
    }
}

/// The fixed-point sine of `a` milliradians.
pub open spec fn sin_milli_spec(a: int) -> int {
    let r = a % (TAU_MILLI as int);
    if r < HALF_PI_MILLI as int {
        quarter_sin_spec(r)
    } else if r < PI_MILLI as int {
        quarter_sin_spec(PI_MILLI as int - r)
    } else if r < PI_MILLI as int + HALF_PI_MILLI as int {
        -quarter_sin_spec(r - PI_MILLI as int)
    } else {
        -quarter_sin_spec(TAU_MILLI as int - r)
    }
}

/// Reduce an angle to `[0, TAU_MILLI)` by the mathematical (Euclidean) modulus.
fn mod_tau(a: i64) -> (r: i64)
    requires
        i64::MIN < a,
    ensures
        0 <= r < TAU_MILLI,
        r as int == (a as int) % (TAU_MILLI as int),
{
    if a >= 0 {
        ((a as u64) % 6283) as i64
    } else {
        let n: i64 = -a;
        let m: i64 = ((n as u64) % 6283) as i64;
        proof {
            lemma_fundamental_div_mod(n as int, 6283);
            let q = (n as int) / 6283;
            if m == 0 {
                lemma_fundamental_div_mod_converse(a as int, 6283, -q, 0);
            } else {
                lemma_fundamental_div_mod_converse(a as int, 6283, -q - 1, 6283 - m as int);
            }
        }
        if m == 0 {
            0
        } else {
            6283 - m
        }
    }
}

fn quarter_cos(t: i64) -> (r: i64)
    requires
        0 <= t <= HALF_PI_MILLI,
    ensures
        r as int == quarter_cos_spec(t as int),
        0 <= r <= SCALE,
{
    assert((t as int) * (t as int) <= 1571 * 1571) by (nonlinear_arith)
        requires
            0 <= (t as int) <= 1571,
    ;
    let x2: i64 = udiv_i64(t * t, SCALE);
    assert((x2 as int) * (x2 as int) <= 2467241int * 2467241) by (nonlinear_arith)
        requires
            0 <= (x2 as int) <= 2467241,
    ;
    let a: i64 = udiv_i64(x2, 2);
    let b: i64 = udiv_i64(x2 * x2, 24 * SCALE);
    let v: i64 = SCALE - a + b;
    if v < 0 {
        0
    } else if v > SCALE {
        SCALE
    } else {
        v
    }
}

fn quarter_sin(t: i64) -> (r: i64)
    requires
        0 <= t <= HALF_PI_MILLI,
    ensures
        r as int == quarter_sin_spec(t as int),
        0 <= r <= SCALE,
{
    assert((t as int) * (t as int) <= 1571 * 1571) by (nonlinear_arith)
        requires
            0 <= (t as int) <= 1571,
    ;
    let x2: i64 = udiv_i64(t * t, SCALE);
    assert((x2 as int) * (t as int) <= 2467241int * 1571) by (nonlinear_arith)
        requires
            0 <= (x2 as int) <= 2467241,
            0 <= (t as int) <= 1571,
    ;
    assert((x2 as int) * (x2 as int) <= 2467241int * 2467241) by (nonlinear_arith)
        requires
            0 <= (x2 as int) <= 2467241,
    ;
    let a: i64 = udiv_i64(x2 * t, 6 * SCALE);
    let b4: i64 = udiv_i64(x2 * x2, SCALE);
    assert((b4 as int) * (t as int) <= 6088278032081int * 1571) by (nonlinear_arith)
        requires
            0 <= (b4 as int) <= 6088278032081,
            0 <= (t as int) <= 1571,
    ;
    let b: i64 = udiv_i64(b4 * t, 120 * SCALE);
    let v: i64 = t - a + b;
    if v < 0 {
        0
    } else if v > SCALE {
        SCALE
    } else {
        v
    }
}

/// The fixed-point cosine of `a` milliradians, in `[-SCALE, SCALE]`.
pub fn cos_milli(a: i64) -> (r: i64)
    requires
        i64::MIN < a,
    ensures
        r as int == cos_milli_spec(a as int),
        -SCALE <= r <= SCALE,
{
    let m: i64 = mod_tau(a);
    if m < HALF_PI_MILLI {
        quarter_cos(m)
    } else if m < PI_MILLI {
        -quarter_cos(PI_MILLI - m)
    } else if m < PI_MILLI + HALF_PI_MILLI {
        -quarter_cos(m - PI_MILLI)
    } else {
        quarter_cos(TAU_MILLI - m)
    }
}

/// The fixed-point sine of `a` milliradians, in `[-SCALE, SCALE]`.
pub fn sin_milli(a: i64) -> (r: i64)
    requires
        i64::MIN < a,
    ensures
        r as int == sin_milli_spec(a as int),
        -SCALE <= r <= SCALE,
{
    let m: i64 = mod_tau(a);
    if m < HALF_PI_MILLI {
        quarter_sin(m)
    } else if m < PI_MILLI {
        quarter_sin(PI_MILLI - m)
    } else if m < PI_MILLI + HALF_PI_MILLI {
        -quarter_sin(m - PI_MILLI)
    } else {
        -quarter_sin(TAU_MILLI - m)
    }
}

} // verus!
