//! The fixed-point numeric primitives: integer roots, truncating division
//! and the milliradian trigonometry, on exact expected values.

use flowfield::math::{div_trunc_i64, icbrt_u64, isqrt_u64, udiv_i64};
use flowfield::trig::{cos_milli, sin_milli, HALF_PI_MILLI, PI_MILLI, TAU_MILLI};

#[test]
fn isqrt_small_values() {
    assert_eq!(isqrt_u64(0), 0);
    assert_eq!(isqrt_u64(1), 1);
    assert_eq!(isqrt_u64(3), 1);
    assert_eq!(isqrt_u64(4), 2);
    assert_eq!(isqrt_u64(99), 9);
    assert_eq!(isqrt_u64(100), 10);
    assert_eq!(isqrt_u64(64_000_000), 8_000);
}

#[test]
fn isqrt_large_values() {
    assert_eq!(isqrt_u64(u64::MAX), 4_294_967_295);
    assert_eq!(isqrt_u64(1_000_000_000_000), 1_000_000);
}

#[test]
fn icbrt_small_values() {
    assert_eq!(icbrt_u64(0), 0);
    assert_eq!(icbrt_u64(1), 1);
    assert_eq!(icbrt_u64(26), 2);
    assert_eq!(icbrt_u64(27), 3);
    assert_eq!(icbrt_u64(1_000_000_000), 1_000);
    assert_eq!(icbrt_u64(8_000_000_000), 2_000);
}

#[test]
fn division_truncates_toward_zero() {
    assert_eq!(udiv_i64(7, 2), 3);
    assert_eq!(div_trunc_i64(7, 2), 3);
    assert_eq!(div_trunc_i64(-7, 2), -3);
    assert_eq!(div_trunc_i64(-16_000, 1_000), -16);
    assert_eq!(div_trunc_i64(0, 5), 0);
}

#[test]
fn trig_cardinal_angles() {
    assert_eq!(cos_milli(0), 1_000);
    assert_eq!(sin_milli(0), 0);
    // The series keeps a small residue at the quarter-turn seam.
    assert_eq!(cos_milli(HALF_PI_MILLI), -19);
    assert_eq!(sin_milli(HALF_PI_MILLI), 1_000);
    assert_eq!(cos_milli(PI_MILLI), -1_000);
    assert_eq!(sin_milli(PI_MILLI), 0);
}

#[test]
fn trig_wraps_whole_turns() {
    assert_eq!(cos_milli(TAU_MILLI), 1_000);
    assert_eq!(sin_milli(TAU_MILLI), 0);
    assert_eq!(cos_milli(-TAU_MILLI), 1_000);
    assert_eq!(cos_milli(10 * TAU_MILLI + 0), 1_000);
}

#[test]
fn trig_negative_angles() {
    assert_eq!(sin_milli(-HALF_PI_MILLI), -1_000);
    assert_eq!(cos_milli(-PI_MILLI), -1_000);
}

#[test]
fn trig_stays_in_unit_range() {
    let mut a: i64 = -7_000;
    while a <= 7_000 {
        assert!(-1_000 <= cos_milli(a) && cos_milli(a) <= 1_000);
        assert!(-1_000 <= sin_milli(a) && sin_milli(a) <= 1_000);
        a += 13;
    }
}
