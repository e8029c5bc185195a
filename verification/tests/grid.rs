//! Grid construction, zeroing, resetting and index mapping, on concrete
//! values. All quantities are fixed-point milli-units: 800.0 world units
//! are written 800_000.

use flowfield::common::Seedable;
use flowfield::field::{AttractorField, ForceField, GradientField};
use flowfield::flow::{FieldError, FlowField, DEFAULT_SEED};
use flowfield::vec2::Vec2i;

fn grid_800_600() -> FlowField {
    FlowField::new(800_000, 600_000, 20_000, 1_000).unwrap()
}

#[test]
fn construction_dimensions_800_600() {
    // cols = ceil(800 * (1 + 2 * 1) / 20) = 120, rows = ceil(600 * 3 / 20) = 90.
    let g = grid_800_600();
    let b = g.bounds();
    assert_eq!(b, [[0, 0], [120, 90]]);
    assert_eq!(g.field.len(), 120 * 90);
    assert_eq!(g.left, -800_000);
    assert_eq!(g.right, 1_600_000);
    assert_eq!(g.top, -600_000);
    assert_eq!(g.bottom, 1_200_000);
}

#[test]
fn construction_rounds_up() {
    // cols = ceil(805 * 2 / 20) = ceil(80.5) = 81, rows = ceil(59.5) = 60.
    let g = FlowField::new(805_000, 595_000, 20_000, 500).unwrap();
    let b = g.bounds();
    assert_eq!(b, [[0, 0], [81, 60]]);
    assert_eq!(g.field.len(), 81 * 60);
}

#[test]
fn construction_no_padding() {
    let g = FlowField::new(800_000, 600_000, 20_000, 0).unwrap();
    assert_eq!(g.bounds(), [[0, 0], [40, 30]]);
    assert_eq!(g.left, 0);
    assert_eq!(g.right, 800_000);
}

#[test]
fn construction_starts_zeroed() {
    let g = grid_800_600();
    for v in &g.field {
        assert_eq!(*v, Vec2i { x: 0, y: 0 });
    }
    assert_eq!(g.seed, DEFAULT_SEED);
}

#[test]
fn construction_rejects_zero_resolution() {
    assert_eq!(
        FlowField::new(800_000, 600_000, 0, 0).unwrap_err(),
        FieldError::InvalidDimension
    );
}

#[test]
fn construction_rejects_negative_resolution() {
    assert_eq!(
        FlowField::new(800_000, 600_000, -20_000, 0).unwrap_err(),
        FieldError::InvalidDimension
    );
}

#[test]
fn construction_rejects_negative_width() {
    assert_eq!(
        FlowField::new(-1, 600_000, 20_000, 0).unwrap_err(),
        FieldError::InvalidDimension
    );
}

#[test]
fn construction_rejects_negative_height() {
    assert_eq!(
        FlowField::new(800_000, -5, 20_000, 0).unwrap_err(),
        FieldError::InvalidDimension
    );
}

#[test]
fn zero_clears_every_cell() {
    let mut g = grid_800_600();
    g.merge(&ForceField::Gradient(GradientField::new(2_000, 0)));
    g.zero();
    for v in &g.field {
        assert_eq!(*v, Vec2i { x: 0, y: 0 });
    }
    // Reads after zeroing see the zero vector wherever they ask.
    assert_eq!(g.force_at([0, 0]), Vec2i { x: 0, y: 0 });
    assert_eq!(g.force_at([999_999, -999_999]), Vec2i { x: 0, y: 0 });
}

#[test]
fn index_at_maps_and_clamps() {
    let g = grid_800_600();
    // The visible origin sits 40 padded cells right of the domain's left edge.
    assert_eq!(g.index_at([0, 0]), [40, 30]);
    assert_eq!(g.index_at([400_000, 300_000]), [60, 45]);
    // The outer corner of the padded domain is the last cell.
    assert_eq!(g.index_at([1_600_000, 1_200_000]), [119, 89]);
}

#[test]
fn index_at_saturates_far_outside() {
    // Far points give the same index as the domain's boundary points.
    let g = grid_800_600();
    let high_boundary = g.index_at([1_600_000, 1_200_000]);
    assert_eq!(g.index_at([999_999_999, 999_999_999]), high_boundary);
    assert_eq!(high_boundary, [119, 89]);
    let low_boundary = g.index_at([-800_000, -600_000]);
    assert_eq!(g.index_at([-999_999_999, -999_999_999]), low_boundary);
    assert_eq!(low_boundary, [0, 0]);
}

#[test]
fn visible_bounds_cover_the_canvas() {
    let g = grid_800_600();
    assert_eq!(g.visible_bounds(), [[40, 30], [80, 60]]);
    assert_eq!(g.displayable_bounds(true), [[0, 0], [120, 90]]);
    assert_eq!(g.displayable_bounds(false), [[40, 30], [80, 60]]);
}

#[test]
fn reset_matches_fresh_construction() {
    let mut g = grid_800_600();
    g.set_seed(77);
    g.merge(&ForceField::Attractor(AttractorField::new(-1_000, 60, 45)));
    g.merge(&ForceField::Gradient(GradientField::new(500, 700)));
    let fresh = FlowField::new(400_000, 200_000, 20_000, 1_000).unwrap();
    let r = g.reset(400_000, 200_000).unwrap();
    assert_eq!(r.bounds(), fresh.bounds());
    assert_eq!(r.bounds(), [[0, 0], [60, 30]]);
    assert_eq!(r.resolution, 20_000);
    assert_eq!(r.extend, 1_000);
    assert_eq!(r.seed, DEFAULT_SEED);
    for v in &r.field {
        assert_eq!(*v, Vec2i { x: 0, y: 0 });
    }
    // The receiver is untouched: same dimensions, same populated cells.
    assert_eq!(g.bounds(), [[0, 0], [120, 90]]);
    assert_ne!(g.field[60 * 90 + 45], Vec2i { x: 0, y: 0 });
}

#[test]
fn reset_rejects_negative_dimensions() {
    let g = grid_800_600();
    assert_eq!(g.reset(-400_000, 200_000).unwrap_err(), FieldError::InvalidDimension);
    assert_eq!(g.reset(400_000, -200_000).unwrap_err(), FieldError::InvalidDimension);
}

#[test]
fn seedable_round_trip() {
    let mut g = grid_800_600();
    assert_eq!(g.seed(), DEFAULT_SEED);
    g.set_seed(123_456_789);
    assert_eq!(g.seed(), 123_456_789);
}
