//! Force-field behavior merged into grids, on concrete values.

use flowfield::field::{
    AttractorField, ForceField, GradientField, PerlinField, RandomField,
};
use flowfield::flow::FlowField;
use flowfield::vec2::Vec2i;

#[test]
fn gradient_fills_every_cell() {
    // GradientField(2.0, 0.0) merged alone makes every cell (2.0, 0.0).
    let mut g = FlowField::new(800_000, 600_000, 20_000, 1_000).unwrap();
    g.merge(&ForceField::Gradient(GradientField::new(2_000, 0)));
    for v in &g.field {
        assert_eq!(*v, Vec2i { x: 2_000, y: 0 });
    }
    assert_eq!(g.force_at([0, 0]), Vec2i { x: 2_000, y: 0 });
}

#[test]
fn attractor_at_its_target_cell() {
    // AttractorField(-1.0, 60, 45): at the target the distance clamps to 1,
    // so the vector has magnitude exactly 1.0.
    let mut g = FlowField::new(800_000, 600_000, 20_000, 1_000).unwrap();
    g.merge(&ForceField::Attractor(AttractorField::new(-1_000, 60, 45)));
    // World point (400.0, 300.0) falls in cell (60, 45).
    assert_eq!(g.index_at([400_000, 300_000]), [60, 45]);
    let v = g.force_at([400_000, 300_000]);
    assert_eq!(v, Vec2i { x: -1_000, y: 0 });
}

#[test]
fn attractor_pushes_neighbor_away() {
    // One cell right of the target, distance 1: magnitude 1.0, pointing
    // away from the target since the strength is negative.
    let mut g = FlowField::new(800_000, 600_000, 20_000, 1_000).unwrap();
    g.merge(&ForceField::Attractor(AttractorField::new(-1_000, 60, 45)));
    assert_eq!(g.index_at([430_000, 300_000]), [61, 45]);
    assert_eq!(g.force_at([430_000, 300_000]), Vec2i { x: 1_000, y: 0 });
}

#[test]
fn attractor_decays_with_cube_root() {
    // Eight cells left of the target: distance 8, cube root 2, so the
    // magnitude halves to 0.5, pointing toward the target (positive
    // strength, direction +x).
    let mut g = FlowField::new(800_000, 600_000, 20_000, 1_000).unwrap();
    g.merge(&ForceField::Attractor(AttractorField::new(1_000, 60, 45)));
    assert_eq!(g.index_at([240_000, 300_000]), [52, 45]);
    assert_eq!(g.force_at([240_000, 300_000]), Vec2i { x: 500, y: 0 });
}

#[test]
fn merge_accumulates_and_commutes() {
    // merge(A) then merge(B) leaves every cell the elementwise sum of the
    // two contributions, in either order.
    let a = ForceField::Gradient(GradientField::new(2_000, 0));
    let b = ForceField::Attractor(AttractorField::new(-1_000, 60, 45));

    let mut g_ab = FlowField::new(800_000, 600_000, 20_000, 1_000).unwrap();
    g_ab.merge(&a);
    g_ab.merge(&b);

    let mut g_ba = FlowField::new(800_000, 600_000, 20_000, 1_000).unwrap();
    g_ba.merge(&b);
    g_ba.merge(&a);

    assert_eq!(g_ab.field.len(), g_ba.field.len());
    for k in 0..g_ab.field.len() {
        assert_eq!(g_ab.field[k], g_ba.field[k]);
    }
    // At the attractor's own cell: (2.0, 0.0) + (-1.0, 0.0) = (1.0, 0.0).
    assert_eq!(g_ab.force_at([400_000, 300_000]), Vec2i { x: 1_000, y: 0 });
}

#[test]
fn merge_twice_doubles() {
    // Merging is not idempotent: repeating a merge doubles the contribution.
    let mut g = FlowField::new(200_000, 200_000, 20_000, 0).unwrap();
    let f = ForceField::Gradient(GradientField::new(700, 0));
    g.merge(&f);
    g.merge(&f);
    for v in &g.field {
        assert_eq!(*v, Vec2i { x: 1_400, y: 0 });
    }
}

#[test]
fn perlin_from_samples_is_polar() {
    // With every noise sample 0 the angle is 0: cells get (strength, 0).
    let mut g = FlowField::new(100_000, 100_000, 20_000, 0).unwrap();
    let cells = g.field.len();
    let f = ForceField::Perlin(PerlinField::new(500, 15, 7));
    g.merge_sampled(&f, &vec![0i64; cells]);
    for v in &g.field {
        assert_eq!(*v, Vec2i { x: 500, y: 0 });
    }
}

#[test]
fn perlin_sample_picks_the_angle() {
    // Sample 250 of 1000 maps to a quarter turn: 250 * 6283 / 1000 = 1570
    // milliradians, where the fixed-point cosine is 20 and the sine 1000.
    let mut g = FlowField::new(100_000, 100_000, 20_000, 0).unwrap();
    let cells = g.field.len();
    let f = ForceField::Perlin(PerlinField::new(500, 15, 7));
    g.merge_sampled(&f, &vec![250i64; cells]);
    for v in &g.field {
        assert_eq!(*v, Vec2i { x: 10, y: 500 });
    }
}

#[test]
fn random_angles_set_direction() {
    // A drawn angle of 1571 (a quarter turn) points the jitter along +y.
    let mut g = FlowField::new(100_000, 100_000, 20_000, 0).unwrap();
    let cells = g.field.len();
    let f = ForceField::Random(RandomField::new(800));
    g.merge_sampled(&f, &vec![1_571i64; cells]);
    for v in &g.field {
        assert_eq!(*v, Vec2i { x: -15, y: 800 });
    }
}

#[test]
fn contributions_stay_within_strength() {
    let mut g = FlowField::new(400_000, 400_000, 20_000, 500).unwrap();
    g.merge(&ForceField::Attractor(AttractorField::new(900, 10, 10)));
    for v in &g.field {
        assert!(v.x.abs() <= 900);
        assert!(v.y.abs() <= 900);
    }
}
