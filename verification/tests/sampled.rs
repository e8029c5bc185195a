//! The sampled variants driven by their real outside providers: Perlin
//! noise values from the `noise` crate and uniform angles from `rand`,
//! reduced to fixed-point samples the way a caller is meant to.

use flowfield::field::{ForceField, PerlinField, RandomField};
use flowfield::flow::FlowField;
use noise::{NoiseFn, Perlin, Seedable};
use rand::Rng;

/// One noise sample per cell, row-major, at the field's scale, mapped from
/// the provider's `[-1, 1]` range into the engine's `[0, 1000]`.
fn perlin_samples(cols: usize, rows: usize, scale_milli: i64, seed: u32) -> Vec<i64> {
    let perlin = Perlin::new().set_seed(seed);
    let scale = scale_milli as f64 / 1000.0;
    let mut samples = Vec::with_capacity(cols * rows);
    for i in 0..cols {
        for j in 0..rows {
            let n = perlin.get([i as f64 * scale, j as f64 * scale]);
            let clamped = (n + 1.0) / 2.0;
            let milli = (clamped * 1000.0).round() as i64;
            samples.push(milli.clamp(0, 1000));
        }
    }
    samples
}

#[test]
fn perlin_noise_merge_is_bounded_and_deterministic() {
    let f = PerlinField::new(500, 15, 7);
    let samples = {
        let g = FlowField::new(400_000, 300_000, 20_000, 500).unwrap();
        let b = g.bounds();
        perlin_samples(b[1][0], b[1][1], f.scale, f.seed)
    };

    let mut g1 = FlowField::new(400_000, 300_000, 20_000, 500).unwrap();
    g1.merge_sampled(&ForceField::Perlin(f), &samples);
    let mut g2 = FlowField::new(400_000, 300_000, 20_000, 500).unwrap();
    g2.merge_sampled(&ForceField::Perlin(PerlinField::new(500, 15, 7)), &samples);

    let mut saw_nonzero_y = false;
    for k in 0..g1.field.len() {
        // Same seed, same samples: the merge is deterministic.
        assert_eq!(g1.field[k], g2.field[k]);
        assert!(g1.field[k].x.abs() <= 500);
        assert!(g1.field[k].y.abs() <= 500);
        if g1.field[k].y != 0 {
            saw_nonzero_y = true;
        }
    }
    assert!(saw_nonzero_y);
}

#[test]
fn random_field_merge_is_bounded() {
    let mut g = FlowField::new(300_000, 300_000, 20_000, 0).unwrap();
    let cells = g.field.len();
    let mut rng = rand::thread_rng();
    let mut angles: Vec<i64> = Vec::with_capacity(cells);
    for _ in 0..cells {
        angles.push(rng.gen_range(0..6_283));
    }
    g.merge_sampled(&ForceField::Random(RandomField::new(800)), &angles);
    for v in &g.field {
        assert!(v.x.abs() <= 800);
        assert!(v.y.abs() <= 800);
    }
}
