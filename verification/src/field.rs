//! The four force-field variants: pure functions from a grid coordinate
//! (plus, for the sampled variants, an externally supplied scalar) to a
//! fixed-point 2D vector.
//!
//! The variant set is closed, so a force field is a sum type dispatched by
//! variant. The Perlin and random variants depend on outside providers
//! (a coherent-noise source, a uniform-random source) that produce floating
//! point values the verified core cannot hold; their `get` therefore takes
//! the provider's sample, reduced to a fixed-point scalar, as an argument,
//! and is exact for every value of it.

use vstd::prelude::*;

verus! {

use crate::math::{
    cbrt_floor, div_trunc, div_trunc_i64, iabs, icbrt_u64, isqrt_u64, lemma_div_trunc_bound,
    lemma_sqrt_floor_lower, sqrt_floor, udiv_i64,
};
use crate::trig::{cos_milli, cos_milli_spec, sin_milli, sin_milli_spec, TAU_MILLI};
use crate::vec2::Vec2i;
use crate::{MAX_AXIS, SCALE};

/// The largest force strength a field may be built with, in milli-units.
pub const MAX_STRENGTH: i64 = 1_000_000_000;

/// The largest grid index an attractor may target.
pub const MAX_TARGET: i64 = 1_000_000;

/// `strength` put onto the unit vector at `angle` milliradians.
pub open spec fn polar_vec_spec(strength: int, angle: int) -> (int, int) {
    (
        div_trunc(strength * cos_milli_spec(angle), SCALE as int),
        div_trunc(strength * sin_milli_spec(angle), SCALE as int),
    )
}

/// Scale `strength` by the unit vector at `angle` milliradians.
fn polar_vec(strength: i64, angle: i64) -> (v: Vec2i)
    requires
        -MAX_STRENGTH <= strength <= MAX_STRENGTH,
        i64::MIN < angle,
    ensures
        v.x as int == polar_vec_spec(strength as int, angle as int).0,
        v.y as int == polar_vec_spec(strength as int, angle as int).1,
        -iabs(strength as int) <= v.x as int <= iabs(strength as int),
        -iabs(strength as int) <= v.y as int <= iabs(strength as int),
{
    let c: i64 = cos_milli(angle);
    let s: i64 = sin_milli(angle);
    proof {
        let sa = iabs(strength as int);
        assert(-(sa * 1000) <= (strength as int) * (c as int) <= sa * 1000) by (nonlinear_arith)
            requires
                -1000 <= (c as int) <= 1000,
                -sa <= (strength as int) <= sa,
                0 <= sa,
        ;
        assert(-(sa * 1000) <= (strength as int) * (s as int) <= sa * 1000) by (nonlinear_arith)
            requires
                -1000 <= (s as int) <= 1000,
                -sa <= (strength as int) <= sa,
                0 <= sa,
        ;
        assert(sa * 1000 <= 1000000000000int) by (nonlinear_arith)
            requires
                0 <= sa <= 1000000000,
        ;
        lemma_div_trunc_bound((strength as int) * (c as int), SCALE as int, sa);
        lemma_div_trunc_bound((strength as int) * (s as int), SCALE as int, sa);
    }
    let vx: i64 = div_trunc_i64(strength * c, SCALE);
    let vy: i64 = div_trunc_i64(strength * s, SCALE);
    Vec2i { x: vx, y: vy }
}

/// Samples a seeded coherent-noise source: the noise value picks an angle
/// on the full turn and the result is the unit vector at that angle scaled
/// by `strength`. The noise values themselves come from the caller, cell by
/// cell, since producing them is the outside noise provider's job.
pub struct PerlinField {
    pub strength: i64,
    pub scale: i64,
    pub seed: u32,
}

/// The vector a Perlin noise sample (in `[0, SCALE]`) yields.
pub open spec fn perlin_vec_spec(f: PerlinField, noise: int) -> (int, int) {
    polar_vec_spec(f.strength as int, (noise * (TAU_MILLI as int)) / (SCALE as int))
}

impl PerlinField {
    pub open spec fn wf(&self) -> bool {
        -MAX_STRENGTH <= self.strength <= MAX_STRENGTH
    }

    pub fn new(strength: i64, scale: i64, seed: u32) -> (f: PerlinField)
        requires
            -MAX_STRENGTH <= strength <= MAX_STRENGTH,
        ensures
            f == (PerlinField { strength: strength, scale: scale, seed: seed }),
            f.wf(),
    {
        PerlinField { strength, scale, seed }
    }

    /// The field vector for one externally supplied noise sample.
    pub fn get(&self, noise: i64) -> (v: Vec2i)
        requires
            self.wf(),
            0 <= noise <= SCALE,
        ensures
            v.x as int == perlin_vec_spec(*self, noise as int).0,
            v.y as int == perlin_vec_spec(*self, noise as int).1,
            -iabs(self.strength as int) <= v.x as int <= iabs(self.strength as int),
            -iabs(self.strength as int) <= v.y as int <= iabs(self.strength as int),
    {
        let angle: i64 = udiv_i64(noise * TAU_MILLI, SCALE);
        polar_vec(self.strength, angle)
    }
}

/// Pulls toward (or, with negative strength, pushes away from) a target
/// grid index, decaying with the cube root of the distance.
pub struct AttractorField {
    strength: i64,
    i: i64,
    j: i64,
}

/// The vector an attractor contributes at grid index `(i, j)`: magnitude
/// `strength / max(distance, 1)^(1/3)` along the direction from `(i, j)`
/// to the target, each step rounded toward zero.
pub open spec fn attractor_vec_spec(f: AttractorField, i: int, j: int) -> (int, int) {
    let dx = f.target_i() - i;
    let dy = f.target_j() - j;
    let d2 = dx * dx + dy * dy;
    let dist = sqrt_floor(d2 * (SCALE as int) * (SCALE as int));
    let m = if dist < SCALE as int {
        SCALE as int
    } else {
        dist
    };
    let c = cbrt_floor(m * (SCALE as int) * (SCALE as int));
    let decay = div_trunc((f.strength() as int) * (SCALE as int), c);
    if d2 == 0 {
        (decay, 0)
    } else {
        (
            div_trunc(decay * div_trunc(dx * (SCALE as int) * (SCALE as int), dist), SCALE as int),
            div_trunc(decay * div_trunc(dy * (SCALE as int) * (SCALE as int), dist), SCALE as int),
        )
    }
}

impl AttractorField {
    pub closed spec fn strength(&self) -> int {
        self.strength as int
    }

    pub closed spec fn target_i(&self) -> int {
        self.i as int
    }

    pub closed spec fn target_j(&self) -> int {
        self.j as int
    }

    pub open spec fn wf(&self) -> bool {
        &&& -MAX_STRENGTH <= self.strength() <= MAX_STRENGTH
        &&& 0 <= self.target_i() <= MAX_TARGET
        &&& 0 <= self.target_j() <= MAX_TARGET
    }

    pub fn new(strength: i64, i: usize, j: usize) -> (f: AttractorField)
        requires
            -MAX_STRENGTH <= strength <= MAX_STRENGTH,
            i as int <= MAX_TARGET,
            j as int <= MAX_TARGET,
        ensures
            f.strength() == strength as int,
            f.target_i() == i as int,
            f.target_j() == j as int,
            f.wf(),
    {
        AttractorField { strength, i: i as i64, j: j as i64 }
    }

    /// The field vector at grid index `(i, j)`.
    pub fn get(&self, i: usize, j: usize) -> (v: Vec2i)
        requires
            self.wf(),
            i <= MAX_AXIS,
            j <= MAX_AXIS,
        ensures
            v.x as int == attractor_vec_spec(*self, i as int, j as int).0,
            v.y as int == attractor_vec_spec(*self, i as int, j as int).1,
            -iabs(self.strength()) <= v.x as int <= iabs(self.strength()),
            -iabs(self.strength()) <= v.y as int <= iabs(self.strength()),
    {
        let dx: i64 = self.i - i as i64;
        let dy: i64 = self.j - j as i64;
        proof {
            assert((dx as int) * (dx as int) + (dy as int) * (dy as int) <= 2200000000000int)
                by (nonlinear_arith)
                requires
                    -1032768 <= (dx as int) <= 1032768,
                    -1032768 <= (dy as int) <= 1032768,
            ;
            assert((dx as int) * (dx as int) >= 0) by (nonlinear_arith);
            assert((dy as int) * (dy as int) >= 0) by (nonlinear_arith);
        }
        let d2: i64 = dx * dx + dy * dy;
        let dist64: u64 = isqrt_u64((d2 * SCALE * SCALE) as u64);
        proof {
            assert((dist64 as int) <= 1500000000int) by (nonlinear_arith)
                requires
                    0 <= (dist64 as int),
                    (dist64 as int) * (dist64 as int) <= 2200000000000000000int,
            ;
        }
        let dist: i64 = dist64 as i64;
        let m: i64 = if dist < SCALE {
            SCALE
        } else {
            dist
        };
        let c64: u64 = icbrt_u64((m * SCALE * SCALE) as u64);
        proof {
            assert((c64 as int) <= 120000int) by (nonlinear_arith)
                requires
                    0 <= (c64 as int),
                    (c64 as int) * (c64 as int) * (c64 as int) <= 1600000000000000int,
            ;
            assert((c64 as int) >= 1000int) by (nonlinear_arith)
                requires
                    0 <= (c64 as int),
                    ((c64 as int) + 1) * ((c64 as int) + 1) * ((c64 as int) + 1)
                        > 1000000000int,
            ;
        }
        let c: i64 = c64 as i64;
        proof {
            let sa = iabs(self.strength());
            assert(-(sa * (c as int)) <= self.strength() * 1000 <= sa * (c as int))
                by (nonlinear_arith)
                requires
                    -sa <= self.strength() <= sa,
                    0 <= sa,
                    1000 <= (c as int),
            ;
            lemma_div_trunc_bound(self.strength() * (SCALE as int), c as int, sa);
        }
        let decay: i64 = div_trunc_i64(self.strength * SCALE, c);
        if d2 == 0 {
            Vec2i { x: decay, y: 0 }
        } else {
            proof {
                let adx = iabs(dx as int);
                let ady = iabs(dy as int);
                assert(adx == dx as int || adx == -(dx as int));
                assert(ady == dy as int || ady == -(dy as int));
                assert((adx * 1000) * (adx * 1000) <= ((dx as int) * (dx as int) + (dy as int) * (
                dy as int
                )) * 1000 * 1000) by (nonlinear_arith)
                    requires
                        adx == dx as int || adx == -(dx as int),
                ;
                assert((ady * 1000) * (ady * 1000) <= ((dx as int) * (dx as int) + (dy as int) * (
                dy as int
                )) * 1000 * 1000) by (nonlinear_arith)
                    requires
                        ady == dy as int || ady == -(dy as int),
                ;
                assert((d2 as int) * 1000 * 1000 == ((dx as int) * (dx as int) + (dy as int) * (
                dy as int
                )) * 1000 * 1000);
                lemma_sqrt_floor_lower((d2 as int) * (SCALE as int) * (SCALE as int), adx * 1000);
                lemma_sqrt_floor_lower((d2 as int) * (SCALE as int) * (SCALE as int), ady * 1000);
                lemma_sqrt_floor_lower((d2 as int) * (SCALE as int) * (SCALE as int), 1000);
                assert(-(1000 * (dist as int)) <= (dx as int) * 1000 * 1000 <= 1000 * (
                dist as int
                )) by (nonlinear_arith)
                    requires
                        adx * 1000 <= (dist as int),
                        -adx <= (dx as int) <= adx,
                        0 <= adx,
                ;
                assert(-(1000 * (dist as int)) <= (dy as int) * 1000 * 1000 <= 1000 * (
                dist as int
                )) by (nonlinear_arith)
                    requires
                        ady * 1000 <= (dist as int),
                        -ady <= (dy as int) <= ady,
                        0 <= ady,
                ;
                lemma_div_trunc_bound(
                    (dx as int) * (SCALE as int) * (SCALE as int),
                    dist as int,
                    SCALE as int,
                );
                lemma_div_trunc_bound(
                    (dy as int) * (SCALE as int) * (SCALE as int),
                    dist as int,
                    SCALE as int,
                );
            }
            let ux: i64 = div_trunc_i64(dx * SCALE * SCALE, dist);
            let uy: i64 = div_trunc_i64(dy * SCALE * SCALE, dist);
            proof {
                let sa = iabs(self.strength());
                assert(-(sa * 1000) <= (decay as int) * (ux as int) <= sa * 1000)
                    by (nonlinear_arith)
                    requires
                        -sa <= (decay as int) <= sa,
                        -1000 <= (ux as int) <= 1000,
                        0 <= sa,
                ;
                assert(-(sa * 1000) <= (decay as int) * (uy as int) <= sa * 1000)
                    by (nonlinear_arith)
                    requires
                        -sa <= (decay as int) <= sa,
                        -1000 <= (uy as int) <= 1000,
                        0 <= sa,
                ;
                assert(sa * 1000 <= 1000000000000int) by (nonlinear_arith)
                    requires
                        0 <= sa <= 1000000000,
                ;
                lemma_div_trunc_bound((decay as int) * (ux as int), SCALE as int, sa);
                lemma_div_trunc_bound((decay as int) * (uy as int), SCALE as int, sa);
            }
            let vx: i64 = div_trunc_i64(decay * ux, SCALE);
            let vy: i64 = div_trunc_i64(decay * uy, SCALE);
            Vec2i { x: vx, y: vy }
        }
    }
}

/// A uniform directional bias: the same vector at every cell.
pub struct GradientField {
    pub strength: i64,
    pub angle: i64,
}

/// The constant vector a gradient field contributes everywhere.
pub open spec fn gradient_vec_spec(f: GradientField) -> (int, int) {
    polar_vec_spec(f.strength as int, f.angle as int)
}

impl GradientField {
    pub open spec fn wf(&self) -> bool {
        &&& -MAX_STRENGTH <= self.strength <= MAX_STRENGTH
        &&& i64::MIN < self.angle
    }

    pub fn new(strength: i64, angle: i64) -> (f: GradientField)
        requires
            -MAX_STRENGTH <= strength <= MAX_STRENGTH,
            i64::MIN < angle,
        ensures
            f == (GradientField { strength: strength, angle: angle }),
            f.wf(),
    {
        GradientField { strength, angle }
    }

    /// The field vector, the same at every grid index.
    pub fn get(&self) -> (v: Vec2i)
        requires
            self.wf(),
        ensures
            v.x as int == gradient_vec_spec(*self).0,
            v.y as int == gradient_vec_spec(*self).1,
            -iabs(self.strength as int) <= v.x as int <= iabs(self.strength as int),
            -iabs(self.strength as int) <= v.y as int <= iabs(self.strength as int),
    {
        polar_vec(self.strength, self.angle)
    }
}

/// Per-call jitter: an externally drawn uniform angle, magnitude `strength`.
/// The angle comes from the caller since drawing it is the outside
/// uniform-random provider's job; the result is exact for every draw.
pub struct RandomField {
    pub strength: i64,
}

/// The vector a drawn angle (in `[0, TAU_MILLI)`) yields.
pub open spec fn random_vec_spec(f: RandomField, angle: int) -> (int, int) {
    polar_vec_spec(f.strength as int, angle)
}

impl RandomField {
    pub open spec fn wf(&self) -> bool {
        -MAX_STRENGTH <= self.strength <= MAX_STRENGTH
    }

    pub fn new(strength: i64) -> (f: RandomField)
        requires
            -MAX_STRENGTH <= strength <= MAX_STRENGTH,
        ensures
            f == (RandomField { strength: strength }),
            f.wf(),
    {
        RandomField { strength }
    }

    /// The field vector for one externally drawn angle.
    pub fn get(&self, angle: i64) -> (v: Vec2i)
        requires
            self.wf(),
            0 <= angle < TAU_MILLI,
        ensures
            v.x as int == random_vec_spec(*self, angle as int).0,
            v.y as int == random_vec_spec(*self, angle as int).1,
            -iabs(self.strength as int) <= v.x as int <= iabs(self.strength as int),
            -iabs(self.strength as int) <= v.y as int <= iabs(self.strength as int),
    {
        polar_vec(self.strength, angle)
    }
}

/// The closed set of force-field variants.
pub enum ForceField {
    Perlin(PerlinField),
    Attractor(AttractorField),
    Gradient(GradientField),
    Random(RandomField),
}

/// The vector a force field contributes at grid index `(i, j)`, given the
/// outside sample for the variants that take one (ignored by the others).
pub open spec fn force_vec(f: ForceField, i: int, j: int, sample: int) -> (int, int) {
    match f {
        ForceField::Perlin(p) => perlin_vec_spec(p, sample),
        ForceField::Attractor(a) => attractor_vec_spec(a, i, j),
        ForceField::Gradient(g) => gradient_vec_spec(g),
        ForceField::Random(r) => random_vec_spec(r, sample),
    }
}

/// The largest component magnitude a force field can contribute.
pub open spec fn strength_abs(f: ForceField) -> int {
    match f {
        ForceField::Perlin(p) => iabs(p.strength as int),
        ForceField::Attractor(a) => iabs(a.strength()),
        ForceField::Gradient(g) => iabs(g.strength as int),
        ForceField::Random(r) => iabs(r.strength as int),
    }
}

impl ForceField {
    pub open spec fn wf(&self) -> bool {
        match self {
            ForceField::Perlin(p) => p.wf(),
            ForceField::Attractor(a) => a.wf(),
            ForceField::Gradient(g) => g.wf(),
            ForceField::Random(r) => r.wf(),
        }
    }

    /// Whether the grid can evaluate this variant without an outside sample.
    pub open spec fn self_contained(&self) -> bool {
        self is Attractor || self is Gradient
    }

    /// What an outside sample must satisfy for this variant.
    pub open spec fn sample_ok(&self, s: int) -> bool {
        match self {
            ForceField::Perlin(_) => 0 <= s <= SCALE as int,
            ForceField::Random(_) => 0 <= s < TAU_MILLI as int,
            _ => true,
        }
    }

    /// The field vector at grid index `(i, j)` for the given sample.
    pub fn get(&self, i: usize, j: usize, sample: i64) -> (v: Vec2i)
        requires
            self.wf(),
            self.sample_ok(sample as int),
            i <= MAX_AXIS,
            j <= MAX_AXIS,
        ensures
            v.x as int == force_vec(*self, i as int, j as int, sample as int).0,
            v.y as int == force_vec(*self, i as int, j as int, sample as int).1,
            -strength_abs(*self) <= v.x as int <= strength_abs(*self),
            -strength_abs(*self) <= v.y as int <= strength_abs(*self),
    {
        match self {
            ForceField::Perlin(p) => p.get(sample),
            ForceField::Attractor(a) => a.get(i, j),
            ForceField::Gradient(g) => g.get(),
            ForceField::Random(r) => r.get(sample),
        }
    }
}

} // verus!
