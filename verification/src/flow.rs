//! The flow-field grid: a dense accumulator of fixed-point vectors over a
//! rectangular world domain padded on every side by a fractional `extend`
//! factor, with clamped world-to-index mapping and a renderable sampling.

use vstd::prelude::*;

verus! {

use crate::common::Seedable;
use crate::field::{force_vec, strength_abs, ForceField};
use crate::math::{
    ceil_div, div_trunc, div_trunc_i128, iabs, lemma_div_trunc_bound, lemma_neg_div_neg, udiv_i64,
};
use crate::vec2::Vec2i;
use crate::{MAX_AXIS, SCALE};
use vstd::arithmetic::div_mod::{
    lemma_div_by_multiple, lemma_div_is_ordered, lemma_div_nonincreasing, lemma_div_of0,
    lemma_div_pos_is_pos, lemma_fundamental_div_mod_converse,
};

/// The largest visible canvas width or height, in milli-units.
pub const MAX_DIM: i64 = 1_000_000_000;

/// The largest padding factor, in milli-units (a factor of one thousand).
pub const MAX_EXTEND: i64 = 1_000_000;

/// The largest coordinate magnitude `index_at` accepts, in milli-units.
pub const MAX_COORD: i64 = 1_000_000_000_000_000;

/// The largest cell component magnitude `display` accepts, in milli-units.
pub const MAX_CELL: i64 = 1_000_000_000_000;

/// The seed a freshly built grid carries.
pub const DEFAULT_SEED: u32 = 0;

/// Why a grid could not be built.
#[derive(Clone, Copy, PartialEq, Eq, Structural, Debug)]
pub enum FieldError {
    /// The resolution was not positive, or a canvas dimension was negative.
    InvalidDimension,
}

/// One arrow of the rendered field: the world-space cell origin, and the
/// origin displaced by the cell's vector scaled by the resolution.
#[derive(Clone, Copy, PartialEq, Eq, Structural, Debug)]
pub struct Segment {
    pub start: Vec2i,
    pub end: Vec2i,
}

/// Cells along one axis: the dimension padded by `extend` on both sides,
/// divided by the resolution, rounded up.
pub open spec fn axis_cells(dim: int, extend: int, resolution: int) -> int {
    ceil_div(dim * ((SCALE as int) + 2 * extend), (SCALE as int) * resolution)
}

/// The cell index a coordinate falls in along one axis: its offset from the
/// axis origin divided by the resolution, clamped into `[0, cells)` so that
/// any point, however far outside the padded domain, gets a valid index.
pub open spec fn clamped_index(origin: int, resolution: int, cells: int, p: int) -> int {
    let q = (p - origin) / resolution;
    if q < 0 {
        0
    } else if q > cells - 1 {
        cells - 1
    } else {
        q
    }
}

/// Every cell component is within `bound` in magnitude.
pub open spec fn cells_within(s: Seq<Vec2i>, bound: int) -> bool {
    forall|k: int|
        0 <= k < s.len() ==> -bound <= (#[trigger] s[k]).x as int <= bound && -bound <= s[k].y as int
            <= bound
}

/// The cell sequence as unbounded integer pairs.
pub open spec fn cells_of(s: Seq<Vec2i>) -> Seq<(int, int)> {
    Seq::new(s.len(), |k: int| (s[k].x as int, s[k].y as int))
}

/// The cell sequence after one merge: every cell gains the field's vector
/// at that cell's index, row-major with `rows` cells per column.
pub open spec fn apply_force(s: Seq<(int, int)>, f: ForceField, samples: Seq<int>, rows: int) -> Seq<
    (int, int),
> {
    Seq::new(
        s.len(),
        |k: int|
            (
                s[k].0 + force_vec(f, k / rows, k % rows, samples[k]).0,
                s[k].1 + force_vec(f, k / rows, k % rows, samples[k]).1,
            ),
    )
}

/// A sample sequence holding `v` everywhere, for the variants that take no
/// outside sample.
pub open spec fn const_samples(n: nat, v: int) -> Seq<int> {
    Seq::new(n, |k: int| v)
}

/// A sample vector's values as unbounded integers.
pub open spec fn int_samples(s: Seq<i64>) -> Seq<int> {
    Seq::new(s.len(), |k: int| s[k] as int)
}

/// How many cells a rectangular index range holds.
pub open spec fn seg_count(i0: int, i1: int, j0: int, j1: int) -> int {
    if i1 <= i0 || j1 <= j0 {
        0
    } else {
        (i1 - i0) * (j1 - j0)
    }
}

/// Entry `(i - i0) * span + (j - j0)` of `segs` is cell `(i, j)`'s arrow.
pub open spec fn seg_matches(
    segs: Seq<Segment>,
    g: FlowField,
    complete: bool,
    i0: int,
    j0: int,
    span: int,
    i: int,
    j: int,
) -> bool {
    let s = g.seg_spec(complete, i, j);
    let k = (i - i0) * span + (j - j0);
    &&& segs[k].start.x as int == s.0
    &&& segs[k].start.y as int == s.1
    &&& segs[k].end.x as int == s.2
    &&& segs[k].end.y as int == s.3
}

/// The dense accumulator: one vector per cell over the padded domain,
/// stored row-major in a single flat buffer (`i * rows + j`).
#[derive(Debug)]
pub struct FlowField {
    pub seed: u32,
    pub cols: usize,
    pub rows: usize,
    pub resolution: i64,
    pub extend: i64,
    pub width: i64,
    pub height: i64,
    pub left: i64,
    pub right: i64,
    pub top: i64,
    pub bottom: i64,
    pub field: Vec<Vec2i>,
}

/// Everything but the cell contents is equal.
pub open spec fn same_config(a: FlowField, b: FlowField) -> bool {
    &&& a.seed == b.seed
    &&& a.cols == b.cols
    &&& a.rows == b.rows
    &&& a.resolution == b.resolution
    &&& a.extend == b.extend
    &&& a.width == b.width
    &&& a.height == b.height
    &&& a.left == b.left
    &&& a.right == b.right
    &&& a.top == b.top
    &&& a.bottom == b.bottom
}

/// What construction guarantees: consistent derived dimensions and bounds,
/// the default seed, and a store of exactly `cols * rows` zero vectors.
pub open spec fn is_fresh(g: FlowField, width: int, height: int, resolution: int, extend: int) -> bool {
    &&& g.wf()
    &&& g.width as int == width
    &&& g.height as int == height
    &&& g.resolution as int == resolution
    &&& g.extend as int == extend
    &&& g.seed == DEFAULT_SEED
    &&& forall|k: int| 0 <= k < g.field@.len() ==> (#[trigger] g.field@[k]) == (Vec2i { x: 0, y: 0 })
}

impl FlowField {
    /// The structural invariant every operation preserves.
    pub open spec fn wf(&self) -> bool {
        &&& 0 <= self.width <= MAX_DIM
        &&& 0 <= self.height <= MAX_DIM
        &&& 0 < self.resolution <= MAX_DIM
        &&& 0 <= self.extend <= MAX_EXTEND
        &&& self.cols as int == axis_cells(self.width as int, self.extend as int, self.resolution as int)
        &&& self.rows as int == axis_cells(self.height as int, self.extend as int, self.resolution as int)
        &&& self.cols <= MAX_AXIS
        &&& self.rows <= MAX_AXIS
        &&& self.left as int == -(((self.width as int) * (self.extend as int)) / (SCALE as int))
        &&& self.right as int == ((self.width as int) * ((SCALE as int) + (self.extend as int))) / (SCALE as int)
        &&& self.top as int == -(((self.height as int) * (self.extend as int)) / (SCALE as int))
        &&& self.bottom as int == ((self.height as int) * ((SCALE as int) + (self.extend as int))) / (SCALE as int)
        &&& self.field@.len() == (self.cols as int) * (self.rows as int)
    }

    /// The column a world x-coordinate falls in, clamped in-bounds.
    pub open spec fn index_x_spec(&self, px: int) -> int {
        clamped_index(self.left as int, self.resolution as int, self.cols as int, px)
    }

    /// The row a world y-coordinate falls in, clamped in-bounds.
    pub open spec fn index_y_spec(&self, py: int) -> int {
        clamped_index(self.top as int, self.resolution as int, self.rows as int, py)
    }

    /// The vector stored for cell `(i, j)`.
    pub open spec fn cell_spec(&self, i: int, j: int) -> Vec2i {
        self.field@[i * (self.rows as int) + j]
    }

    /// Build a grid for a `width` by `height` canvas with the given cell
    /// size and padding factor. Fails with `InvalidDimension`, and only
    /// with it, when the resolution is not positive or a dimension is
    /// negative; otherwise the grid is fresh: `cols`/`rows` follow the
    /// ceiling formula and every cell starts at the zero vector.
    #[verifier::loop_isolation(false)]
    pub fn new(width: i64, height: i64, resolution: i64, extend: i64) -> (r: Result<
        FlowField,
        FieldError,
    >)
        requires
            -MAX_DIM <= width <= MAX_DIM,
            -MAX_DIM <= height <= MAX_DIM,
            -MAX_DIM <= resolution <= MAX_DIM,
            0 <= extend <= MAX_EXTEND,
            (0 < resolution && 0 <= width && 0 <= height) ==> axis_cells(
                width as int,
                extend as int,
                resolution as int,
            ) <= MAX_AXIS as int && axis_cells(height as int, extend as int, resolution as int)
                <= MAX_AXIS as int,
        ensures
            r is Ok <==> (0 < resolution && 0 <= width && 0 <= height),
            r is Err ==> r == Err::<FlowField, FieldError>(FieldError::InvalidDimension),
            r is Ok ==> is_fresh(r->Ok_0, width as int, height as int, resolution as int, extend as int),
    {
        if resolution <= 0 || width < 0 || height < 0 {
            return Err(FieldError::InvalidDimension);
        }
        proof {
            assert(0 <= (width as int) * ((SCALE as int) + 2 * (extend as int))
                <= 2001000000000000int) by (nonlinear_arith)
                requires
                    0 <= (width as int) <= 1000000000,
                    0 <= (extend as int) <= 1000000,
            ;
            assert(0 <= (height as int) * ((SCALE as int) + 2 * (extend as int))
                <= 2001000000000000int) by (nonlinear_arith)
                requires
                    0 <= (height as int) <= 1000000000,
                    0 <= (extend as int) <= 1000000,
            ;
            assert(0 <= (width as int) * (extend as int) <= 1000000000000000int)
                by (nonlinear_arith)
                requires
                    0 <= (width as int) <= 1000000000,
                    0 <= (extend as int) <= 1000000,
            ;
            assert(0 <= (height as int) * (extend as int) <= 1000000000000000int)
                by (nonlinear_arith)
                requires
                    0 <= (height as int) <= 1000000000,
                    0 <= (extend as int) <= 1000000,
            ;
            assert(0 <= (width as int) * ((SCALE as int) + (extend as int)) <= 1001000000000000int)
                by (nonlinear_arith)
                requires
                    0 <= (width as int) <= 1000000000,
                    0 <= (extend as int) <= 1000000,
            ;
            assert(0 <= (height as int) * ((SCALE as int) + (extend as int)) <= 1001000000000000int)
                by (nonlinear_arith)
                requires
                    0 <= (height as int) <= 1000000000,
                    0 <= (extend as int) <= 1000000,
            ;
        }
        let num_w: i64 = width * (SCALE + 2 * extend);
        let num_h: i64 = height * (SCALE + 2 * extend);
        let den: i64 = SCALE * resolution;
        let cols64: i64 = udiv_i64(num_w + den - 1, den);
        let rows64: i64 = udiv_i64(num_h + den - 1, den);
        let cols: usize = cols64 as usize;
        let rows: usize = rows64 as usize;
        let left: i64 = -udiv_i64(width * extend, SCALE);
        let top: i64 = -udiv_i64(height * extend, SCALE);
        let right: i64 = udiv_i64(width * (SCALE + extend), SCALE);
        let bottom: i64 = udiv_i64(height * (SCALE + extend), SCALE);
        proof {
            assert((cols as int) * (rows as int) <= 1073741824int) by (nonlinear_arith)
                requires
                    0 <= (cols as int) <= 32768,
                    0 <= (rows as int) <= 32768,
            ;
        }
        let total: usize = cols * rows;
        let mut field: Vec<Vec2i> = Vec::new();
        while field.len() < total
            invariant
                field@.len() <= total,
                forall|k: int|
                    0 <= k < field@.len() ==> (#[trigger] field@[k]) == (Vec2i { x: 0, y: 0 }),
            decreases total - field.len(),
        {
            field.push(Vec2i { x: 0, y: 0 });
        }
        Ok(
            FlowField {
                seed: DEFAULT_SEED,
                cols,
                rows,
                resolution,
                extend,
                width,
                height,
                left,
                right,
                top,
                bottom,
                field,
            },
        )
    }

    /// Set every cell back to the zero vector, in place.
    #[verifier::loop_isolation(false)]
    pub fn zero(&mut self)
        requires
            old(self).wf(),
        ensures
            final(self).wf(),
            same_config(*final(self), *old(self)),
            final(self).field@.len() == old(self).field@.len(),
            forall|k: int|
                0 <= k < final(self).field@.len() ==> (#[trigger] final(self).field@[k]) == (Vec2i {
                    x: 0,
                    y: 0,
                }),
    {
        let total: usize = self.field.len();
        let mut k: usize = 0;
        while k < total
            invariant
                k <= total,
                same_config(*self, *old(self)),
                self.field@.len() == old(self).field@.len(),
                total == self.field@.len(),
                forall|m: int|
                    0 <= m < k ==> (#[trigger] self.field@[m]) == (Vec2i { x: 0, y: 0 }),
            decreases total - k,
        {
            self.field.set(k, Vec2i { x: 0, y: 0 });
            k += 1;
        }
    }

    /// Accumulate a self-contained force field (an attractor or a gradient)
    /// into every cell: cell `(i, j)` gains the field's vector at `(i, j)`,
    /// elementwise. Cells must leave `strength_abs` headroom so that no
    /// component overflows. The sampled variants go through
    /// `merge_sampled`, which takes their outside samples as an argument.
    #[verifier::loop_isolation(false)]
    pub fn merge(&mut self, force: &ForceField)
        requires
            old(self).wf(),
            force.wf(),
            force.self_contained(),
            cells_within(old(self).field@, i64::MAX as int - strength_abs(*force)),
        ensures
            final(self).wf(),
            same_config(*final(self), *old(self)),
            final(self).field@.len() == old(self).field@.len(),
            forall|k: int|
                0 <= k < final(self).field@.len() ==> (#[trigger] final(self).field@[k]).x as int
                    == old(self).field@[k].x as int + force_vec(
                    *force,
                    k / (old(self).rows as int),
                    k % (old(self).rows as int),
                    0,
                ).0 && final(self).field@[k].y as int == old(self).field@[k].y as int + force_vec(
                    *force,
                    k / (old(self).rows as int),
                    k % (old(self).rows as int),
                    0,
                ).1,
            cells_of(final(self).field@) == apply_force(
                cells_of(old(self).field@),
                *force,
                const_samples(old(self).field@.len(), 0),
                old(self).rows as int,
            ),
    {
        let cols: usize = self.cols;
        let rows: usize = self.rows;
        let mut i: usize = 0;
        while i < cols
            invariant
                i <= cols,
                same_config(*self, *old(self)),
                self.field@.len() == old(self).field@.len(),
                forall|k: int|
                    0 <= k < (i as int) * (rows as int) ==> (#[trigger] self.field@[k]).x as int
                        == old(self).field@[k].x as int + force_vec(
                        *force,
                        k / (rows as int),
                        k % (rows as int),
                        0,
                    ).0 && self.field@[k].y as int == old(self).field@[k].y as int + force_vec(
                        *force,
                        k / (rows as int),
                        k % (rows as int),
                        0,
                    ).1,
                forall|k: int|
                    (i as int) * (rows as int) <= k < self.field@.len() ==> (#[trigger] self
                        .field@[k]) == old(self).field@[k],
            decreases cols - i,
        {
            let mut j: usize = 0;
            while j < rows
                invariant
                    i < cols,
                    j <= rows,
                    same_config(*self, *old(self)),
                    self.field@.len() == old(self).field@.len(),
                    forall|k: int|
                        0 <= k < (i as int) * (rows as int) + (j as int) ==> (#[trigger] self
                            .field@[k]).x as int == old(self).field@[k].x as int + force_vec(
                            *force,
                            k / (rows as int),
                            k % (rows as int),
                            0,
                        ).0 && self.field@[k].y as int == old(self).field@[k].y as int + force_vec(
                            *force,
                            k / (rows as int),
                            k % (rows as int),
                            0,
                        ).1,
                    forall|k: int|
                        (i as int) * (rows as int) + (j as int) <= k < self.field@.len() ==> (
                        #[trigger] self.field@[k]) == old(self).field@[k],
                decreases rows - j,
            {
                proof {
                    assert((i as int) * (rows as int) + (j as int) < (cols as int) * (
                    rows as int
                    )) by (nonlinear_arith)
                        requires
                            0 <= (i as int) < (cols as int),
                            0 <= (j as int) < (rows as int),
                    ;
                    assert(0 <= (i as int) * (rows as int) + (j as int) <= 2000000000int)
                        by (nonlinear_arith)
                        requires
                            0 <= (i as int) <= 32768,
                            0 <= (j as int) <= 32768,
                            0 <= (rows as int) <= 32768,
                    ;
                }
                let v = force.get(i, j, 0);
                let idx: usize = i * rows + j;
                let c = self.field[idx];
                proof {
                    lemma_fundamental_div_mod_converse(idx as int, rows as int, i as int, j as int);
                }
                self.field.set(idx, Vec2i { x: c.x + v.x, y: c.y + v.y });
                j += 1;
            }
            proof {
                assert(((i as int) + 1) * (rows as int) == (i as int) * (rows as int) + (
                rows as int
                )) by (nonlinear_arith);
            }
            i += 1;
        }
        proof {
            assert(cells_of(self.field@) =~= apply_force(
                cells_of(old(self).field@),
                *force,
                const_samples(old(self).field@.len(), 0),
                old(self).rows as int,
            ));
        }
    }

    /// Accumulate a force field whose vectors depend on outside samples
    /// (Perlin noise values, random angle draws): `samples` holds one
    /// sample per cell, row-major like the store, and cell `(i, j)` gains
    /// the field's vector for `samples[i * rows + j]`. This is exact for
    /// every sample vector; producing one that matches the outside
    /// provider is the caller's part.
    #[verifier::loop_isolation(false)]
    pub fn merge_sampled(&mut self, force: &ForceField, samples: &Vec<i64>)
        requires
            old(self).wf(),
            force.wf(),
            samples@.len() == old(self).field@.len(),
            forall|k: int|
                0 <= k < samples@.len() ==> force.sample_ok((#[trigger] samples@[k]) as int),
            cells_within(old(self).field@, i64::MAX as int - strength_abs(*force)),
        ensures
            final(self).wf(),
            same_config(*final(self), *old(self)),
            final(self).field@.len() == old(self).field@.len(),
            forall|k: int|
                0 <= k < final(self).field@.len() ==> (#[trigger] final(self).field@[k]).x as int
                    == old(self).field@[k].x as int + force_vec(
                    *force,
                    k / (old(self).rows as int),
                    k % (old(self).rows as int),
                    samples@[k] as int,
                ).0 && final(self).field@[k].y as int == old(self).field@[k].y as int + force_vec(
                    *force,
                    k / (old(self).rows as int),
                    k % (old(self).rows as int),
                    samples@[k] as int,
                ).1,
            cells_of(final(self).field@) == apply_force(
                cells_of(old(self).field@),
                *force,
                int_samples(samples@),
                old(self).rows as int,
            ),
    {
        let cols: usize = self.cols;
        let rows: usize = self.rows;
        let mut i: usize = 0;
        while i < cols
            invariant
                i <= cols,
                same_config(*self, *old(self)),
                self.field@.len() == old(self).field@.len(),
                forall|k: int|
                    0 <= k < (i as int) * (rows as int) ==> (#[trigger] self.field@[k]).x as int
                        == old(self).field@[k].x as int + force_vec(
                        *force,
                        k / (rows as int),
                        k % (rows as int),
                        samples@[k] as int,
                    ).0 && self.field@[k].y as int == old(self).field@[k].y as int + force_vec(
                        *force,
                        k / (rows as int),
                        k % (rows as int),
                        samples@[k] as int,
                    ).1,
                forall|k: int|
                    (i as int) * (rows as int) <= k < self.field@.len() ==> (#[trigger] self
                        .field@[k]) == old(self).field@[k],
            decreases cols - i,
        {
            let mut j: usize = 0;
            while j < rows
                invariant
                    i < cols,
                    j <= rows,
                    same_config(*self, *old(self)),
                    self.field@.len() == old(self).field@.len(),
                    forall|k: int|
                        0 <= k < (i as int) * (rows as int) + (j as int) ==> (#[trigger] self
                            .field@[k]).x as int == old(self).field@[k].x as int + force_vec(
                            *force,
                            k / (rows as int),
                            k % (rows as int),
                            samples@[k] as int,
                        ).0 && self.field@[k].y as int == old(self).field@[k].y as int + force_vec(
                            *force,
                            k / (rows as int),
                            k % (rows as int),
                            samples@[k] as int,
                        ).1,
                    forall|k: int|
                        (i as int) * (rows as int) + (j as int) <= k < self.field@.len() ==> (
                        #[trigger] self.field@[k]) == old(self).field@[k],
                decreases rows - j,
            {
                proof {
                    assert((i as int) * (rows as int) + (j as int) < (cols as int) * (
                    rows as int
                    )) by (nonlinear_arith)
                        requires
                            0 <= (i as int) < (cols as int),
                            0 <= (j as int) < (rows as int),
                    ;
                    assert(0 <= (i as int) * (rows as int) + (j as int) <= 2000000000int)
                        by (nonlinear_arith)
                        requires
                            0 <= (i as int) <= 32768,
                            0 <= (j as int) <= 32768,
                            0 <= (rows as int) <= 32768,
                    ;
                }
                let idx: usize = i * rows + j;
                let s: i64 = samples[idx];
                let v = force.get(i, j, s);
                let c = self.field[idx];
                proof {
                    lemma_fundamental_div_mod_converse(idx as int, rows as int, i as int, j as int);
                }
                self.field.set(idx, Vec2i { x: c.x + v.x, y: c.y + v.y });
                j += 1;
            }
            proof {
                assert(((i as int) + 1) * (rows as int) == (i as int) * (rows as int) + (
                rows as int
                )) by (nonlinear_arith);
            }
            i += 1;
        }
        proof {
            assert(cells_of(self.field@) =~= apply_force(
                cells_of(old(self).field@),
                *force,
                int_samples(samples@),
                old(self).rows as int,
            ));
        }
    }

    /// A new grid for a resized canvas, keeping this grid's resolution and
    /// padding factor and touching nothing of the receiver: the result is
    /// exactly what fresh construction with `(width, height)` would give,
    /// whatever this grid holds.
    pub fn reset(&self, width: i64, height: i64) -> (r: Result<FlowField, FieldError>)
        requires
            self.wf(),
            -MAX_DIM <= width <= MAX_DIM,
            -MAX_DIM <= height <= MAX_DIM,
            (0 <= width && 0 <= height) ==> axis_cells(
                width as int,
                self.extend as int,
                self.resolution as int,
            ) <= MAX_AXIS as int && axis_cells(
                height as int,
                self.extend as int,
                self.resolution as int,
            ) <= MAX_AXIS as int,
        ensures
            r is Ok <==> (0 <= width && 0 <= height),
            r is Err ==> r == Err::<FlowField, FieldError>(FieldError::InvalidDimension),
            r is Ok ==> is_fresh(
                r->Ok_0,
                width as int,
                height as int,
                self.resolution as int,
                self.extend as int,
            ),
    {
        FlowField::new(width, height, self.resolution, self.extend)
    }
}

impl FlowField {
    /// The derived bounds of a well-formed grid are modest: the domain
    /// edges sit within a thousand times the largest canvas dimension.
    pub proof fn lemma_origin_bounds(&self)
        requires
            self.wf(),
        ensures
            -1000000000000 <= self.left <= 0,
            -1000000000000 <= self.top <= 0,
            0 <= self.right <= 1001000000000000,
            0 <= self.bottom <= 1001000000000000,
    {
        assert(0 <= (self.width as int) * (self.extend as int) <= 1000000000000000int)
            by (nonlinear_arith)
            requires
                0 <= (self.width as int) <= 1000000000,
                0 <= (self.extend as int) <= 1000000,
        ;
        assert(0 <= (self.height as int) * (self.extend as int) <= 1000000000000000int)
            by (nonlinear_arith)
            requires
                0 <= (self.height as int) <= 1000000000,
                0 <= (self.extend as int) <= 1000000,
        ;
        assert(0 <= (self.width as int) * ((SCALE as int) + (self.extend as int))
            <= 1001000000000000int) by (nonlinear_arith)
            requires
                0 <= (self.width as int) <= 1000000000,
                0 <= (self.extend as int) <= 1000000,
        ;
        assert(0 <= (self.height as int) * ((SCALE as int) + (self.extend as int))
            <= 1001000000000000int) by (nonlinear_arith)
            requires
                0 <= (self.height as int) <= 1000000000,
                0 <= (self.extend as int) <= 1000000,
        ;
        lemma_div_pos_is_pos((self.width as int) * (self.extend as int), SCALE as int);
        lemma_div_pos_is_pos((self.height as int) * (self.extend as int), SCALE as int);
        lemma_div_nonincreasing((self.width as int) * (self.extend as int), SCALE as int);
        lemma_div_nonincreasing((self.height as int) * (self.extend as int), SCALE as int);
        lemma_div_pos_is_pos(
            (self.width as int) * ((SCALE as int) + (self.extend as int)),
            SCALE as int,
        );
        lemma_div_pos_is_pos(
            (self.height as int) * ((SCALE as int) + (self.extend as int)),
            SCALE as int,
        );
        lemma_div_nonincreasing(
            (self.width as int) * ((SCALE as int) + (self.extend as int)),
            SCALE as int,
        );
        lemma_div_nonincreasing(
            (self.height as int) * ((SCALE as int) + (self.extend as int)),
            SCALE as int,
        );
    }

    /// Map a world-space point to grid indices. Out-of-domain points are
    /// clamped, never rejected: the result is always a valid index.
    pub fn index_at(&self, point: [i64; 2]) -> (idx: [usize; 2])
        requires
            self.wf(),
            self.cols >= 1,
            self.rows >= 1,
            -MAX_COORD <= point[0] <= MAX_COORD,
            -MAX_COORD <= point[1] <= MAX_COORD,
        ensures
            idx[0] as int == self.index_x_spec(point[0] as int),
            idx[1] as int == self.index_y_spec(point[1] as int),
            idx[0] < self.cols,
            idx[1] < self.rows,
    {
        proof {
            self.lemma_origin_bounds();
        }
        let nx: i64 = point[0] - self.left;
        let ny: i64 = point[1] - self.top;
        let ix: usize = if nx < 0 {
            proof {
                lemma_neg_div_neg(nx as int, self.resolution as int);
            }
            0
        } else {
            let q: i64 = udiv_i64(nx, self.resolution);
            if q >= self.cols as i64 {
                self.cols - 1
            } else {
                q as usize
            }
        };
        let iy: usize = if ny < 0 {
            proof {
                lemma_neg_div_neg(ny as int, self.resolution as int);
            }
            0
        } else {
            let q: i64 = udiv_i64(ny, self.resolution);
            if q >= self.rows as i64 {
                self.rows - 1
            } else {
                q as usize
            }
        };
        [ix, iy]
    }

    /// The accumulated vector at the cell a world point falls in; a copy,
    /// never a reference into the store.
    pub fn force_at(&self, point: [i64; 2]) -> (v: Vec2i)
        requires
            self.wf(),
            self.cols >= 1,
            self.rows >= 1,
            -MAX_COORD <= point[0] <= MAX_COORD,
            -MAX_COORD <= point[1] <= MAX_COORD,
        ensures
            v == self.cell_spec(
                self.index_x_spec(point[0] as int),
                self.index_y_spec(point[1] as int),
            ),
    {
        let idx = self.index_at(point);
        proof {
            assert((idx[0] as int) * (self.rows as int) + (idx[1] as int) < (self.cols as int) * (
            self.rows as int
            )) by (nonlinear_arith)
                requires
                    0 <= (idx[0] as int) < (self.cols as int),
                    0 <= (idx[1] as int) < (self.rows as int),
            ;
            assert(0 <= (idx[0] as int) * (self.rows as int) + (idx[1] as int) <= 2000000000int)
                by (nonlinear_arith)
                requires
                    0 <= (idx[0] as int) <= 32768,
                    0 <= (idx[1] as int) <= 32768,
                    0 <= (self.rows as int) <= 32768,
            ;
        }
        self.field[idx[0] * self.rows + idx[1]]
    }

    /// Where cell `(i, j)`'s arrow starts and ends in world space, before
    /// any remapping: `(start_x, start_y, end_x, end_y)`. The arrow runs
    /// from the cell's world origin to the origin displaced by the cell's
    /// vector scaled by the resolution.
    pub open spec fn seg_raw(&self, i: int, j: int) -> (int, int, int, int) {
        let sx = i * (self.resolution as int) + self.left as int;
        let sy = j * (self.resolution as int) + self.top as int;
        (
            sx,
            sy,
            sx + div_trunc((self.cell_spec(i, j).x as int) * (self.resolution as int), SCALE as int),
            sy + div_trunc((self.cell_spec(i, j).y as int) * (self.resolution as int), SCALE as int),
        )
    }

    /// An x-coordinate remapped linearly from the padded extent
    /// `[left, right]` onto the visible `[0, width]`.
    pub open spec fn map_x_spec(&self, v: int) -> int {
        div_trunc(
            (v - self.left as int) * (self.width as int),
            self.right as int - self.left as int,
        )
    }

    /// A y-coordinate remapped linearly from the padded extent
    /// `[top, bottom]` onto the visible `[0, height]`.
    pub open spec fn map_y_spec(&self, v: int) -> int {
        div_trunc(
            (v - self.top as int) * (self.height as int),
            self.bottom as int - self.top as int,
        )
    }

    /// The arrow a rendering pass draws for cell `(i, j)`: the raw
    /// world-space segment, with both endpoints remapped into the visible
    /// canvas when the whole padded field is shown compressed (`complete`).
    pub open spec fn seg_spec(&self, complete: bool, i: int, j: int) -> (int, int, int, int) {
        let r = self.seg_raw(i, j);
        if complete {
            (self.map_x_spec(r.0), self.map_y_spec(r.1), self.map_x_spec(r.2), self.map_y_spec(r.3))
        } else {
            r
        }
    }

    /// The first column a rendering pass visits.
    pub open spec fn display_i0(&self, complete: bool) -> int {
        if complete {
            0
        } else {
            self.index_x_spec(0)
        }
    }

    /// One past the last column a rendering pass visits.
    pub open spec fn display_i1(&self, complete: bool) -> int {
        if complete {
            self.cols as int
        } else {
            self.index_x_spec(self.width as int)
        }
    }

    /// The first row a rendering pass visits.
    pub open spec fn display_j0(&self, complete: bool) -> int {
        if complete {
            0
        } else {
            self.index_y_spec(0)
        }
    }

    /// One past the last row a rendering pass visits.
    pub open spec fn display_j1(&self, complete: bool) -> int {
        if complete {
            self.rows as int
        } else {
            self.index_y_spec(self.height as int)
        }
    }

    /// The padded extent spans at least the visible canvas on each axis.
    pub proof fn lemma_span_at_least_dim(&self)
        requires
            self.wf(),
        ensures
            self.right as int - self.left as int >= self.width as int,
            self.bottom as int - self.top as int >= self.height as int,
    {
        self.lemma_origin_bounds();
        assert((self.width as int) * ((SCALE as int) + (self.extend as int)) >= (self.width as int)
            * (SCALE as int)) by (nonlinear_arith)
            requires
                0 <= (self.width as int),
                0 <= (self.extend as int),
        ;
        assert((self.height as int) * ((SCALE as int) + (self.extend as int)) >= (
        self.height as int
        ) * (SCALE as int)) by (nonlinear_arith)
            requires
                0 <= (self.height as int),
                0 <= (self.extend as int),
        ;
        lemma_div_is_ordered(
            (self.width as int) * (SCALE as int),
            (self.width as int) * ((SCALE as int) + (self.extend as int)),
            SCALE as int,
        );
        lemma_div_is_ordered(
            (self.height as int) * (SCALE as int),
            (self.height as int) * ((SCALE as int) + (self.extend as int)),
            SCALE as int,
        );
        lemma_div_by_multiple(self.width as int, SCALE as int);
        lemma_div_by_multiple(self.height as int, SCALE as int);
    }

    /// Remap one x-coordinate into the visible canvas.
    fn map_x(&self, v: i64) -> (r: i64)
        requires
            self.wf(),
            self.width >= 1,
            -2000000000000000000 <= v <= 2000000000000000000,
        ensures
            r as int == self.map_x_spec(v as int),
            -2100000000000000000 <= r <= 2100000000000000000,
    {
        proof {
            self.lemma_origin_bounds();
            self.lemma_span_at_least_dim();
            let dv = (v as int) - (self.left as int);
            let adv = iabs(dv);
            assert(adv == dv || adv == -dv);
            assert(-(adv * ((self.right as int) - (self.left as int))) <= dv * (self.width as int)
                <= adv * ((self.right as int) - (self.left as int))) by (nonlinear_arith)
                requires
                    adv == dv || adv == -dv,
                    0 <= adv,
                    1 <= (self.width as int) <= (self.right as int) - (self.left as int),
            ;
            assert(-(2100000000000000000000000000int) <= dv * (self.width as int)
                <= 2100000000000000000000000000int) by (nonlinear_arith)
                requires
                    -2100000000000000000 <= dv <= 2100000000000000000,
                    0 <= (self.width as int) <= 1000000000,
            ;
            lemma_div_trunc_bound(
                dv * (self.width as int),
                (self.right as int) - (self.left as int),
                adv,
            );
        }
        let den: i64 = self.right - self.left;
        let num: i128 = ((v - self.left) as i128) * (self.width as i128);
        let q: i128 = div_trunc_i128(num, den as i128);
        q as i64
    }

    /// Remap one y-coordinate into the visible canvas.
    fn map_y(&self, v: i64) -> (r: i64)
        requires
            self.wf(),
            self.height >= 1,
            -2000000000000000000 <= v <= 2000000000000000000,
        ensures
            r as int == self.map_y_spec(v as int),
            -2100000000000000000 <= r <= 2100000000000000000,
    {
        proof {
            self.lemma_origin_bounds();
            self.lemma_span_at_least_dim();
            let dv = (v as int) - (self.top as int);
            let adv = iabs(dv);
            assert(adv == dv || adv == -dv);
            assert(-(adv * ((self.bottom as int) - (self.top as int))) <= dv * (self.height as int)
                <= adv * ((self.bottom as int) - (self.top as int))) by (nonlinear_arith)
                requires
                    adv == dv || adv == -dv,
                    0 <= adv,
                    1 <= (self.height as int) <= (self.bottom as int) - (self.top as int),
            ;
            assert(-(2100000000000000000000000000int) <= dv * (self.height as int)
                <= 2100000000000000000000000000int) by (nonlinear_arith)
                requires
                    -2100000000000000000 <= dv <= 2100000000000000000,
                    0 <= (self.height as int) <= 1000000000,
            ;
            lemma_div_trunc_bound(
                dv * (self.height as int),
                (self.bottom as int) - (self.top as int),
                adv,
            );
        }
        let den: i64 = self.bottom - self.top;
        let num: i128 = ((v - self.top) as i128) * (self.height as i128);
        let q: i128 = div_trunc_i128(num, den as i128);
        q as i64
    }

    /// The full extended grid range, `[[0, 0], [cols, rows]]`.
    pub fn bounds(&self) -> (b: [[usize; 2]; 2])
        ensures
            b[0][0] == 0,
            b[0][1] == 0,
            b[1][0] == self.cols,
            b[1][1] == self.rows,
    {
        [[0, 0], [self.cols, self.rows]]
    }

    /// The index range covering exactly the unpadded visible canvas: its
    /// corners are the indices of the world points `(0, 0)` and
    /// `(width, height)`.
    pub fn visible_bounds(&self) -> (b: [[usize; 2]; 2])
        requires
            self.wf(),
            self.cols >= 1,
            self.rows >= 1,
        ensures
            b[0][0] as int == self.index_x_spec(0),
            b[0][1] as int == self.index_y_spec(0),
            b[1][0] as int == self.index_x_spec(self.width as int),
            b[1][1] as int == self.index_y_spec(self.height as int),
            b[0][0] < self.cols,
            b[0][1] < self.rows,
            b[1][0] < self.cols,
            b[1][1] < self.rows,
    {
        let idx1 = self.index_at([0, 0]);
        let idx2 = self.index_at([self.width, self.height]);
        [idx1, idx2]
    }

    /// The index range a rendering pass iterates: the whole padded grid
    /// when `complete`, else only the visible canvas.
    pub fn displayable_bounds(&self, complete: bool) -> (b: [[usize; 2]; 2])
        requires
            self.wf(),
            self.cols >= 1,
            self.rows >= 1,
        ensures
            complete ==> b[0][0] == 0 && b[0][1] == 0 && b[1][0] == self.cols && b[1][1]
                == self.rows,
            !complete ==> b[0][0] as int == self.index_x_spec(0) && b[0][1] as int
                == self.index_y_spec(0) && b[1][0] as int == self.index_x_spec(self.width as int)
                && b[1][1] as int == self.index_y_spec(self.height as int),
            b[1][0] <= self.cols,
            b[1][1] <= self.rows,
    {
        if complete {
            self.bounds()
        } else {
            self.visible_bounds()
        }
    }

    /// The arrows a rendering pass draws, one per cell of the chosen range,
    /// row-major: from each cell's world origin to the origin displaced by
    /// the cell vector scaled by the resolution. When `complete`, both
    /// endpoints are remapped so the whole padded field fits the visible
    /// canvas. Drawing the segments, the endpoint markers and the color is
    /// the renderer's part.
    #[verifier::loop_isolation(false)]
    pub fn display(&self, complete: bool) -> (segs: Vec<Segment>)
        requires
            self.wf(),
            self.cols >= 1,
            self.rows >= 1,
            complete ==> self.width >= 1 && self.height >= 1,
            cells_within(self.field@, MAX_CELL as int),
        ensures
            segs@.len() == seg_count(
                self.display_i0(complete),
                self.display_i1(complete),
                self.display_j0(complete),
                self.display_j1(complete),
            ),
            forall|i: int, j: int|
                self.display_i0(complete) <= i < self.display_i1(complete) && self.display_j0(
                    complete,
                ) <= j < self.display_j1(complete) ==> #[trigger] seg_matches(
                    segs@,
                    *self,
                    complete,
                    self.display_i0(complete),
                    self.display_j0(complete),
                    self.display_j1(complete) - self.display_j0(complete),
                    i,
                    j,
                ),
    {
        let b = self.displayable_bounds(complete);
        let i0: usize = b[0][0];
        let j0: usize = b[0][1];
        let i1: usize = b[1][0];
        let j1: usize = b[1][1];
        let mut segs: Vec<Segment> = Vec::new();
        if i1 <= i0 || j1 <= j0 {
            return segs;
        }
        let span: usize = j1 - j0;
        let mut i: usize = i0;
        while i < i1
            invariant
                i0 <= i <= i1,
                segs@.len() == (i - i0) * (span as int),
                forall|ii: int, jj: int|
                    i0 <= ii < i && j0 <= jj < j1 ==> #[trigger] seg_matches(
                        segs@,
                        *self,
                        complete,
                        i0 as int,
                        j0 as int,
                        span as int,
                        ii,
                        jj,
                    ),
            decreases i1 - i,
        {
            let mut j: usize = j0;
            while j < j1
                invariant
                    i0 <= i < i1,
                    j0 <= j <= j1,
                    segs@.len() == (i - i0) * (span as int) + (j - j0),
                    forall|ii: int, jj: int|
                        i0 <= ii < i && j0 <= jj < j1 ==> #[trigger] seg_matches(
                            segs@,
                            *self,
                            complete,
                            i0 as int,
                            j0 as int,
                            span as int,
                            ii,
                            jj,
                        ),
                    forall|jj: int|
                        j0 <= jj < j ==> #[trigger] seg_matches(
                            segs@,
                            *self,
                            complete,
                            i0 as int,
                            j0 as int,
                            span as int,
                            i as int,
                            jj,
                        ),
                decreases j1 - j,
            {
                proof {
                    assert((i as int) * (self.rows as int) + (j as int) < (self.cols as int) * (
                    self.rows as int
                    )) by (nonlinear_arith)
                        requires
                            0 <= (i as int) < (self.cols as int),
                            0 <= (j as int) < (self.rows as int),
                    ;
                    assert(0 <= (i as int) * (self.rows as int) + (j as int) <= 2000000000int)
                        by (nonlinear_arith)
                        requires
                            0 <= (i as int) <= 32768,
                            0 <= (j as int) <= 32768,
                            0 <= (self.rows as int) <= 32768,
                    ;
                    assert(0 <= (i as int) * (self.resolution as int) <= 32768000000000int)
                        by (nonlinear_arith)
                        requires
                            0 <= (i as int) <= 32768,
                            0 < (self.resolution as int) <= 1000000000,
                    ;
                    assert(0 <= (j as int) * (self.resolution as int) <= 32768000000000int)
                        by (nonlinear_arith)
                        requires
                            0 <= (j as int) <= 32768,
                            0 < (self.resolution as int) <= 1000000000,
                    ;
                    self.lemma_origin_bounds();
                }
                let idx: usize = i * self.rows + j;
                let cell = self.field[idx];
                proof {
                    assert(-(1000000000000int * 1000000000) <= (cell.x as int) * (
                    self.resolution as int
                    ) <= 1000000000000int * 1000000000) by (nonlinear_arith)
                        requires
                            -1000000000000 <= (cell.x as int) <= 1000000000000,
                            0 <= (self.resolution as int) <= 1000000000,
                    ;
                    lemma_div_trunc_bound(
                        (cell.x as int) * (self.resolution as int),
                        SCALE as int,
                        1000000000000000000int,
                    );
                    assert(-(1000000000000int * 1000000000) <= (cell.y as int) * (
                    self.resolution as int
                    ) <= 1000000000000int * 1000000000) by (nonlinear_arith)
                        requires
                            -1000000000000 <= (cell.y as int) <= 1000000000000,
                            0 <= (self.resolution as int) <= 1000000000,
                    ;
                    lemma_div_trunc_bound(
                        (cell.y as int) * (self.resolution as int),
                        SCALE as int,
                        1000000000000000000int,
                    );
                }
                let sx: i64 = (i as i64) * self.resolution + self.left;
                let sy: i64 = (j as i64) * self.resolution + self.top;
                let ox: i128 = div_trunc_i128(
                    (cell.x as i128) * (self.resolution as i128),
                    SCALE as i128,
                );
                let oy: i128 = div_trunc_i128(
                    (cell.y as i128) * (self.resolution as i128),
                    SCALE as i128,
                );
                let ex: i64 = sx + (ox as i64);
                let ey: i64 = sy + (oy as i64);
                let seg: Segment = if complete {
                    Segment {
                        start: Vec2i { x: self.map_x(sx), y: self.map_y(sy) },
                        end: Vec2i { x: self.map_x(ex), y: self.map_y(ey) },
                    }
                } else {
                    Segment { start: Vec2i { x: sx, y: sy }, end: Vec2i { x: ex, y: ey } }
                };
                let ghost prev = segs@;
                segs.push(seg);
                proof {
                    assert forall|ii: int, jj: int|
                        i0 <= ii < i && j0 <= jj < j1 implies seg_matches(
                        segs@,
                        *self,
                        complete,
                        i0 as int,
                        j0 as int,
                        span as int,
                        ii,
                        jj,
                    ) by {
                        assert(seg_matches(
                            prev,
                            *self,
                            complete,
                            i0 as int,
                            j0 as int,
                            span as int,
                            ii,
                            jj,
                        ));
                        assert(0 <= (ii - i0 as int) * (span as int) + (jj - j0 as int)
                            < ((i as int) - (i0 as int)) * (span as int)) by (nonlinear_arith)
                            requires
                                i0 as int <= ii < i as int,
                                j0 as int <= jj < j1 as int,
                                span as int == j1 as int - j0 as int,
                        ;
                    }
                    assert forall|jj: int| j0 <= jj <= j implies seg_matches(
                        segs@,
                        *self,
                        complete,
                        i0 as int,
                        j0 as int,
                        span as int,
                        i as int,
                        jj,
                    ) by {
                        if jj < j {
                            assert(seg_matches(
                                prev,
                                *self,
                                complete,
                                i0 as int,
                                j0 as int,
                                span as int,
                                i as int,
                                jj,
                            ));
                            assert(0 <= ((i as int) - (i0 as int)) * (span as int));
                        } else {
                            assert(((i as int) - (i0 as int)) * (span as int) + ((j as int) - (
                            j0 as int
                            )) == prev.len());
                        }
                    }
                }
                j += 1;
            }
            proof {
                assert(((i as int) + 1 - (i0 as int)) * (span as int) == ((i as int) - (
                i0 as int
                )) * (span as int) + (span as int)) by (nonlinear_arith);
            }
            i += 1;
        }
        segs
    }
}

/// Merging accumulates and commutes: applying field `A` and then field `B`
/// (each with its per-cell samples) leaves every cell holding its old value
/// plus the elementwise sum of the two fields' vectors there — the same
/// cells as applying `B` first and then `A`.
pub proof fn lemma_merge_commutes(
    s: Seq<(int, int)>,
    f1: ForceField,
    s1: Seq<int>,
    f2: ForceField,
    s2: Seq<int>,
    rows: int,
)
    requires
        s1.len() == s.len(),
        s2.len() == s.len(),
    ensures
        apply_force(apply_force(s, f1, s1, rows), f2, s2, rows) == apply_force(
            apply_force(s, f2, s2, rows),
            f1,
            s1,
            rows,
        ),
        forall|k: int|
            0 <= k < s.len() ==> (#[trigger] apply_force(
                apply_force(s, f1, s1, rows),
                f2,
                s2,
                rows,
            )[k]).0 == s[k].0 + force_vec(f1, k / rows, k % rows, s1[k]).0 + force_vec(
                f2,
                k / rows,
                k % rows,
                s2[k],
            ).0 && apply_force(apply_force(s, f1, s1, rows), f2, s2, rows)[k].1 == s[k].1
                + force_vec(f1, k / rows, k % rows, s1[k]).1 + force_vec(
                f2,
                k / rows,
                k % rows,
                s2[k],
            ).1,
{
    assert(apply_force(apply_force(s, f1, s1, rows), f2, s2, rows) =~= apply_force(
        apply_force(s, f2, s2, rows),
        f1,
        s1,
        rows,
    ));
}

/// Clamping makes the index map saturate along an axis: a coordinate at or
/// beyond the grid's outer edge falls in the same cell as the edge itself
/// (the last cell), and one at or before the origin falls in the same cell
/// as the origin (cell zero). So a point far outside the padded domain gets
/// the index of its projection onto the domain's boundary.
pub proof fn lemma_index_saturates(origin: int, resolution: int, cells: int, p: int)
    requires
        0 < resolution,
        1 <= cells,
    ensures
        p >= origin + cells * resolution ==> clamped_index(origin, resolution, cells, p)
            == clamped_index(origin, resolution, cells, origin + cells * resolution)
            && clamped_index(origin, resolution, cells, p) == cells - 1,
        p <= origin ==> clamped_index(origin, resolution, cells, p) == clamped_index(
            origin,
            resolution,
            cells,
            origin,
        ) && clamped_index(origin, resolution, cells, p) == 0,
{
    if p >= origin + cells * resolution {
        lemma_div_by_multiple(cells, resolution);
        lemma_div_is_ordered(cells * resolution, p - origin, resolution);
    }
    if p <= origin {
        lemma_div_of0(resolution);
        if p < origin {
            lemma_neg_div_neg(p - origin, resolution);
        }
    }
}

/// The grid form of index saturation, for both axes at once: a point at or
/// beyond the outer corner of the grid maps to the grid's last cell, just
/// as the corner itself does.
pub proof fn lemma_grid_index_saturates(g: FlowField, px: int, py: int)
    requires
        g.wf(),
        g.cols >= 1,
        g.rows >= 1,
        px >= g.left as int + (g.cols as int) * (g.resolution as int),
        py >= g.top as int + (g.rows as int) * (g.resolution as int),
    ensures
        g.index_x_spec(px) == g.cols as int - 1,
        g.index_y_spec(py) == g.rows as int - 1,
        g.index_x_spec(px) == g.index_x_spec(
            g.left as int + (g.cols as int) * (g.resolution as int),
        ),
        g.index_y_spec(py) == g.index_y_spec(
            g.top as int + (g.rows as int) * (g.resolution as int),
        ),
{
    lemma_index_saturates(g.left as int, g.resolution as int, g.cols as int, px);
    lemma_index_saturates(g.top as int, g.resolution as int, g.rows as int, py);
}

/// A zeroed grid reads zero: whatever point is queried, the cell
/// `force_at` looks up holds the zero vector.
pub proof fn lemma_zeroed_reads_zero(g: FlowField, px: int, py: int)
    requires
        g.wf(),
        g.cols >= 1,
        g.rows >= 1,
        forall|k: int|
            0 <= k < g.field@.len() ==> (#[trigger] g.field@[k]) == (Vec2i { x: 0, y: 0 }),
    ensures
        g.cell_spec(g.index_x_spec(px), g.index_y_spec(py)) == (Vec2i { x: 0, y: 0 }),
{
    let ix = g.index_x_spec(px);
    let jy = g.index_y_spec(py);
    assert(0 <= ix < g.cols as int);
    assert(0 <= jy < g.rows as int);
    assert(0 <= ix * (g.rows as int) + jy < (g.cols as int) * (g.rows as int))
        by (nonlinear_arith)
        requires
            0 <= ix < (g.cols as int),
            0 <= jy < (g.rows as int),
    ;
}

impl Seedable for FlowField {
    open spec fn spec_seed(&self) -> u32 {
        self.seed
    }

    fn set_seed(&mut self, seed: u32)
        ensures
            final(self).seed == seed,
            final(self).cols == old(self).cols,
            final(self).rows == old(self).rows,
            final(self).resolution == old(self).resolution,
            final(self).extend == old(self).extend,
            final(self).width == old(self).width,
            final(self).height == old(self).height,
            final(self).left == old(self).left,
            final(self).right == old(self).right,
            final(self).top == old(self).top,
            final(self).bottom == old(self).bottom,
            final(self).field == old(self).field,
            old(self).wf() ==> final(self).wf(),
    {
        self.seed = seed;
    }

    fn seed(&self) -> (s: u32) {
        self.seed
    }
}

} // verus!
