//! Chromatic tensor representation and deterministic whole-tensor
//! operations.

use vstd::prelude::*;

use vstd::arithmetic::div_mod::{
    lemma_div_by_multiple, lemma_div_is_ordered, lemma_div_pos_is_pos,
};

use crate::color::unit_in_range;
use crate::layout::{spec_clamp_unit, Shape2D, Stride2D};
use crate::quant::{fixed_one, spec_clamp_q, spec_requantize, FixedAccumulator};
use crate::Qx;

verus! {

/// True when every value of the buffer lies in the unit interval.
pub open spec fn values_unit(s: Seq<Qx>) -> bool {
    forall|i: int| 0 <= i < s.len() ==> unit_in_range(#[trigger] s[i] as int)
}

/// RGB chromatic tensor with optional per-cell coherence metadata.
#[derive(Clone, Debug)]
#[verifier::ext_equal]
pub struct ChromaticTensor {
    pub shape: Shape2D,
    pub stride: Stride2D,
    pub rgb: Vec<Qx>,
    pub coh: Option<Vec<Qx>>,
}

impl ChromaticTensor {
    /// Buffer lengths match the layout and every value is in range.
    pub open spec fn wf(self) -> bool {
        &&& self.shape.wf()
        &&& self.stride.col == 3
        &&& self.stride.row == 3 * self.shape.w
        &&& self.rgb@.len() == 3 * self.shape.spec_cell_count()
        &&& values_unit(self.rgb@)
        &&& match self.coh {
            Some(c) => c@.len() == self.shape.spec_cell_count() && values_unit(c@),
            None => true,
        }
    }

    /// Creates a chromatic tensor from buffers that match the layout.
    pub fn new(shape: Shape2D, rgb: Vec<Qx>, coh: Option<Vec<Qx>>) -> (t: Self)
        requires
            shape.wf(),
            rgb@.len() == 3 * shape.spec_cell_count(),
            values_unit(rgb@),
            match coh {
                Some(c) => c@.len() == shape.spec_cell_count() && values_unit(c@),
                None => true,
            },
        ensures
            t.wf(),
            t.shape == shape,
            t.rgb == rgb,
            t.coh == coh,
    {
        let stride = Stride2D::new(shape);
        Self { shape, stride, rgb, coh }
    }

    /// Returns an exact copy of the tensor.
    pub fn duplicate(&self) -> (t: Self)
        ensures
            t.shape == self.shape,
            t.stride == self.stride,
            t.rgb@ == self.rgb@,
            t.coh is Some <==> self.coh is Some,
            t.coh is Some ==> t.coh->0@ == self.coh->0@,
            self.wf() ==> t.wf(),
    {
        let coh = match &self.coh {
            Some(c) => Some(clone_values(c)),
            None => None,
        };
        Self { shape: self.shape, stride: self.stride, rgb: clone_values(&self.rgb), coh }
    }

    /// Returns the RGB triplet at the specified coordinates.
    pub fn rgb_at(&self, row: usize, col: usize) -> (rgb: [Qx; 3])
        requires
            self.wf(),
            row < self.shape.h,
            col < self.shape.w,
        ensures
            rgb[0] == self.rgb@[3 * crate::layout::spec_cell_index(self.shape, row as int, col as int)],
            rgb[1] == self.rgb@[3 * crate::layout::spec_cell_index(self.shape, row as int, col as int) + 1],
            rgb[2] == self.rgb@[3 * crate::layout::spec_cell_index(self.shape, row as int, col as int) + 2],
    {
        let offset = crate::layout::base_offset(self.shape, row, col);
        [self.rgb[offset], self.rgb[offset + 1], self.rgb[offset + 2]]
    }

    /// Writes an RGB triplet at the specified coordinates.
    pub fn set_rgb(&mut self, row: usize, col: usize, values: [Qx; 3])
        requires
            old(self).wf(),
            row < old(self).shape.h,
            col < old(self).shape.w,
            unit_in_range(values[0] as int),
            unit_in_range(values[1] as int),
            unit_in_range(values[2] as int),
        ensures
            final(self).wf(),
            final(self).shape == old(self).shape,
            final(self).stride == old(self).stride,
            final(self).coh == old(self).coh,
            final(self).rgb@ == old(self).rgb@.update(
                3 * crate::layout::spec_cell_index(old(self).shape, row as int, col as int),
                values[0],
            ).update(
                3 * crate::layout::spec_cell_index(old(self).shape, row as int, col as int) + 1,
                values[1],
            ).update(
                3 * crate::layout::spec_cell_index(old(self).shape, row as int, col as int) + 2,
                values[2],
            ),
    {
        let offset = crate::layout::base_offset(self.shape, row, col);
        self.rgb.set(offset, values[0]);
        self.rgb.set(offset + 1, values[1]);
        self.rgb.set(offset + 2, values[2]);
    }
}

/// Copies a buffer of scalars value for value.
fn clone_values(v: &Vec<Qx>) -> (r: Vec<Qx>)
    ensures
        r@ == v@,
{
    let mut r: Vec<Qx> = Vec::new();
    let mut i: usize = 0;
    while i < v.len()
        invariant
            i <= v.len(),
            r@ == v@.subrange(0, i as int),
        decreases v.len() - i,
    {
        r.push(v[i]);
        i += 1;
    }
    proof {
        assert(v@.subrange(0, v@.len() as int) =~= v@);
    }
    r
}

/// Linear blend of two unit scalars with a unit coefficient.
pub open spec fn spec_mix(a: int, b: int, alpha: int) -> int {
    (alpha * a + (fixed_one() - alpha) * b) / fixed_one()
}

/// A blend of unit values by a unit coefficient stays in the unit interval.
pub proof fn lemma_mix_unit(a: int, b: int, alpha: int)
    requires
        unit_in_range(a),
        unit_in_range(b),
        unit_in_range(alpha),
    ensures
        unit_in_range(spec_mix(a, b, alpha)),
{
    let u = fixed_one();
    assert(0 <= alpha * a + (u - alpha) * b <= u * u) by (nonlinear_arith)
        requires
            0 <= a <= u,
            0 <= b <= u,
            0 <= alpha <= u,
    ;
    lemma_div_pos_is_pos(alpha * a + (u - alpha) * b, u);
    lemma_div_is_ordered(alpha * a + (u - alpha) * b, u * u, u);
    lemma_div_by_multiple(u, u);
}

/// Performs a deterministic linear blend between two chromatic tensors.
pub fn mix_rgb(out: &mut ChromaticTensor, a: &ChromaticTensor, b: &ChromaticTensor, alpha: Qx)
    requires
        old(out).wf(),
        a.wf(),
        b.wf(),
        a.shape == old(out).shape,
        b.shape == old(out).shape,
    ensures
        final(out).wf(),
        final(out).shape == old(out).shape,
        final(out).stride == old(out).stride,
        final(out).coh == old(out).coh,
        final(out).rgb@.len() == old(out).rgb@.len(),
        forall|i: int|
            0 <= i < final(out).rgb@.len() ==> #[trigger] final(out).rgb@[i] as int == spec_mix(
                a.rgb@[i] as int,
                b.rgb@[i] as int,
                spec_clamp_unit(alpha as int),
            ),
{
    let clamped_alpha = crate::layout::clamp_unit(alpha);
    let unit = crate::quant::DEFAULT_FIXED_SCALE as i64;
    let inv_alpha = unit - clamped_alpha as i64;
    let n = out.rgb.len();
    let mut result: Vec<Qx> = Vec::new();
    let mut i: usize = 0;
    while i < n
        invariant
            i <= n,
            n == a.rgb@.len() == b.rgb@.len(),
            a.wf(),
            b.wf(),
            clamped_alpha == spec_clamp_unit(alpha as int),
            unit_in_range(clamped_alpha as int),
            unit == fixed_one(),
            inv_alpha == fixed_one() - clamped_alpha,
            result@.len() == i,
            forall|j: int|
                0 <= j < i ==> #[trigger] result@[j] as int == spec_mix(
                    a.rgb@[j] as int,
                    b.rgb@[j] as int,
                    clamped_alpha as int,
                ) && unit_in_range(result@[j] as int),
        decreases n - i,
    {
        proof {
            lemma_mix_unit(a.rgb@[i as int] as int, b.rgb@[i as int] as int, clamped_alpha as int);
        }
        let v = ((clamped_alpha as i64) * (a.rgb[i] as i64) + inv_alpha * (b.rgb[i] as i64)) / unit;
        result.push(v as Qx);
        i += 1;
    }
    out.rgb = result;
}

/// Adds two tensors with clamping to the unit interval.
pub fn add_rgb(out: &mut ChromaticTensor, a: &ChromaticTensor, b: &ChromaticTensor)
    requires
        old(out).wf(),
        a.wf(),
        b.wf(),
        a.shape == old(out).shape,
        b.shape == old(out).shape,
    ensures
        final(out).wf(),
        final(out).shape == old(out).shape,
        final(out).stride == old(out).stride,
        final(out).coh == old(out).coh,
        final(out).rgb@.len() == old(out).rgb@.len(),
        forall|i: int|
            0 <= i < final(out).rgb@.len() ==> #[trigger] final(out).rgb@[i] as int
                == spec_clamp_unit(a.rgb@[i] + b.rgb@[i]),
{
    let n = out.rgb.len();
    let mut result: Vec<Qx> = Vec::new();
    let mut i: usize = 0;
    while i < n
        invariant
            i <= n,
            n == a.rgb@.len() == b.rgb@.len(),
            a.wf(),
            b.wf(),
            result@.len() == i,
            forall|j: int|
                0 <= j < i ==> #[trigger] result@[j] as int == spec_clamp_unit(
                    a.rgb@[j] + b.rgb@[j],
                ) && unit_in_range(result@[j] as int),
        decreases n - i,
    {
        let v = crate::layout::clamp_unit(a.rgb[i] + b.rgb[i]);
        result.push(v);
        i += 1;
    }
    out.rgb = result;
}

/// Injects values from `inj` into `base` according to a per-cell mask,
/// writing the result to `out`.
pub fn mask_inject(
    out: &mut ChromaticTensor,
    base: &ChromaticTensor,
    inj: &ChromaticTensor,
    mask: &Vec<Qx>,
)
    requires
        old(out).wf(),
        base.wf(),
        inj.wf(),
        base.shape == old(out).shape,
        inj.shape == old(out).shape,
        mask@.len() == old(out).shape.spec_cell_count(),
    ensures
        final(out).wf(),
        final(out).shape == old(out).shape,
        final(out).stride == old(out).stride,
        final(out).coh == old(out).coh,
        final(out).rgb@.len() == old(out).rgb@.len(),
        forall|i: int|
            0 <= i < final(out).rgb@.len() ==> #[trigger] final(out).rgb@[i] as int == spec_mix(
                inj.rgb@[i] as int,
                base.rgb@[i] as int,
                spec_clamp_unit(mask@[i / 3] as int),
            ),
{
    let n = out.rgb.len();
    let unit = crate::quant::DEFAULT_FIXED_SCALE as i64;
    let mut result: Vec<Qx> = Vec::new();
    let mut i: usize = 0;
    while i < n
        invariant
            i <= n,
            n == base.rgb@.len() == inj.rgb@.len(),
            n == 3 * old(out).shape.spec_cell_count(),
            mask@.len() == old(out).shape.spec_cell_count(),
            base.wf(),
            inj.wf(),
            unit == fixed_one(),
            result@.len() == i,
            forall|j: int|
                0 <= j < i ==> #[trigger] result@[j] as int == spec_mix(
                    inj.rgb@[j] as int,
                    base.rgb@[j] as int,
                    spec_clamp_unit(mask@[j / 3] as int),
                ) && unit_in_range(result@[j] as int),
        decreases n - i,
    {
        let cell = i / 3;
        proof {
            lemma_div_pos_is_pos(i as int, 3);
            lemma_div_is_ordered(i as int, n - 1, 3);
            lemma_div_by_multiple(old(out).shape.spec_cell_count() - 1, 3);
            assert((3 * old(out).shape.spec_cell_count() - 1) / 3
                == (old(out).shape.spec_cell_count() - 1) * 3 / 3);
        }
        let m = crate::layout::clamp_unit(mask[cell]);
        proof {
            lemma_mix_unit(inj.rgb@[i as int] as int, base.rgb@[i as int] as int, m as int);
        }
        let v = ((m as i64) * (inj.rgb[i] as i64) + (unit - m as i64) * (base.rgb[i] as i64))
            / unit;
        result.push(v as Qx);
        i += 1;
    }
    out.rgb = result;
}

/// Sum of one channel over the first `n` cells of an interleaved buffer.
pub open spec fn channel_sum(rgb: Seq<Qx>, ch: int, n: int) -> int
    decreases n,
{
    if n <= 0 {
        0
    } else {
        channel_sum(rgb, ch, n - 1) + rgb[3 * (n - 1) + ch]
    }
}

/// A channel sum over unit values is bounded by the cell count.
pub proof fn lemma_channel_sum_bound(rgb: Seq<Qx>, ch: int, n: int)
    requires
        values_unit(rgb),
        0 <= ch < 3,
        0 <= n,
        3 * n <= rgb.len(),
    ensures
        0 <= channel_sum(rgb, ch, n) <= n * fixed_one(),
    decreases n,
{
    if n > 0 {
        lemma_channel_sum_bound(rgb, ch, n - 1);
        assert((n - 1) * fixed_one() + fixed_one() == n * fixed_one()) by (nonlinear_arith);
    }
}

/// Computes the deterministic mean RGB triplet.
pub fn mean_rgb(t: &ChromaticTensor) -> (mean: [Qx; 3])
    requires
        t.wf(),
    ensures
        forall|ch: int|
            0 <= ch < 3 ==> #[trigger] mean[ch] as int == channel_sum(
                t.rgb@,
                ch,
                t.shape.spec_cell_count(),
            ) / t.shape.spec_cell_count(),
        forall|ch: int| 0 <= ch < 3 ==> unit_in_range(#[trigger] mean[ch] as int),
{
    let cells = t.shape.cell_count();
    let mut sum0: i64 = 0;
    let mut sum1: i64 = 0;
    let mut sum2: i64 = 0;
    let mut k: usize = 0;
    while k < cells
        invariant
            k <= cells,
            t.wf(),
            cells == t.shape.spec_cell_count(),
            sum0 == channel_sum(t.rgb@, 0, k as int),
            sum1 == channel_sum(t.rgb@, 1, k as int),
            sum2 == channel_sum(t.rgb@, 2, k as int),
            0 <= sum0 <= k * fixed_one(),
            0 <= sum1 <= k * fixed_one(),
            0 <= sum2 <= k * fixed_one(),
        decreases cells - k,
    {
        proof {
            assert(k * fixed_one() + fixed_one() == (k + 1) * fixed_one()) by (nonlinear_arith);
            assert(k as int * fixed_one() <= 0x100_0000 * fixed_one()) by (nonlinear_arith)
                requires
                    0 <= k as int <= 0x100_0000,
            ;
        }
        let off = k * 3;
        sum0 = sum0 + t.rgb[off] as i64;
        sum1 = sum1 + t.rgb[off + 1] as i64;
        sum2 = sum2 + t.rgb[off + 2] as i64;
        k += 1;
    }
    proof {
        lemma_mean_in_unit(sum0 as int, cells as int);
        lemma_mean_in_unit(sum1 as int, cells as int);
        lemma_mean_in_unit(sum2 as int, cells as int);
    }
    [
        (sum0 / cells as i64) as Qx,
        (sum1 / cells as i64) as Qx,
        (sum2 / cells as i64) as Qx,
    ]
}

/// A sum of at most `n` unit values divided by `n` is a unit value.
pub proof fn lemma_mean_in_unit(sum: int, n: int)
    requires
        0 < n,
        0 <= sum <= n * fixed_one(),
    ensures
        unit_in_range(sum / n),
{
    lemma_div_pos_is_pos(sum, n);
    lemma_div_is_ordered(sum, n * fixed_one(), n);
    lemma_div_by_multiple(fixed_one(), n);
    assert(n * fixed_one() == fixed_one() * n) by (nonlinear_arith);
}

/// Sum of one channel over the first `n` cells, each value requantized to
/// the accumulation scale.
pub open spec fn channel_qsum(rgb: Seq<Qx>, ch: int, n: int, scale: int) -> int
    decreases n,
{
    if n <= 0 {
        0
    } else {
        channel_qsum(rgb, ch, n - 1, scale) + spec_clamp_q(
            spec_requantize(rgb[3 * (n - 1) + ch] as int, scale),
        )
    }
}

/// Performs a fixed-point deterministic reduction over the RGB channels.
pub fn sum_fixed_rgb(t: &ChromaticTensor, scale: i32) -> (sums: [Qx; 3])
    requires
        t.wf(),
        scale > 0,
    ensures
        forall|ch: int|
            0 <= ch < 3 ==> #[trigger] sums[ch] as int == spec_clamp_q(
                channel_qsum(t.rgb@, ch, t.shape.spec_cell_count(), scale as int),
            ),
{
    let cells = t.shape.cell_count();
    let mut acc0 = FixedAccumulator::new(scale);
    let mut acc1 = FixedAccumulator::new(scale);
    let mut acc2 = FixedAccumulator::new(scale);
    let mut k: usize = 0;
    while k < cells
        invariant
            k <= cells,
            t.wf(),
            scale > 0,
            cells == t.shape.spec_cell_count(),
            acc0.wf() && acc1.wf() && acc2.wf(),
            acc0.spec_scale() == scale && acc1.spec_scale() == scale && acc2.spec_scale()
                == scale,
            acc0.spec_sum() == channel_qsum(t.rgb@, 0, k as int, scale as int),
            acc1.spec_sum() == channel_qsum(t.rgb@, 1, k as int, scale as int),
            acc2.spec_sum() == channel_qsum(t.rgb@, 2, k as int, scale as int),
            -(k as int) * 0x8000_0000 <= acc0.spec_sum() <= k as int * 0x8000_0000,
            -(k as int) * 0x8000_0000 <= acc1.spec_sum() <= k as int * 0x8000_0000,
            -(k as int) * 0x8000_0000 <= acc2.spec_sum() <= k as int * 0x8000_0000,
        decreases cells - k,
    {
        proof {
            assert(k as int * 0x8000_0000 + 0x8000_0000 == (k + 1) * 0x8000_0000)
                by (nonlinear_arith);
            assert(k as int * 0x8000_0000 <= 0x100_0000 * 0x8000_0000) by (nonlinear_arith)
                requires
                    0 <= k as int <= 0x100_0000,
            ;
        }
        let off = k * 3;
        acc0.accumulate(t.rgb[off]);
        acc1.accumulate(t.rgb[off + 1]);
        acc2.accumulate(t.rgb[off + 2]);
        k += 1;
    }
    [acc0.finish_quantized(), acc1.finish_quantized(), acc2.finish_quantized()]
}


/// True when `r` is the unit-clamped image of `x` under a mapping: some
/// return value the mapping may produce on `x` clamps to `r`.
pub open spec fn maps_to<F: Fn(Qx) -> Qx>(f: F, x: Qx, r: Qx) -> bool {
    exists|y: Qx| #[trigger] f.ensures((x,), y) && r as int == spec_clamp_unit(y as int)
}

/// Applies a mapping to every RGB channel of the tensor in place; each
/// mapped value is clamped to the unit interval, so the tensor stays well
/// formed whatever the mapping returns.
pub fn map_rgb_inplace<F: Fn(Qx) -> Qx>(t: &mut ChromaticTensor, f: F)
    requires
        old(t).wf(),
        forall|v: Qx| unit_in_range(v as int) ==> #[trigger] f.requires((v,)),
    ensures
        final(t).wf(),
        final(t).shape == old(t).shape,
        final(t).stride == old(t).stride,
        final(t).coh == old(t).coh,
        final(t).rgb@.len() == old(t).rgb@.len(),
        forall|i: int|
            0 <= i < final(t).rgb@.len() ==> #[trigger] maps_to(
                f,
                old(t).rgb@[i],
                final(t).rgb@[i],
            ),
{
    let n = t.rgb.len();
    let mut result: Vec<Qx> = Vec::new();
    let mut i: usize = 0;
    while i < n
        invariant
            i <= n,
            t.wf(),
            t == old(t),
            n == t.rgb@.len(),
            forall|v: Qx| unit_in_range(v as int) ==> #[trigger] f.requires((v,)),
            result@.len() == i,
            forall|j: int| 0 <= j < i ==> #[trigger] maps_to(f, t.rgb@[j], result@[j]),
            values_unit(result@),
        decreases n - i,
    {
        let v = t.rgb[i];
        let y = f(v);
        let c = crate::layout::clamp_unit(y);
        result.push(c);
        proof {
            assert(f.ensures((t.rgb@[i as int],), y) && result@[i as int] as int
                == spec_clamp_unit(y as int));
            assert(maps_to(f, t.rgb@[i as int], result@[i as int]));
        }
        i += 1;
    }
    t.rgb = result;
}

} // verus!
