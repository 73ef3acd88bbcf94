//! Unified Modality Space: a fixed-length cross-modal embedding vector with
//! spectral, chromatic and temporal bands, its projection and
//! reconstruction, and its lossy half-precision compression.

use vstd::prelude::*;

use vstd::arithmetic::div_mod::{
    lemma_div_by_multiple, lemma_div_is_ordered, lemma_div_pos_is_pos,
};

use crate::bridge::{enc_cnt_sum, NEUTRAL_SIGMA};
use crate::color::{hue_in_range, unit_in_range};
use crate::layout::spec_clamp_unit;
use crate::quant::{
    fixed_one, spec_clamp_q, spec_tdiv, tdiv64, DEFAULT_FIXED_SCALE,
};
use crate::spectral::{energy_sum, qabs, SpectralTensor, SPECTRAL_VALUE_MAX};
use crate::tensor::ChromaticTensor;
use crate::{Qx, HUE_CATEGORIES, UMS_CHROMATIC_OFFSET, UMS_DIM, UMS_TEMPORAL_OFFSET};

verus! {

/// Number of slots holding spectral amplitudes.
pub const SPECTRAL_AMPLITUDE_BANDS: usize = 128;

/// First slot of the spectral bandwidth band.
pub const SPECTRAL_SIGMA_OFFSET: usize = SPECTRAL_AMPLITUDE_BANDS;

/// Sum of a contiguous slice of values.
pub open spec fn range_sum(s: Seq<Qx>, a: int, b: int) -> int
    decreases b - a,
{
    if b <= a {
        0
    } else {
        range_sum(s, a, b - 1) + s[b - 1]
    }
}

/// A range sum over bounded values is bounded by its width.
pub proof fn lemma_range_sum_bound(s: Seq<Qx>, a: int, b: int, bound: int)
    requires
        0 <= a <= b <= s.len(),
        0 <= bound,
        forall|i: int| 0 <= i < s.len() ==> -bound <= #[trigger] s[i] <= bound,
    ensures
        -((b - a) * bound) <= range_sum(s, a, b) <= (b - a) * bound,
    decreases b - a,
{
    if b <= a {
        assert((b - a) * bound == 0) by (nonlinear_arith)
            requires
                b - a == 0,
        ;
    } else {
        lemma_range_sum_bound(s, a, b - 1, bound);
        assert((b - 1 - a) * bound + bound == (b - a) * bound) by (nonlinear_arith);
    }
}

/// A truncating quotient of a bounded value by its width stays bounded.
pub proof fn lemma_tdiv_bound(a: int, d: int, bound: int)
    requires
        d > 0,
        0 <= bound,
        -(d * bound) <= a <= d * bound,
    ensures
        -bound <= spec_tdiv(a, d) <= bound,
{
    if a >= 0 {
        lemma_div_pos_is_pos(a, d);
        lemma_div_is_ordered(a, d * bound, d);
        lemma_div_by_multiple(bound, d);
        assert(d * bound == bound * d) by (nonlinear_arith);
    } else {
        lemma_div_pos_is_pos(-a, d);
        lemma_div_is_ordered(-a, d * bound, d);
        lemma_div_by_multiple(bound, d);
        assert(d * bound == bound * d) by (nonlinear_arith);
    }
}

/// First source index of projection bucket `i` when squeezing `len` bins
/// into the amplitude band.
pub open spec fn bucket_start(len: int, i: int) -> int {
    i * len / 128
}

/// One-past-last source index of projection bucket `i`, guarded to be
/// non-empty and in range.
pub open spec fn bucket_end(len: int, i: int) -> int {
    let e0 = (i + 1) * len / 128;
    let e1 = if e0 > len {
        len
    } else {
        e0
    };
    let lo0 = bucket_start(len, i) + 1;
    let lo = if lo0 > len {
        len
    } else {
        lo0
    };
    if e1 < lo {
        lo
    } else {
        e1
    }
}

/// Projection buckets are non-empty, ordered and in range.
pub proof fn lemma_bucket_range(len: int, i: int)
    requires
        128 < len,
        0 <= i < 128,
    ensures
        0 <= bucket_start(len, i),
        bucket_start(len, i) < bucket_end(len, i),
        bucket_end(len, i) <= len,
{
    lemma_div_pos_is_pos(i * len, 128);
    assert(i * len < 128 * len) by (nonlinear_arith)
        requires
            0 <= i < 128,
            len > 0,
    ;
    vstd::arithmetic::div_mod::lemma_multiply_divide_lt(i * len, 128, len);
}

/// Amplitude slot `i` of the projection of a spectrum.
pub open spec fn spec_ums_amp(bins: Seq<Qx>, i: int) -> int {
    let len = bins.len() as int;
    if len <= 128 {
        if i < len {
            bins[i] as int
        } else {
            0
        }
    } else {
        let s = bucket_start(len, i);
        let e = bucket_end(len, i);
        spec_tdiv(range_sum(bins, s, e), e - s)
    }
}

/// Bandwidth slot `i` of the projection of a spectrum.
pub open spec fn spec_ums_sig(sigma: Option<Seq<Qx>>, len: int, i: int) -> int {
    match sigma {
        Some(sg) => {
            if len <= 128 {
                if i < len {
                    sg[i] as int
                } else {
                    NEUTRAL_SIGMA as int
                }
            } else {
                let s = bucket_start(len, i);
                let e = bucket_end(len, i);
                spec_tdiv(range_sum(sg, s, e), e - s)
            }
        },
        None => NEUTRAL_SIGMA as int,
    }
}

/// Chromatic slot `j` of the projection of a grid: the normalized hue
/// histogram, then the circular-mean embedding pair, then the mean
/// saturation and lightness, then zeros.
pub open spec fn spec_ums_chrom(rgb: Seq<Qx>, n: int, j: int) -> int {
    if j < HUE_CATEGORIES {
        enc_cnt_sum(rgb, j, n) / n
    } else if j == HUE_CATEGORIES {
        crate::color::spec_hue_embed_x(crate::bridge::spec_mean_h(rgb, n))
    } else if j == HUE_CATEGORIES + 1 {
        crate::color::spec_hue_embed_y(crate::bridge::spec_mean_h(rgb, n))
    } else if j == HUE_CATEGORIES + 2 {
        spec_clamp_unit(crate::bridge::spec_mean_s(rgb, n))
    } else if j == HUE_CATEGORIES + 3 {
        spec_clamp_unit(crate::bridge::spec_mean_l(rgb, n))
    } else {
        0
    }
}

/// Unified Modality Space vector storing spectral, chromatic and temporal
/// features.
#[derive(Clone, Debug)]
pub struct UnifiedModalitySpace {
    data: Vec<Qx>,
}

impl UnifiedModalitySpace {
    /// The stored slots.
    pub closed spec fn spec_data(self) -> Seq<Qx> {
        self.data@
    }

    /// The vector always holds its full dimensionality.
    pub open spec fn wf(self) -> bool {
        self.spec_data().len() == UMS_DIM
    }

    /// Creates a zero-initialised vector.
    pub fn new() -> (u: Self)
        ensures
            u.wf(),
            forall|i: int| 0 <= i < UMS_DIM ==> #[trigger] u.spec_data()[i] == 0,
    {
        let mut data: Vec<Qx> = Vec::new();
        let mut i: usize = 0;
        while i < UMS_DIM
            invariant
                i <= UMS_DIM,
                data@.len() == i,
                forall|j: int| 0 <= j < i ==> #[trigger] data@[j] == 0,
            decreases UMS_DIM - i,
        {
            data.push(0);
            i += 1;
        }
        Self { data }
    }

    /// Creates a vector from an explicit buffer of all slots.
    pub fn from_array(data: Vec<Qx>) -> (u: Self)
        requires
            data@.len() == UMS_DIM,
        ensures
            u.wf(),
            u.spec_data() == data@,
    {
        Self { data }
    }

    /// Returns the raw slots backing the vector.
    pub fn as_slice(&self) -> (r: &Vec<Qx>)
        ensures
            r@ == self.spec_data(),
    {
        &self.data
    }

    /// Reads one slot.
    pub fn get(&self, idx: usize) -> (v: Qx)
        requires
            self.wf(),
            idx < UMS_DIM,
        ensures
            v == self.spec_data()[idx as int],
    {
        self.data[idx]
    }

    /// Writes one slot; the in-place counterpart of the raw slot access.
    pub fn set_slot(&mut self, idx: usize, v: Qx)
        requires
            old(self).wf(),
            idx < UMS_DIM,
        ensures
            final(self).wf(),
            final(self).spec_data() == old(self).spec_data().update(idx as int, v),
    {
        self.data.set(idx, v);
    }

    /// Returns a copy of the spectral amplitude band.
    pub fn spectral_amplitudes(&self) -> (r: Vec<Qx>)
        requires
            self.wf(),
        ensures
            r@ == self.spec_data().subrange(0, SPECTRAL_AMPLITUDE_BANDS as int),
    {
        copy_range(&self.data, 0, SPECTRAL_AMPLITUDE_BANDS)
    }

    /// Returns a copy of the spectral bandwidth band.
    pub fn spectral_bandwidths(&self) -> (r: Vec<Qx>)
        requires
            self.wf(),
        ensures
            r@ == self.spec_data().subrange(
                SPECTRAL_SIGMA_OFFSET as int,
                SPECTRAL_SIGMA_OFFSET as int + SPECTRAL_AMPLITUDE_BANDS as int,
            ),
    {
        copy_range(&self.data, SPECTRAL_SIGMA_OFFSET, SPECTRAL_SIGMA_OFFSET
            + SPECTRAL_AMPLITUDE_BANDS)
    }

    /// Returns a copy of the hue histogram slots of the chromatic band.
    pub fn chromatic_histogram(&self) -> (r: Vec<Qx>)
        requires
            self.wf(),
        ensures
            r@ == self.spec_data().subrange(
                UMS_CHROMATIC_OFFSET as int,
                UMS_CHROMATIC_OFFSET as int + HUE_CATEGORIES as int,
            ),
    {
        copy_range(&self.data, UMS_CHROMATIC_OFFSET, UMS_CHROMATIC_OFFSET + HUE_CATEGORIES)
    }

    /// Returns a copy of the entire chromatic band.
    pub fn chromatic_slice(&self) -> (r: Vec<Qx>)
        requires
            self.wf(),
        ensures
            r@ == self.spec_data().subrange(
                UMS_CHROMATIC_OFFSET as int,
                UMS_TEMPORAL_OFFSET as int,
            ),
    {
        copy_range(&self.data, UMS_CHROMATIC_OFFSET, UMS_TEMPORAL_OFFSET)
    }

    /// Returns the fixed dimensionality of the vector.
    pub fn len(&self) -> (n: usize)
        requires
            self.wf(),
        ensures
            n == UMS_DIM,
    {
        self.data.len()
    }
}

impl Default for UnifiedModalitySpace {
    /// The zero vector.
    fn default() -> (u: Self)
        ensures
            u.wf(),
            forall|i: int| 0 <= i < UMS_DIM ==> #[trigger] u.spec_data()[i] == 0,
    {
        Self::new()
    }
}

/// Copies a contiguous range of slots.
fn copy_range(v: &Vec<Qx>, a: usize, b: usize) -> (r: Vec<Qx>)
    requires
        a <= b <= v@.len(),
    ensures
        r@ == v@.subrange(a as int, b as int),
{
    let mut r: Vec<Qx> = Vec::new();
    let mut i: usize = a;
    while i < b
        invariant
            a <= i <= b <= v@.len(),
            r@ == v@.subrange(a as int, i as int),
        decreases b - i,
    {
        r.push(v[i]);
        proof {
            assert(v@.subrange(a as int, i + 1).drop_last() =~= v@.subrange(a as int, i as int));
            assert(r@ =~= v@.subrange(a as int, i + 1));
        }
        i += 1;
    }
    r
}

/// Averages one projection bucket of a buffer.
fn bucket_avg(values: &Vec<Qx>, i: usize) -> (r: Qx)
    requires
        128 < values@.len() <= 0x100_0000,
        i < 128,
        forall|t: int|
            0 <= t < values@.len() ==> -SPECTRAL_VALUE_MAX <= #[trigger] values@[t]
                <= SPECTRAL_VALUE_MAX,
    ensures
        r as int == spec_tdiv(
            range_sum(
                values@,
                bucket_start(values@.len() as int, i as int),
                bucket_end(values@.len() as int, i as int),
            ),
            bucket_end(values@.len() as int, i as int) - bucket_start(
                values@.len() as int,
                i as int,
            ),
        ),
        -SPECTRAL_VALUE_MAX <= r <= SPECTRAL_VALUE_MAX,
{
    let len = values.len();
    proof {
        lemma_bucket_range(len as int, i as int);
        assert((i as int + 1) * len <= 128 * 0x100_0000 && 0 <= i as int * len)
            by (nonlinear_arith)
            requires
                0 <= (i as int) && (i as int) < 128,
                0 <= (len as int) && (len as int) <= 0x100_0000,
        ;
    }
    let start_raw = i * len / 128;
    let end0 = (i + 1) * len / 128;
    let end1 = if end0 > len {
        len
    } else {
        end0
    };
    let lo0 = start_raw + 1;
    let lo = if lo0 > len {
        len
    } else {
        lo0
    };
    let end = if end1 < lo {
        lo
    } else {
        end1
    };
    let mut sum: i64 = 0;
    let mut j: usize = start_raw;
    while j < end
        invariant
            start_raw <= j <= end <= values@.len(),
            values@.len() <= 0x100_0000,
            forall|t: int|
                0 <= t < values@.len() ==> -SPECTRAL_VALUE_MAX <= #[trigger] values@[t]
                    <= SPECTRAL_VALUE_MAX,
            sum == range_sum(values@, start_raw as int, j as int),
            -((j - start_raw) as int * SPECTRAL_VALUE_MAX) <= sum <= (j - start_raw) as int
                * SPECTRAL_VALUE_MAX,
        decreases end - j,
    {
        proof {
            assert((j - start_raw) as int * SPECTRAL_VALUE_MAX + SPECTRAL_VALUE_MAX == ((
            j - start_raw) as int + 1) * SPECTRAL_VALUE_MAX) by (nonlinear_arith);
            assert((j - start_raw) as int * SPECTRAL_VALUE_MAX <= 0x100_0000
                * SPECTRAL_VALUE_MAX) by (nonlinear_arith)
                requires
                    0 <= (j - start_raw) as int <= 0x100_0000,
            ;
        }
        sum = sum + values[j] as i64;
        j += 1;
    }
    proof {
        lemma_tdiv_bound(sum as int, (end - start_raw) as int, SPECTRAL_VALUE_MAX as int);
        assert((end - start_raw) as int * SPECTRAL_VALUE_MAX <= 0x100_0000 * SPECTRAL_VALUE_MAX)
            by (nonlinear_arith)
            requires
                0 <= (end - start_raw) as int <= 0x100_0000,
        ;
    }
    tdiv64(sum, (end - start_raw) as i64) as Qx
}

/// Projects chromatic and spectral tensors into the Unified Modality
/// Space: the spectral bands copy or bucket-average the source spectrum,
/// the chromatic band holds the normalized hue histogram, the circular
/// mean embedding and the mean saturation and lightness, and the temporal
/// band holds the spectrum's total energy saturated to the slot range.
pub fn project_to_ums(chromatic: &ChromaticTensor, spectral: &SpectralTensor) -> (ums:
    UnifiedModalitySpace)
    requires
        chromatic.wf(),
        spectral.wf(),
    ensures
        ums.wf(),
        forall|i: int|
            0 <= i < 128 ==> #[trigger] ums.spec_data()[i] as int == spec_ums_amp(
                spectral.bins@,
                i,
            ),
        forall|i: int|
            0 <= i < 128 ==> #[trigger] ums.spec_data()[128 + i] as int == spec_ums_sig(
                crate::bridge::sigma_view(spectral.sigma),
                spectral.bins@.len() as int,
                i,
            ),
        forall|j: int|
            0 <= j < 128 ==> #[trigger] ums.spec_data()[256 + j] as int == spec_ums_chrom(
                chromatic.rgb@,
                chromatic.shape.spec_cell_count(),
                j,
            ),
        ums.spec_data()[384] as int == spec_clamp_q(
            energy_sum(spectral.bins@, spectral.bins@.len() as int),
        ),
        forall|i: int| 384 < i < 512 ==> #[trigger] ums.spec_data()[i] == 0,
{
    let mut data: Vec<Qx> = Vec::new();
    let bins = &spectral.bins;
    let n_bins = bins.len();

    // spectral amplitude band
    let mut i: usize = 0;
    while i < 128
        invariant
            i <= 128,
            spectral.wf(),
            bins == &spectral.bins,
            n_bins == spectral.bins@.len(),
            data@.len() == i,
            forall|t: int|
                0 <= t < i ==> #[trigger] data@[t] as int == spec_ums_amp(spectral.bins@, t),
        decreases 128 - i,
    {
        let v: Qx = if n_bins <= 128 {
            if i < n_bins {
                bins[i]
            } else {
                0
            }
        } else {
            proof {
                assert(qabs(spectral.bins@[0] as int) <= SPECTRAL_VALUE_MAX);
                assert forall|t: int|
                    0 <= t < spectral.bins@.len() implies -SPECTRAL_VALUE_MAX
                    <= #[trigger] spectral.bins@[t] <= SPECTRAL_VALUE_MAX by {
                    assert(qabs(spectral.bins@[t] as int) <= SPECTRAL_VALUE_MAX);
                }
            }
            bucket_avg(bins, i)
        };
        data.push(v);
        i += 1;
    }

    // spectral bandwidth band
    let mut i2: usize = 0;
    while i2 < 128
        invariant
            i2 <= 128,
            spectral.wf(),
            bins == &spectral.bins,
            n_bins == spectral.bins@.len(),
            data@.len() == 128 + i2,
            forall|t: int|
                0 <= t < 128 ==> #[trigger] data@[t] as int == spec_ums_amp(spectral.bins@, t),
            forall|t: int|
                0 <= t < i2 ==> #[trigger] data@[128 + t] as int == spec_ums_sig(
                    crate::bridge::sigma_view(spectral.sigma),
                    spectral.bins@.len() as int,
                    t,
                ),
        decreases 128 - i2,
    {
        let v: Qx = match &spectral.sigma {
            Some(sig) => {
                if n_bins <= 128 {
                    if i2 < n_bins {
                        sig[i2]
                    } else {
                        NEUTRAL_SIGMA
                    }
                } else {
                    proof {
                        assert forall|t: int|
                            0 <= t < spectral.sigma->0@.len() implies -SPECTRAL_VALUE_MAX
                            <= #[trigger] spectral.sigma->0@[t] <= SPECTRAL_VALUE_MAX by {}
                    }
                    bucket_avg(sig, i2)
                }
            },
            None => NEUTRAL_SIGMA,
        };
        data.push(v);
        i2 += 1;
    }

    // chromatic band: histogram, circular mean embedding, means
    let cells = chromatic.shape.cell_count();
    let rgb = &chromatic.rgb;
    let mut cnt_acc: Vec<i64> = Vec::new();
    let mut z: usize = 0;
    while z < HUE_CATEGORIES
        invariant
            z <= HUE_CATEGORIES,
            cnt_acc@.len() == z,
            forall|t: int| 0 <= t < z ==> #[trigger] cnt_acc@[t] == 0i64,
        decreases HUE_CATEGORIES - z,
    {
        cnt_acc.push(0);
        z += 1;
    }
    let mut k: usize = 0;
    while k < cells
        invariant
            k <= cells,
            chromatic.wf(),
            rgb == &chromatic.rgb,
            cells == chromatic.shape.spec_cell_count(),
            cnt_acc@.len() == HUE_CATEGORIES,
            forall|t: int|
                0 <= t < HUE_CATEGORIES ==> #[trigger] cnt_acc@[t] as int == enc_cnt_sum(
                    rgb@,
                    t,
                    k as int,
                ) && 0 <= cnt_acc@[t] as int <= k as int * fixed_one(),
        decreases cells - k,
    {
        proof {
            assert(3 * (k as int) + 3 <= 3 * chromatic.shape.spec_cell_count());
            assert(k as int * fixed_one() + fixed_one() == (k as int + 1) * fixed_one())
                by (nonlinear_arith);
            assert(k as int * fixed_one() <= 0x100_0000 * fixed_one()) by (nonlinear_arith)
                requires
                    0 <= k as int <= 0x100_0000,
            ;
        }
        let off = k * 3;
        let (h, _s, _l) = crate::color::rgb_to_hsl(rgb[off], rgb[off + 1], rgb[off + 2]);
        let (idx_a, w_a, idx_b, w_b) = crate::bridge::hue_to_bin_weights(h);
        proof {
            assert(crate::color::spec_normalize_hue(h as int) == h as int) by {
                vstd::arithmetic::div_mod::lemma_small_mod(h as nat, fixed_one() as nat);
            }
            assert(idx_a != idx_b) by {
                if idx_a as int + 1 < HUE_CATEGORIES {
                    vstd::arithmetic::div_mod::lemma_small_mod(
                        (idx_a + 1) as nat,
                        HUE_CATEGORIES as nat,
                    );
                } else {
                    assert(idx_a == 11);
                    assert((11int + 1) % (HUE_CATEGORIES as int) == 0);
                }
            }
        }
        let ghost old_cnt = cnt_acc@;
        let ca = cnt_acc[idx_a] + w_a as i64;
        cnt_acc.set(idx_a, ca);
        let cb = cnt_acc[idx_b] + w_b as i64;
        cnt_acc.set(idx_b, cb);
        proof {
            assert forall|t: int| 0 <= t < HUE_CATEGORIES implies #[trigger] cnt_acc@[t] as int
                == enc_cnt_sum(rgb@, t, k as int + 1) && 0 <= cnt_acc@[t] as int <= (k as int
                + 1) * fixed_one() by {
                assert(crate::bridge::cell_h(rgb@, k as int) == h as int);
                if t == idx_a as int {
                    assert(crate::bridge::cell_bin_w(rgb@, k as int, t) == w_a as int);
                } else if t == idx_b as int {
                    assert(crate::bridge::cell_bin_w(rgb@, k as int, t) == w_b as int);
                } else {
                    assert(crate::bridge::cell_bin_w(rgb@, k as int, t) == 0);
                    assert(cnt_acc@[t] == old_cnt[t]);
                }
            }
        }
        k += 1;
    }

    let mut j: usize = 0;
    while j < HUE_CATEGORIES
        invariant
            j <= HUE_CATEGORIES,
            chromatic.wf(),
            rgb == &chromatic.rgb,
            1 <= cells,
            cells == chromatic.shape.spec_cell_count(),
            cnt_acc@.len() == HUE_CATEGORIES,
            forall|t: int|
                0 <= t < HUE_CATEGORIES ==> #[trigger] cnt_acc@[t] as int == enc_cnt_sum(
                    rgb@,
                    t,
                    cells as int,
                ) && 0 <= cnt_acc@[t] as int <= cells as int * fixed_one(),
            data@.len() == 256 + j,
            forall|t: int|
                0 <= t < 128 ==> #[trigger] data@[t] as int == spec_ums_amp(spectral.bins@, t),
            forall|t: int|
                0 <= t < 128 ==> #[trigger] data@[128 + t] as int == spec_ums_sig(
                    crate::bridge::sigma_view(spectral.sigma),
                    spectral.bins@.len() as int,
                    t,
                ),
            forall|t: int|
                0 <= t < j ==> #[trigger] data@[256 + t] as int == spec_ums_chrom(
                    rgb@,
                    cells as int,
                    t,
                ),
        decreases HUE_CATEGORIES - j,
    {
        proof {
            crate::tensor::lemma_mean_in_unit(cnt_acc@[j as int] as int, cells as int);
        }
        let v = (cnt_acc[j] / cells as i64) as Qx;
        data.push(v);
        j += 1;
    }

    let mean = crate::bridge::mean_hsl(chromatic);
    let (ex, ey) = crate::color::hue_embed(mean.0);
    data.push(ex);
    data.push(ey);
    data.push(crate::layout::clamp_unit(mean.1));
    data.push(crate::layout::clamp_unit(mean.2));
    proof {
        assert forall|t: int| 0 <= t < 16 implies #[trigger] data@[256 + t] as int
            == spec_ums_chrom(rgb@, cells as int, t) by {}
    }

    let mut f: usize = 0;
    while f < 112
        invariant
            f <= 112,
            data@.len() == 272 + f,
            forall|t: int|
                0 <= t < 128 ==> #[trigger] data@[t] as int == spec_ums_amp(spectral.bins@, t),
            forall|t: int|
                0 <= t < 128 ==> #[trigger] data@[128 + t] as int == spec_ums_sig(
                    crate::bridge::sigma_view(spectral.sigma),
                    spectral.bins@.len() as int,
                    t,
                ),
            forall|t: int|
                0 <= t < 16 ==> #[trigger] data@[256 + t] as int == spec_ums_chrom(
                    rgb@,
                    cells as int,
                    t,
                ),
            forall|t: int| 0 <= t < f ==> #[trigger] data@[272 + t] == 0i32,
        decreases 112 - f,
    {
        data.push(0);
        f += 1;
    }
    proof {
        assert forall|t: int| 0 <= t < 128 implies #[trigger] data@[256 + t] as int
            == spec_ums_chrom(rgb@, cells as int, t) by {
            if t >= 16 {
                assert(data@[272 + (t - 16)] == 0i32);
            }
        }
    }

    // temporal band: the saturated total energy, then reserved zeros
    let energy = crate::spectral::spectral_energy(spectral);
    let e_slot: Qx = if energy > i32::MAX as i64 {
        i32::MAX
    } else if energy < i32::MIN as i64 {
        i32::MIN
    } else {
        energy as i32
    };
    data.push(e_slot);
    let mut g: usize = 0;
    while g < 127
        invariant
            g <= 127,
            data@.len() == 385 + g,
            chromatic.wf(),
            rgb == &chromatic.rgb,
            cells == chromatic.shape.spec_cell_count(),
            forall|t: int|
                0 <= t < 128 ==> #[trigger] data@[t] as int == spec_ums_amp(spectral.bins@, t),
            forall|t: int|
                0 <= t < 128 ==> #[trigger] data@[128 + t] as int == spec_ums_sig(
                    crate::bridge::sigma_view(spectral.sigma),
                    spectral.bins@.len() as int,
                    t,
                ),
            forall|t: int|
                0 <= t < 128 ==> #[trigger] data@[256 + t] as int == spec_ums_chrom(
                    rgb@,
                    cells as int,
                    t,
                ),
            data@[384] as int == spec_clamp_q(
                energy_sum(spectral.bins@, spectral.bins@.len() as int),
            ),
            forall|t: int| 0 <= t < g ==> #[trigger] data@[385 + t] == 0i32,
        decreases 127 - g,
    {
        data.push(0);
        g += 1;
    }
    proof {
        assert forall|t: int| 384 < t < 512 implies #[trigger] data@[t] == 0i32 by {
            assert(data@[385 + (t - 385)] == 0i32);
        }
    }
    UnifiedModalitySpace::from_array(data)
}

/// Reconstructs the mean chromatic statistics encoded in the vector: the
/// circular-mean hue from the embedding pair, the saturation and the
/// lightness from their slots.
pub fn reconstruct_chromatic_from_ums(ums: &UnifiedModalitySpace) -> (hsl: (Qx, Qx, Qx))
    requires
        ums.wf(),
    ensures
        hsl.0 as int == {
            let x = ums.spec_data()[256 + HUE_CATEGORIES];
            let y = ums.spec_data()[256 + HUE_CATEGORIES + 1];
            if x == 0 && y == 0 {
                0int
            } else {
                crate::color::spec_hue_unembed(x as int, y as int)
            }
        },
        hsl.1 as int == spec_clamp_unit(ums.spec_data()[256 + HUE_CATEGORIES + 2] as int),
        hsl.2 as int == spec_clamp_unit(ums.spec_data()[256 + HUE_CATEGORIES + 3] as int),
        hue_in_range(hsl.0 as int),
        unit_in_range(hsl.1 as int),
        unit_in_range(hsl.2 as int),
{
    let x = ums.get(256 + HUE_CATEGORIES);
    let y = ums.get(256 + HUE_CATEGORIES + 1);
    let hue: Qx = if x == 0 && y == 0 {
        0
    } else {
        crate::color::hue_unembed(x as i64, y as i64)
    };
    let saturation = crate::layout::clamp_unit(ums.get(256 + HUE_CATEGORIES + 2));
    let luminance = crate::layout::clamp_unit(ums.get(256 + HUE_CATEGORIES + 3));
    (hue, saturation, luminance)
}

/// Projecting a tensor pair and reconstructing the chromatic statistics
/// returns exactly the circular-mean hue, the mean saturation and the
/// mean lightness of the source grid.
pub proof fn lemma_ums_chromatic_roundtrip(rgb: Seq<Qx>, n: int)
    requires
        crate::bridge::spec_mean_s(rgb, n) == spec_clamp_unit(crate::bridge::spec_mean_s(rgb, n)),
        crate::bridge::spec_mean_l(rgb, n) == spec_clamp_unit(crate::bridge::spec_mean_l(rgb, n)),
        hue_in_range(crate::bridge::spec_mean_h(rgb, n)),
    ensures
        ({
            let x = spec_ums_chrom(rgb, n, HUE_CATEGORIES as int);
            let y = spec_ums_chrom(rgb, n, HUE_CATEGORIES as int + 1);
            let h = if x == 0 && y == 0 {
                0int
            } else {
                crate::color::spec_hue_unembed(x, y)
            };
            h == crate::bridge::spec_mean_h(rgb, n)
        }),
        spec_ums_chrom(rgb, n, HUE_CATEGORIES as int + 2) == crate::bridge::spec_mean_s(rgb, n),
        spec_ums_chrom(rgb, n, HUE_CATEGORIES as int + 3) == crate::bridge::spec_mean_l(rgb, n),
{
    let mh = crate::bridge::spec_mean_h(rgb, n);
    let x = crate::color::spec_hue_embed_x(mh);
    let y = crate::color::spec_hue_embed_y(mh);
    crate::color::lemma_hue_embed_roundtrip(mh);
    assert(!(x == 0 && y == 0)) by {
        crate::color::lemma_embed_diamond(mh);
    }
}

/// At native resolution the projection stores the source spectrum
/// verbatim, so reconstruction at the same bin count is exact.
pub proof fn lemma_spectral_native_resolution(bins: Seq<Qx>, sigma: Option<Seq<Qx>>, i: int)
    requires
        bins.len() == 128,
        0 <= i < 128,
        sigma is Some ==> sigma->0.len() == 128,
    ensures
        spec_ums_amp(bins, i) == bins[i] as int,
        sigma is Some ==> spec_ums_sig(sigma, 128, i) == sigma->0[i] as int,
{
}

/// Reconstructs spectral amplitudes and bandwidths from the vector:
/// direct copies at native resolution or below, proportional bucket
/// averages above it.
pub fn reconstruct_spectral_from_ums(ums: &UnifiedModalitySpace, bins: usize) -> (r: (Vec<Qx>,
    Vec<Qx>))
    requires
        ums.wf(),
        bins <= 0x100_0000,
    ensures
        r.0@.len() == bins,
        r.1@.len() == bins,
        bins <= 128 ==> forall|i: int|
            0 <= i < bins ==> #[trigger] r.0@[i] == ums.spec_data()[i],
        bins <= 128 ==> forall|i: int|
            0 <= i < bins ==> #[trigger] r.1@[i] == ums.spec_data()[128 + i],
        bins > 128 ==> forall|i: int|
            0 <= i < bins ==> #[trigger] r.0@[i] as int == spec_tdiv(
                range_sum(
                    ums.spec_data().subrange(0, 128),
                    rec_start(bins as int, i),
                    rec_end(bins as int, i),
                ),
                rec_end(bins as int, i) - rec_start(bins as int, i),
            ),
        bins > 128 ==> forall|i: int|
            0 <= i < bins ==> #[trigger] r.1@[i] as int == spec_tdiv(
                range_sum(
                    ums.spec_data().subrange(128, 256),
                    rec_start(bins as int, i),
                    rec_end(bins as int, i),
                ),
                rec_end(bins as int, i) - rec_start(bins as int, i),
            ),
{
    let amp_src = copy_range(ums.as_slice(), 0, 128);
    let sig_src = copy_range(ums.as_slice(), 128, 256);
    let mut amplitudes: Vec<Qx> = Vec::new();
    let mut sigmas: Vec<Qx> = Vec::new();

    if bins <= 128 {
        let mut i: usize = 0;
        while i < bins
            invariant
                i <= bins <= 128,
                ums.wf(),
                amp_src@ == ums.spec_data().subrange(0, 128),
                sig_src@ == ums.spec_data().subrange(128, 256),
                amplitudes@.len() == i,
                sigmas@.len() == i,
                forall|t: int| 0 <= t < i ==> #[trigger] amplitudes@[t] == ums.spec_data()[t],
                forall|t: int| 0 <= t < i ==> #[trigger] sigmas@[t] == ums.spec_data()[128 + t],
            decreases bins - i,
        {
            proof {
                assert(amp_src@[i as int] == ums.spec_data()[i as int]);
                assert(sig_src@[i as int] == ums.spec_data()[128 + i as int]);
            }
            let ghost amps_old = amplitudes@;
            let ghost sigs_old = sigmas@;
            amplitudes.push(amp_src[i]);
            sigmas.push(sig_src[i]);
            proof {
                assert forall|t: int| 0 <= t < i + 1 implies #[trigger] amplitudes@[t]
                    == ums.spec_data()[t] by {
                    if t < i as int {
                        assert(amplitudes@[t] == amps_old[t]);
                    }
                }
                assert forall|t: int| 0 <= t < i + 1 implies #[trigger] sigmas@[t]
                    == ums.spec_data()[128 + t] by {
                    if t < i as int {
                        assert(sigmas@[t] == sigs_old[t]);
                    }
                }
            }
            i += 1;
        }
        return (amplitudes, sigmas);
    }

    let mut i: usize = 0;
    while i < bins
        invariant
            128 < bins <= 0x100_0000,
            i <= bins,
            ums.wf(),
            amp_src@ == ums.spec_data().subrange(0, 128),
            sig_src@ == ums.spec_data().subrange(128, 256),
            amplitudes@.len() == i,
            sigmas@.len() == i,
            forall|t: int|
                0 <= t < i ==> #[trigger] amplitudes@[t] as int == spec_tdiv(
                    range_sum(amp_src@, rec_start(bins as int, t), rec_end(bins as int, t)),
                    rec_end(bins as int, t) - rec_start(bins as int, t),
                ),
            forall|t: int|
                0 <= t < i ==> #[trigger] sigmas@[t] as int == spec_tdiv(
                    range_sum(sig_src@, rec_start(bins as int, t), rec_end(bins as int, t)),
                    rec_end(bins as int, t) - rec_start(bins as int, t),
                ),
        decreases bins - i,
    {
        let a = rec_bucket_avg(&amp_src, bins, i);
        let s = rec_bucket_avg(&sig_src, bins, i);
        let ghost amps_old = amplitudes@;
        let ghost sigs_old = sigmas@;
        amplitudes.push(a);
        sigmas.push(s);
        proof {
            assert forall|t: int| 0 <= t < i + 1 implies #[trigger] amplitudes@[t] as int
                == spec_tdiv(
                range_sum(amp_src@, rec_start(bins as int, t), rec_end(bins as int, t)),
                rec_end(bins as int, t) - rec_start(bins as int, t),
            ) by {
                if t < i as int {
                    assert(amplitudes@[t] == amps_old[t]);
                }
            }
            assert forall|t: int| 0 <= t < i + 1 implies #[trigger] sigmas@[t] as int
                == spec_tdiv(
                range_sum(sig_src@, rec_start(bins as int, t), rec_end(bins as int, t)),
                rec_end(bins as int, t) - rec_start(bins as int, t),
            ) by {
                if t < i as int {
                    assert(sigmas@[t] == sigs_old[t]);
                }
            }
        }
        i += 1;
    }
    (amplitudes, sigmas)
}

/// First source slot of reconstruction bucket `i` when expanding the
/// amplitude band into `bins` outputs.
pub open spec fn rec_start(bins: int, i: int) -> int {
    let s0 = i * 128 / bins;
    if s0 >= 128 {
        127
    } else {
        s0
    }
}

/// One-past-last source slot of reconstruction bucket `i`, guarded to be
/// non-empty and in range.
pub open spec fn rec_end(bins: int, i: int) -> int {
    let e0 = (i + 1) * 128 / bins;
    let e1 = if e0 > 128 {
        128
    } else {
        e0
    };
    if e1 <= rec_start(bins, i) {
        let lo = rec_start(bins, i) + 1;
        if lo > 128 {
            128
        } else {
            lo
        }
    } else {
        e1
    }
}

/// Reconstruction buckets are non-empty, ordered and in range.
proof fn lemma_rec_bucket_range(bins: int, i: int)
    requires
        128 < bins,
        0 <= i < bins,
    ensures
        0 <= rec_start(bins, i),
        rec_start(bins, i) < rec_end(bins, i),
        rec_end(bins, i) <= 128,
{
    lemma_div_pos_is_pos(i * 128, bins);
    assert(i * 128 < bins * 128) by (nonlinear_arith)
        requires
            0 <= i < bins,
    ;
    vstd::arithmetic::div_mod::lemma_multiply_divide_lt(i * 128, bins, 128);
}

/// Averages one reconstruction bucket of a band copy.
fn rec_bucket_avg(src: &Vec<Qx>, bins: usize, i: usize) -> (r: Qx)
    requires
        src@.len() == 128,
        128 < bins <= 0x100_0000,
        i < bins,
    ensures
        r as int == spec_tdiv(
            range_sum(src@, rec_start(bins as int, i as int), rec_end(bins as int, i as int)),
            rec_end(bins as int, i as int) - rec_start(bins as int, i as int),
        ),
{
    proof {
        lemma_rec_bucket_range(bins as int, i as int);
    }
    let s0 = i * 128 / bins;
    let start = if s0 >= 128 {
        127
    } else {
        s0
    };
    let e0 = (i + 1) * 128 / bins;
    let e1 = if e0 > 128 {
        128
    } else {
        e0
    };
    let end = if e1 <= start {
        let lo = start + 1;
        if lo > 128 {
            128
        } else {
            lo
        }
    } else {
        e1
    };
    let mut sum: i64 = 0;
    let mut j: usize = start;
    while j < end
        invariant
            start <= j <= end <= 128,
            src@.len() == 128,
            sum == range_sum(src@, start as int, j as int),
            -((j - start) as int * 0x8000_0000) <= sum <= (j - start) as int * 0x7fff_ffff,
        decreases end - j,
    {
        proof {
            assert((j - start) as int * 0x8000_0000 + 0x8000_0000 == ((j - start) as int + 1)
                * 0x8000_0000 && (j - start) as int * 0x7fff_ffff + 0x7fff_ffff == ((
            j - start) as int + 1) * 0x7fff_ffff) by (nonlinear_arith);
            assert((j - start) as int * 0x8000_0000 <= 128 * 0x8000_0000 && (j - start) as int
                * 0x7fff_ffff <= 128 * 0x7fff_ffff) by (nonlinear_arith)
                requires
                    0 <= (j - start) as int <= 128,
            ;
        }
        sum = sum + src[j] as i64;
        j += 1;
    }
    proof {
        lemma_tdiv_bound(sum as int, (end - start) as int, 0x8000_0000);
        assert((end - start) as int * 0x8000_0000 <= 128 * 0x8000_0000 && (end - start) as int
            * 0x7fff_ffff <= 128 * 0x7fff_ffff) by (nonlinear_arith)
            requires
                0 <= (end - start) as int <= 128,
        ;
        if sum >= 0 {
            vstd::arithmetic::div_mod::lemma_div_is_ordered(sum as int, (end - start) as int
                * 0x7fff_ffff, (end - start) as int);
            lemma_div_by_multiple(0x7fff_ffff, (end - start) as int);
            assert((end - start) as int * 0x7fff_ffff == 0x7fff_ffff * ((end - start) as int))
                by (nonlinear_arith);
        }
    }
    tdiv64(sum, (end - start) as i64) as Qx
}


/// Magnitude a binary16 code denotes, in units of two to the minus
/// twenty-fourth: exact for every finite code.
pub open spec fn spec_f16_mag24(h: u16) -> int {
    let e = ((h >> 10) & 0x1f) as int;
    let m = (h & 0x3ff) as int;
    if e == 0 {
        m
    } else {
        (0x400 + m) * (vstd::arithmetic::power2::pow2((e - 1) as nat) as int)
    }
}

/// Spacing of the binary16 grid around a code, in the same units.
pub open spec fn spec_f16_ulp24(h: u16) -> int {
    let e = ((h >> 10) & 0x1f) as int;
    if e == 0 {
        1
    } else {
        vstd::arithmetic::power2::pow2((e - 1) as nat) as int
    }
}

/// Sign of a binary16 code: true when negative.
pub open spec fn spec_f16_neg(h: u16) -> bool {
    (h >> 15) & 1 == 1
}

/// Largest z-score magnitude the compressor stores, at unit scale: the
/// largest finite binary16 value.
pub const F16_CLAMP: i64 = 65_504 * 0x10_0000;

/// Smallest standard deviation the normalizer works with.
pub const STD_FLOOR: i64 = 1;

/// The clamped z-score of one slot.
pub open spec fn spec_zscore(v: int, mean: int, std: int) -> int {
    let z = spec_tdiv((v - mean) * fixed_one(), std);
    if z < -F16_CLAMP {
        -F16_CLAMP as int
    } else if z > F16_CLAMP {
        F16_CLAMP as int
    } else {
        z
    }
}

/// Sum of squared deviations of the first `n` slots from the mean.
pub open spec fn var_sum(s: Seq<Qx>, mean: int, n: int) -> int
    decreases n,
{
    if n <= 0 {
        0
    } else {
        var_sum(s, mean, n - 1) + (s[n - 1] - mean) * (s[n - 1] - mean)
    }
}

/// Encodes a clamped z-score as a binary16 code, rounding the magnitude
/// to the nearest representable value (ties away from zero), with carry
/// propagation into the exponent on mantissa overflow. The contract pins
/// the code down by its denoted value: the code's magnitude sits within
/// half a code spacing of the input's, and the sign matches the input's.
pub fn fixed_to_f16(v: i64) -> (r: u16)
    requires
        -F16_CLAMP <= v <= F16_CLAMP,
    ensures
        spec_f16_neg(r) == (v < 0),
        ((r >> 10) & 0x1f) < 0x1f,
        spec_f16_mag24(r) >= 0,
        2 * spec_f16_mag24(r) <= 32 * (if v < 0 {
            -v as int
        } else {
            v as int
        }) + spec_f16_ulp24(r),
        32 * (if v < 0 {
            -v as int
        } else {
            v as int
        }) < 2 * spec_f16_mag24(r) + spec_f16_ulp24(r),
{
    let sign: u16 = if v < 0 {
        0x8000
    } else {
        0
    };
    let av: u64 = if v < 0 {
        (-v) as u64
    } else {
        v as u64
    };
    let az: u64 = 16 * av;
    proof {
        assert(16 * av as int <= 0xff_e000_0000) by (nonlinear_arith)
            requires
                0 <= av as int <= 65_504 * 0x10_0000,
        ;
    }
    if az < 0x400 {
        let r = sign | (az as u16);
        proof {
            assert((r >> 10) & 0x1f == 0 && (r & 0x3ff) as int == az as int && ((r >> 15) & 1
                == 1) == (sign == 0x8000u16)) by (bit_vector)
                requires
                    r == sign | (az as u16),
                    az < 0x400u64,
                    sign == 0x8000u16 || sign == 0u16,
            ;
        }
        return r;
    }
    proof {
        vstd::arithmetic::power2::lemma2_to64();
    }
    let mut e: u16 = 1;
    let mut step: u64 = 1;
    while az >= 0x800 * step
        invariant
            1 <= e <= 31,
            step == vstd::arithmetic::power2::pow2((e - 1) as nat),
            az as int >= 0x400 * step,
            az < 0x100_0000_0000,
        decreases 31 - e,
    {
        proof {
            vstd::arithmetic::power2::lemma_pow2_unfold(e as nat);
            vstd::arithmetic::power2::lemma2_to64();
            if e as int == 31 {
                assert(0x400 * step == 0x100_0000_0000) by (nonlinear_arith)
                    requires
                        step == 0x4000_0000u64,
                ;
                assert(false);
            }
        }
        step = step * 2;
        e = e + 1;
    }
    proof {
        vstd::arithmetic::power2::lemma2_to64();
        if e as int == 31 {
            assert(0x400 * step == 0x100_0000_0000) by (nonlinear_arith)
                requires
                    step == 0x4000_0000u64,
            ;
            assert(false);
        }
        lemma_div_pos_is_pos(az as int, step as int);
        vstd::arithmetic::div_mod::lemma_fundamental_div_mod(az as int, step as int);
        vstd::arithmetic::div_mod::lemma_mod_division_less_than_divisor(az as int, step as int);
        assert(0x400 * step <= az ==> 0x400 <= az as int / (step as int)) by {
            lemma_div_is_ordered(0x400 * step as int, az as int, step as int);
            lemma_div_by_multiple(0x400, step as int);
        }
        vstd::arithmetic::div_mod::lemma_multiply_divide_lt(az as int, step as int, 0x800);
        assert(step as int * (az as int / step as int) == (az as int / step as int)
            * step as int) by (nonlinear_arith);
    }
    let q0: u64 = az / step;
    let rem: u64 = az % step;
    if 2 * rem >= step && q0 == 0x7ff {
        // the rounded mantissa overflows: carry into the exponent
        proof {
            if e == 30 {
                // the clamped input cannot reach the carry at the top
                // exponent: its largest magnitude fills the mantissa with
                // no remainder
                assert(step == 0x2000_0000u64);
                assert(q0 as int * (step as int) == 0xff_e000_0000) by (nonlinear_arith)
                    requires
                        q0 == 0x7ffu64,
                        step == 0x2000_0000u64,
                ;
                assert(false);
            }
        }
        let carried = e + 1;
        let r = sign | (carried << 10);
        proof {
            assert(((r >> 10) & 0x1f) as int == carried as int && (r & 0x3ff) as int == 0 && ((
            r >> 15) & 1 == 1) == (sign == 0x8000u16)) by (bit_vector)
                requires
                    r == sign | (carried << 10),
                    2 <= carried <= 30u16,
                    sign == 0x8000u16 || sign == 0u16,
            ;
            vstd::arithmetic::power2::lemma_pow2_unfold(e as nat);
            assert(spec_f16_mag24(r) == 0x800 * step && spec_f16_ulp24(r) == 2 * step)
                by (nonlinear_arith)
                requires
                    spec_f16_mag24(r) == 0x400 * (vstd::arithmetic::power2::pow2(
                        (carried - 1) as nat,
                    ) as int),
                    spec_f16_ulp24(r) == vstd::arithmetic::power2::pow2(
                        (carried - 1) as nat,
                    ) as int,
                    vstd::arithmetic::power2::pow2((carried - 1) as nat) == 2 * step,
            ;
            assert(az == 0x7ff * step + rem) by (nonlinear_arith)
                requires
                    az as int == q0 as int * (step as int) + rem,
                    q0 == 0x7ffu64,
            ;
        }
        return r;
    }
    let q: u64 = if 2 * rem >= step {
        q0 + 1
    } else {
        q0
    };
    let m: u16 = (q - 0x400) as u16;
    let r = sign | (e << 10) | m;
    proof {
        assert(((r >> 10) & 0x1f) as int == e as int && (r & 0x3ff) as int == m as int && ((
        r >> 15) & 1 == 1) == (sign == 0x8000u16)) by (bit_vector)
            requires
                r == sign | (e << 10) | m,
                1 <= e < 31u16,
                m < 0x400u16,
                sign == 0x8000u16 || sign == 0u16,
        ;
        assert((0x400 + m as int) * step == q * step) by (nonlinear_arith)
            requires
                m as int == q as int - 0x400,
        ;
        assert(q as int * (step as int) == q0 as int * (step as int) + (if 2 * rem >= step {
            step as int
        } else {
            0int
        })) by (nonlinear_arith)
            requires
                q as int == q0 as int + (if 2 * rem >= step {
                    1int
                } else {
                    0int
                }),
        ;
    }
    r
}

/// Half-precision encoded representation of a Unified Modality Space
/// vector, with the moments needed to undo the z-score normalization.
#[derive(Clone, Debug)]
pub struct CompressedUnifiedModality {
    data: Vec<u16>,
    mean: i64,
    std_dev: i64,
}

impl CompressedUnifiedModality {
    /// The stored codes.
    pub closed spec fn spec_codes(self) -> Seq<u16> {
        self.data@
    }

    /// The stored global mean.
    pub closed spec fn spec_mean(self) -> int {
        self.mean as int
    }

    /// The stored global standard deviation.
    pub closed spec fn spec_std(self) -> int {
        self.std_dev as int
    }

    /// All slots are present, the deviation has its floor, and every code
    /// is finite.
    pub open spec fn wf(self) -> bool {
        &&& self.spec_codes().len() == UMS_DIM
        &&& STD_FLOOR <= self.spec_std() <= 0x1_0000_0000
        &&& -0x8000_0000 <= self.spec_mean() <= 0x7fff_ffff
        &&& forall|i: int|
            0 <= i < UMS_DIM ==> ((#[trigger] self.spec_codes()[i] >> 10) & 0x1f) < 0x1f
    }

    /// Returns the stored global mean used for normalization.
    pub fn mean(&self) -> (m: i64)
        ensures
            m == self.spec_mean(),
    {
        self.mean
    }

    /// Returns the stored global standard deviation used for
    /// normalization.
    pub fn std_dev(&self) -> (s: i64)
        ensures
            s == self.spec_std(),
    {
        self.std_dev
    }

    /// Returns the underlying half-precision payload.
    pub fn data(&self) -> (d: &Vec<u16>)
        ensures
            d@ == self.spec_codes(),
    {
        &self.data
    }

    /// Reconstructs a Unified Modality Space vector from the compressed
    /// payload: each code's denoted value is scaled back by the deviation
    /// and recentered on the mean, saturating to the slot range.
    pub fn decompress(&self) -> (ums: UnifiedModalitySpace)
        requires
            self.wf(),
        ensures
            ums.wf(),
            forall|i: int|
                0 <= i < UMS_DIM ==> #[trigger] ums.spec_data()[i] as int == spec_decode_slot(
                    self.spec_codes()[i],
                    self.spec_mean(),
                    self.spec_std(),
                ),
    {
        let mut data: Vec<Qx> = Vec::new();
        let mut i: usize = 0;
        while i < UMS_DIM
            invariant
                i <= UMS_DIM,
                self.wf(),
                data@.len() == i,
                forall|t: int|
                    0 <= t < i ==> #[trigger] data@[t] as int == spec_decode_slot(
                        self.spec_codes()[t],
                        self.spec_mean(),
                        self.spec_std(),
                    ),
            decreases UMS_DIM - i,
        {
            let v = decode_slot(self.data[i], self.mean, self.std_dev);
            data.push(v);
            i += 1;
        }
        UnifiedModalitySpace::from_array(data)
    }
}

/// The slot value a code decodes to, given the stored moments.
pub open spec fn spec_decode_slot(h: u16, mean: int, std: int) -> int {
    let mag20 = spec_f16_mag24(h) / 16;
    let signed = if spec_f16_neg(h) {
        -mag20
    } else {
        mag20
    };
    spec_clamp_q(spec_tdiv(signed * std, fixed_one()) + mean)
}

/// Decodes one slot.
fn decode_slot(h: u16, mean: i64, std: i64) -> (v: Qx)
    requires
        ((h >> 10) & 0x1f) < 0x1f,
        STD_FLOOR <= std <= 0x1_0000_0000,
        -0x8000_0000 <= mean <= 0x7fff_ffff,
    ensures
        v as int == spec_decode_slot(h, mean as int, std as int),
{
    proof {
        assert(h & 0x3ff <= 0x3ffu16 && (h >> 10) & 0x1f <= 0x1fu16) by (bit_vector);
    }
    let e: u32 = ((h >> 10) & 0x1f) as u32;
    let m: u32 = (h & 0x3ff) as u32;
    let neg: bool = (h >> 15) & 1 == 1;
    let mag24: i64 = if e == 0 {
        m as i64
    } else {
        proof {
            vstd::arithmetic::power2::lemma2_to64();
            vstd::arithmetic::power2::lemma_pow2_pos((e - 1) as nat);
            vstd::arithmetic::power2::lemma_pow2_strictly_increases((e - 1) as nat, 30nat);
            vstd::arithmetic::power2::lemma2_to64();
            assert((0x400 + m as int) * vstd::arithmetic::power2::pow2((e - 1) as nat)
                <= 0x7ff * 0x4000_0000) by (nonlinear_arith)
                requires
                    0 <= m as int <= 0x3ff,
                    0 < vstd::arithmetic::power2::pow2((e - 1) as nat) <= 0x4000_0000,
            ;
            crate::quant::lemma_pow2_shift((e - 1) as u64);
        }
        (0x400 + m as i64) * (1i64 << ((e - 1) as u64))
    };
    proof {
        lemma_div_pos_is_pos(mag24 as int, 16);
        lemma_div_is_ordered(mag24 as int, 0x7ff * 0x4000_0000int, 16);
    }
    let mag20: i64 = mag24 / 16;
    proof {
        assert(0 <= mag20 as int <= 0x8000_0000_0000);
    }
    let signed: i64 = if neg {
        -mag20
    } else {
        mag20
    };
    proof {
        assert(-0x8_0000_0000_0000_0000_0000 <= signed as int * (std as int) <= 0x8_0000_0000_0000_0000_0000)
            by (nonlinear_arith)
            requires
                -0x8000_0000_0000 <= signed as int && signed as int <= 0x8000_0000_0000,
                0 <= std as int && std as int <= 0x1_0000_0000,
        ;
    }
    let scaled: i128 = (signed as i128) * (std as i128);
    let adjusted: i128 = tdiv128(scaled, DEFAULT_FIXED_SCALE as i128) + mean as i128;
    if adjusted > i32::MAX as i128 {
        i32::MAX
    } else if adjusted < i32::MIN as i128 {
        i32::MIN
    } else {
        adjusted as Qx
    }
}

/// Divides a wide value, rounding toward zero.
fn tdiv128(a: i128, b: i128) -> (r: i128)
    requires
        b > 0,
        a > i128::MIN,
    ensures
        r == spec_tdiv(a as int, b as int),
{
    if a >= 0 {
        a / b
    } else {
        proof {
            lemma_div_pos_is_pos(-(a as int), b as int);
            lemma_div_is_ordered(-(a as int), i128::MAX as int, b as int);
            vstd::arithmetic::div_mod::lemma_div_nonincreasing(i128::MAX as int, b as int);
        }
        -((-a) / b)
    }
}


/// Compresses a vector by z-score normalization with a floored standard
/// deviation, clamping each normalized value to the largest finite
/// binary16 magnitude, and encoding it as a binary16 code. Working in
/// exact integers, the degenerate constant vector cannot produce any
/// non-finite code: the deviation floor keeps every z-score zero and
/// every code finite.
pub fn compress_ums(ums: &UnifiedModalitySpace) -> (c: CompressedUnifiedModality)
    requires
        ums.wf(),
    ensures
        c.wf(),
        c.spec_mean() == spec_tdiv(crate::dream::vsum(ums.spec_data(), UMS_DIM as int),
            UMS_DIM as int),
        c.spec_std() == ({
            let variance = var_sum(ums.spec_data(), c.spec_mean(), UMS_DIM as int)
                / (UMS_DIM as int);
            let raw = crate::quant::spec_isqrt(variance);
            if raw < STD_FLOOR {
                STD_FLOOR as int
            } else {
                raw
            }
        }),
        forall|i: int|
            0 <= i < UMS_DIM ==> {
                let z = spec_zscore(ums.spec_data()[i] as int, c.spec_mean(), c.spec_std());
                let az = if z < 0 {
                    -z
                } else {
                    z
                };
                spec_f16_neg(#[trigger] c.spec_codes()[i]) == (z < 0) && spec_f16_mag24(
                    c.spec_codes()[i],
                ) >= 0 && 2 * spec_f16_mag24(c.spec_codes()[i]) <= 32 * az + spec_f16_ulp24(
                    c.spec_codes()[i],
                ) && 32 * az < 2 * spec_f16_mag24(c.spec_codes()[i]) + spec_f16_ulp24(
                    c.spec_codes()[i],
                )
            },
{
    let data_ref = ums.as_slice();
    let mut sum: i64 = 0;
    let mut i: usize = 0;
    while i < UMS_DIM
        invariant
            i <= UMS_DIM,
            ums.wf(),
            data_ref@ == ums.spec_data(),
            sum == crate::dream::vsum(ums.spec_data(), i as int),
            -(i as int * 0x8000_0000) <= sum <= i as int * 0x7fff_ffff,
        decreases UMS_DIM - i,
    {
        proof {
            assert(i as int * 0x8000_0000 + 0x8000_0000 == (i as int + 1) * 0x8000_0000
                && i as int * 0x7fff_ffff + 0x7fff_ffff == (i as int + 1) * 0x7fff_ffff)
                by (nonlinear_arith);
            assert(i as int * 0x8000_0000 <= 512 * 0x8000_0000 && i as int * 0x7fff_ffff <= 512
                * 0x7fff_ffff) by (nonlinear_arith)
                requires
                    0 <= i as int <= 512,
            ;
        }
        sum = sum + data_ref[i] as i64;
        i += 1;
    }
    let mean = crate::quant::tdiv64(sum, UMS_DIM as i64);
    proof {
        lemma_tdiv_bound(sum as int, UMS_DIM as int, 0x8000_0000);
        if sum >= 0 {
            lemma_div_is_ordered(sum as int, 512int * 0x7fff_ffff, 512);
            lemma_div_by_multiple(0x7fff_ffff, 512);
            assert(512int * 0x7fff_ffff == 0x7fff_ffff * 512int) by (nonlinear_arith);
        }
    }

    let mut varsum: i128 = 0;
    let mut j: usize = 0;
    while j < UMS_DIM
        invariant
            j <= UMS_DIM,
            ums.wf(),
            data_ref@ == ums.spec_data(),
            -0x8000_0000 <= mean <= 0x8000_0000,
            varsum == var_sum(ums.spec_data(), mean as int, j as int),
            0 <= varsum <= j as int * 0x1_0000_0000_0000_0000,
        decreases UMS_DIM - j,
    {
        proof {
            assert(j as int * 0x1_0000_0000_0000_0000 + 0x1_0000_0000_0000_0000 == (j as int
                + 1) * 0x1_0000_0000_0000_0000) by (nonlinear_arith);
            assert(j as int * 0x1_0000_0000_0000_0000 <= 512 * 0x1_0000_0000_0000_0000)
                by (nonlinear_arith)
                requires
                    0 <= j as int <= 512,
            ;
            assert(0 <= (data_ref@[j as int] as int - mean as int) * (data_ref@[
            j as int] as int - mean as int) <= 0x1_0000_0000_0000_0000) by (nonlinear_arith)
                requires
                    -0x1_0000_0000 <= data_ref@[j as int] as int - mean as int
                        && data_ref@[j as int] as int - mean as int <= 0x1_0000_0000,
            ;
        }
        let d: i64 = data_ref[j] as i64 - mean;
        varsum = varsum + (d as i128) * (d as i128);
        j += 1;
    }
    proof {
        lemma_div_pos_is_pos(varsum as int, UMS_DIM as int);
        lemma_div_is_ordered(varsum as int, 512int * 0x1_0000_0000_0000_0000, UMS_DIM as int);
    }
    let variance: i128 = varsum / UMS_DIM as i128;
    let raw = crate::quant::isqrt128(variance);
    proof {
        assert(raw <= 0x1_0000_0000) by (nonlinear_arith)
            requires
                0 <= raw,
                raw as int * (raw as int) <= variance as int,
                variance as int <= 0x1_0000_0000_0000_0000,
        ;
    }
    let std: i64 = if raw < STD_FLOOR as i128 {
        STD_FLOOR
    } else {
        raw as i64
    };

    let mut codes: Vec<u16> = Vec::new();
    let mut k: usize = 0;
    while k < UMS_DIM
        invariant
            k <= UMS_DIM,
            ums.wf(),
            data_ref@ == ums.spec_data(),
            -0x8000_0000 <= mean <= 0x8000_0000,
            STD_FLOOR <= std <= 0x1_0000_0000,
            codes@.len() == k,
            forall|t: int|
                0 <= t < k ==> {
                    let z = spec_zscore(ums.spec_data()[t] as int, mean as int, std as int);
                    let az = if z < 0 {
                        -z
                    } else {
                        z
                    };
                    spec_f16_neg(#[trigger] codes@[t]) == (z < 0) && spec_f16_mag24(codes@[t])
                        >= 0 && 2 * spec_f16_mag24(codes@[t]) <= 32 * az + spec_f16_ulp24(
                        codes@[t],
                    ) && 32 * az < 2 * spec_f16_mag24(codes@[t]) + spec_f16_ulp24(codes@[t])
                        && ((codes@[t] >> 10) & 0x1f) < 0x1f
                },
        decreases UMS_DIM - k,
    {
        proof {
            assert(-0x1_0000_0000 * 0x10_0000 <= (data_ref@[k as int] as int - mean as int)
                * fixed_one() <= 0x1_0000_0000 * 0x10_0000) by (nonlinear_arith)
                requires
                    -0x1_0000_0000 <= data_ref@[k as int] as int - mean as int
                        && data_ref@[k as int] as int - mean as int <= 0x1_0000_0000,
            ;
        }
        let diff: i64 = data_ref[k] as i64 - mean;
        let zr = crate::quant::tdiv64(diff * DEFAULT_FIXED_SCALE as i64, std);
        let z: i64 = if zr < -F16_CLAMP {
            -F16_CLAMP
        } else if zr > F16_CLAMP {
            F16_CLAMP
        } else {
            zr
        };
        let code = fixed_to_f16(z);
        codes.push(code);
        k += 1;
    }
    CompressedUnifiedModality { data: codes, mean, std_dev: std }
}

/// Decompresses a vector from its normalized half-precision form.
pub fn decompress_ums(compressed: &CompressedUnifiedModality) -> (ums: UnifiedModalitySpace)
    requires
        compressed.wf(),
    ensures
        ums.wf(),
        forall|i: int|
            0 <= i < UMS_DIM ==> #[trigger] ums.spec_data()[i] as int == spec_decode_slot(
                compressed.spec_codes()[i],
                compressed.spec_mean(),
                compressed.spec_std(),
            ),
{
    compressed.decompress()
}

/// On a constant vector the mean is that constant, the deviation floor
/// takes over, every z-score is zero, and decompression returns the
/// constant exactly: the degenerate input round-trips without error.
pub proof fn lemma_compress_constant_exact(s: Seq<Qx>, v: Qx, h: u16, mean: int, std: int)
    requires
        s.len() == UMS_DIM,
        forall|i: int| 0 <= i < s.len() ==> #[trigger] s[i] == v,
        mean == spec_tdiv(crate::dream::vsum(s, UMS_DIM as int), UMS_DIM as int),
        std == STD_FLOOR as int,
        ((h >> 10) & 0x1f) < 0x1f,
        spec_f16_mag24(h) >= 0,
        2 * spec_f16_mag24(h) <= 32 * spec_zscore(v as int, mean, std) + spec_f16_ulp24(h) || 2
            * spec_f16_mag24(h) <= -(32 * spec_zscore(v as int, mean, std)) + spec_f16_ulp24(
            h,
        ),
    ensures
        mean == v as int,
        spec_zscore(v as int, mean, std) == 0,
        spec_f16_mag24(h) == 0,
        spec_decode_slot(h, mean, std) == v as int,
{
    lemma_vsum_const(s, v, UMS_DIM as int);
    assert(crate::dream::vsum(s, UMS_DIM as int) == UMS_DIM * v);
    assert(spec_tdiv(512 * (v as int), 512) == v as int) by {
        if v >= 0 {
            lemma_div_by_multiple(v as int, 512);
            assert(512 * (v as int) == (v as int) * 512) by (nonlinear_arith);
        } else {
            lemma_div_by_multiple(-(v as int), 512);
            assert(-(512 * (v as int)) == (-(v as int)) * 512) by (nonlinear_arith);
        }
    }
    // the constant's z-score is zero, so the code must denote zero
    assert((v as int - mean) * fixed_one() == 0) by (nonlinear_arith)
        requires
            v as int == mean,
    ;
    vstd::arithmetic::div_mod::lemma_div_of0(1);
    assert(spec_zscore(v as int, mean, std) == 0);
    let e = ((h >> 10) & 0x1f) as int;
    if e >= 1 {
        vstd::arithmetic::power2::lemma_pow2_pos((e - 1) as nat);
        assert(false) by (nonlinear_arith)
            requires
                spec_f16_mag24(h) == ((h & 0x3ff) as int + 0x400) * (
                vstd::arithmetic::power2::pow2((e - 1) as nat) as int),
                spec_f16_ulp24(h) == vstd::arithmetic::power2::pow2((e - 1) as nat) as int,
                vstd::arithmetic::power2::pow2((e - 1) as nat) >= 1,
                (h & 0x3ff) as int >= 0,
                2 * spec_f16_mag24(h) <= spec_f16_ulp24(h),
        ;
    }
    assert(spec_f16_mag24(h) == 0);
    // a zero magnitude decodes to exactly the stored mean, the constant
    vstd::arithmetic::div_mod::lemma_div_of0(16);
    assert(0int * std == 0 && (-0int) * std == 0) by (nonlinear_arith);
    vstd::arithmetic::div_mod::lemma_div_of0(fixed_one());
}

/// The sum of a constant buffer is the constant times the length.
proof fn lemma_vsum_const(s: Seq<Qx>, v: Qx, n: int)
    requires
        0 <= n <= s.len(),
        forall|i: int| 0 <= i < s.len() ==> #[trigger] s[i] == v,
    ensures
        crate::dream::vsum(s, n) == n * v,
    decreases n,
{
    if n <= 0 {
        assert(n * v == 0) by (nonlinear_arith)
            requires
                n == 0,
        ;
    } else {
        lemma_vsum_const(s, v, n - 1);
        assert((n - 1) * v + v == n * v) by (nonlinear_arith);
    }
}


/// Sum of the first `j` chromatic-band slots: for `j` up to the category
/// count, the partial sum of the normalized hue histogram.
pub open spec fn hist_sum(rgb: Seq<Qx>, n: int, j: int) -> int
    decreases j,
{
    if j <= 0 {
        0
    } else {
        hist_sum(rgb, n, j - 1) + spec_ums_chrom(rgb, n, j - 1)
    }
}

/// Sum of the raw per-bin weight totals over the first `j` bins.
pub open spec fn cnt_total(rgb: Seq<Qx>, m: int, j: int) -> int
    decreases j,
{
    if j <= 0 {
        0
    } else {
        cnt_total(rgb, m, j - 1) + enc_cnt_sum(rgb, j - 1, m)
    }
}

/// Sum of one cell's interpolation weights over the first `j` bins.
pub open spec fn cellw_sum(rgb: Seq<Qx>, k: int, j: int) -> int
    decreases j,
{
    if j <= 0 {
        0
    } else {
        cellw_sum(rgb, k, j - 1) + crate::bridge::cell_bin_w(rgb, k, j - 1)
    }
}

/// A valid cell splits one whole unit of weight between its two adjacent
/// bins and contributes nothing elsewhere.
proof fn lemma_cell_weights(rgb: Seq<Qx>, k: int)
    requires
        crate::tensor::values_unit(rgb),
        0 <= k,
        3 * k + 3 <= rgb.len(),
    ensures
        cellw_sum(rgb, k, HUE_CATEGORIES as int) == fixed_one(),
        forall|i: int| 0 <= i < HUE_CATEGORIES ==> 0 <= #[trigger] crate::bridge::cell_bin_w(
            rgb,
            k,
            i,
        ),
{
    let u = fixed_one();
    let h = crate::bridge::cell_h(rgb, k);
    crate::color::lemma_hsl_ranges(rgb[3 * k] as int, rgb[3 * k + 1] as int, rgb[3 * k
        + 2] as int);
    assert(crate::color::spec_normalize_hue(h) == h) by {
        vstd::arithmetic::div_mod::lemma_small_mod(h as nat, u as nat);
    }
    let ia = crate::bridge::spec_bin_index(h);
    let ib = (ia + 1) % (HUE_CATEGORIES as int);
    let frac = crate::bridge::spec_bin_frac(h);
    vstd::arithmetic::div_mod::lemma_fundamental_div_mod(HUE_CATEGORIES * h, u);
    lemma_div_pos_is_pos(HUE_CATEGORIES * h, u);
    lemma_div_is_ordered(HUE_CATEGORIES * h, 12 * u - 12, u);
    assert((12 * 0x10_0000 - 12) / 0x10_0000 == 11);
    vstd::arithmetic::div_mod::lemma_mod_division_less_than_divisor(HUE_CATEGORIES * h, u);
    assert(0 <= ia < 12);
    assert(ia != ib && 0 <= ib < 12) by {
        if ia + 1 < 12 {
            vstd::arithmetic::div_mod::lemma_small_mod((ia + 1) as nat, 12nat);
        } else {
            assert((11int + 1) % 12int == 0);
        }
    }
    lemma_cellw_prefix(rgb, k, ia, ib, u - frac, frac, HUE_CATEGORIES as int);
}

/// The weight prefix sums collapse to the two adjacent-bin weights.
proof fn lemma_cellw_prefix(rgb: Seq<Qx>, k: int, ia: int, ib: int, wa: int, wb: int, j: int)
    requires
        0 <= ia < HUE_CATEGORIES,
        0 <= ib < HUE_CATEGORIES,
        ia != ib,
        crate::bridge::cell_bin_w(rgb, k, ia) == wa,
        crate::bridge::cell_bin_w(rgb, k, ib) == wb,
        forall|i: int|
            0 <= i < HUE_CATEGORIES && i != ia && i != ib
                ==> #[trigger] crate::bridge::cell_bin_w(rgb, k, i) == 0,
        0 <= j <= HUE_CATEGORIES,
    ensures
        cellw_sum(rgb, k, j) == (if ia < j {
            wa
        } else {
            0
        }) + (if ib < j {
            wb
        } else {
            0
        }),
    decreases j,
{
    if j > 0 {
        lemma_cellw_prefix(rgb, k, ia, ib, wa, wb, j - 1);
    }
}

/// Adding one cell adds its weight split to every bin total.
proof fn lemma_cnt_total_step(rgb: Seq<Qx>, m: int, j: int)
    requires
        1 <= m,
        0 <= j,
    ensures
        cnt_total(rgb, m, j) == cnt_total(rgb, m - 1, j) + cellw_sum(rgb, m - 1, j),
    decreases j,
{
    if j > 0 {
        lemma_cnt_total_step(rgb, m, j - 1);
    }
}

/// The raw weight totals over all bins amount to one whole unit per cell.
proof fn lemma_cnt_total_full(rgb: Seq<Qx>, m: int)
    requires
        crate::tensor::values_unit(rgb),
        0 <= m,
        3 * m <= rgb.len(),
    ensures
        cnt_total(rgb, m, HUE_CATEGORIES as int) == m * fixed_one(),
        forall|i: int|
            0 <= i < HUE_CATEGORIES ==> 0 <= #[trigger] enc_cnt_sum(rgb, i, m),
    decreases m,
{
    if m == 0 {
        assert(cnt_total(rgb, 0, 12) == 0) by {
            assert forall|j: int| 0 <= j <= 12 implies cnt_total(rgb, 0, j) == 0 by {
                lemma_cnt_total_zero(rgb, j);
            }
        }
        assert(0int * fixed_one() == 0) by (nonlinear_arith);
        assert forall|i: int| 0 <= i < HUE_CATEGORIES implies 0 <= #[trigger] enc_cnt_sum(
            rgb,
            i,
            0,
        ) by {}
    } else {
        lemma_cnt_total_full(rgb, m - 1);
        lemma_cnt_total_step(rgb, m, HUE_CATEGORIES as int);
        lemma_cell_weights(rgb, m - 1);
        assert((m - 1) * fixed_one() + fixed_one() == m * fixed_one()) by (nonlinear_arith);
        assert forall|i: int| 0 <= i < HUE_CATEGORIES implies 0 <= #[trigger] enc_cnt_sum(
            rgb,
            i,
            m,
        ) by {
            assert(0 <= enc_cnt_sum(rgb, i, m - 1));
            assert(0 <= crate::bridge::cell_bin_w(rgb, m - 1, i));
        }
    }
}

/// With no cells every bin total is zero.
proof fn lemma_cnt_total_zero(rgb: Seq<Qx>, j: int)
    requires
        0 <= j,
    ensures
        cnt_total(rgb, 0, j) == 0,
    decreases j,
{
    if j > 0 {
        lemma_cnt_total_zero(rgb, j - 1);
    }
}

/// The normalized slots lose less than one unit step per category to
/// truncation.
proof fn lemma_hist_decompose(rgb: Seq<Qx>, n: int, j: int)
    requires
        1 <= n,
        0 <= j <= HUE_CATEGORIES,
        forall|i: int|
            0 <= i < HUE_CATEGORIES ==> 0 <= #[trigger] enc_cnt_sum(rgb, i, n),
    ensures
        n * hist_sum(rgb, n, j) <= cnt_total(rgb, n, j),
        cnt_total(rgb, n, j) <= n * hist_sum(rgb, n, j) + j * (n - 1),
    decreases j,
{
    if j <= 0 {
        assert(n * 0 == 0 && 0int * (n - 1) == 0) by (nonlinear_arith);
    } else {
        lemma_hist_decompose(rgb, n, j - 1);
        let x = enc_cnt_sum(rgb, j - 1, n);
        vstd::arithmetic::div_mod::lemma_fundamental_div_mod(x, n);
        vstd::arithmetic::div_mod::lemma_mod_division_less_than_divisor(x, n);
        assert(spec_ums_chrom(rgb, n, j - 1) == x / n);
        assert(n * hist_sum(rgb, n, j) == n * hist_sum(rgb, n, j - 1) + n * (x / n) && (j - 1)
            * (n - 1) + (n - 1) == j * (n - 1)) by (nonlinear_arith)
            requires
                hist_sum(rgb, n, j) == hist_sum(rgb, n, j - 1) + x / n,
        ;
    }
}

/// The hue histogram of the chromatic band sums to one whole unit, up to
/// less than one truncation step per category.
pub proof fn lemma_histogram_sums_to_unit(rgb: Seq<Qx>, n: int)
    requires
        1 <= n <= 0x100_0000,
        rgb.len() == 3 * n,
        crate::tensor::values_unit(rgb),
    ensures
        fixed_one() - (HUE_CATEGORIES as int) < hist_sum(rgb, n, HUE_CATEGORIES as int),
        hist_sum(rgb, n, HUE_CATEGORIES as int) <= fixed_one(),
{
    let u = fixed_one();
    let s = hist_sum(rgb, n, HUE_CATEGORIES as int);
    lemma_cnt_total_full(rgb, n);
    lemma_hist_decompose(rgb, n, HUE_CATEGORIES as int);
    assert(n * s <= n * u);
    assert(s <= u) by (nonlinear_arith)
        requires
            n * s <= n * u,
            n >= 1,
    ;
    assert(n * u <= n * s + 12 * (n - 1));
    assert(u - 12 < s) by (nonlinear_arith)
        requires
            n * u <= n * s + 12 * (n - 1),
            n >= 1,
    ;
}


/// While the total spectral energy fits the temporal slot, the projection
/// stores it exactly; only beyond that machine limit does the slot
/// saturate.
pub proof fn lemma_temporal_slot_exact(e: int)
    requires
        -0x8000_0000 <= e <= 0x7fff_ffff,
    ensures
        spec_clamp_q(e) == e,
{
}

} // verus!
