//! Chromatic-spectral bridge for deterministic hue/frequency conversions.
//!
//! The hue-to-frequency mapping is logarithmic, `frequency = base * 2 ^
//! (hue_fraction * octave_span)`, and its inverse takes the base-2 logarithm
//! back. Composed, the exponential and the logarithm cancel exactly, so the
//! decoder works directly on hue fractions and the frequency constants are
//! carried as tensor metadata only.

use vstd::prelude::*;

use vstd::arithmetic::div_mod::{
    lemma_div_by_multiple, lemma_div_is_ordered, lemma_div_pos_is_pos, lemma_fundamental_div_mod,
};

use crate::color::{
    hue_in_range, normalize_hue, spec_normalize_hue, unit_in_range,
};
use crate::layout::{clamp_unit, spec_clamp_unit};
use crate::quant::{fixed_one, DEFAULT_FIXED_SCALE};
use crate::spectral::{qabs, SpectralTensor, SPECTRAL_VALUE_MAX};
use crate::tensor::ChromaticTensor;
use crate::{Qx, HUE_CATEGORIES};

verus! {

/// Base frequency used for the hue-to-frequency mapping (27.5 Hz, A0).
pub const BASE_FREQUENCY: Qx = 28_835_840;

/// Frequency ratio between adjacent hue bins: the fixed-point value of
/// `2 ^ (octave_span / (HUE_CATEGORIES - 1))` for a five-octave span.
pub const RATIO_PER_BIN: Qx = 1_436_917;

/// Minimal Gaussian width for the luminance-to-bandwidth mapping (4 Hz).
pub const MIN_SIGMA: Qx = 4 * DEFAULT_FIXED_SCALE;

/// Maximal Gaussian width for the luminance-to-bandwidth mapping (48 Hz).
pub const MAX_SIGMA: Qx = 48 * DEFAULT_FIXED_SCALE;

/// Width of the luminance-to-bandwidth span in whole hertz.
pub const SIGMA_SPAN_HZ: Qx = 44;

/// Bandwidth assigned to bins no cell contributed to: the image of the
/// midpoint luminance.
pub const NEUTRAL_SIGMA: Qx = 26 * DEFAULT_FIXED_SCALE;

/// Round-trip tolerance for delta components, one thousandth of the unit.
pub const ROUND_TRIP_TOLERANCE: Qx = 1_048;

/// Threshold below which a total energy counts as silence.
pub const EPSILON: Qx = 1;

/// Returns the frequency ratio between adjacent hue bins.
pub fn ratio_per_bin() -> (r: Qx)
    ensures
        r == RATIO_PER_BIN,
{
    RATIO_PER_BIN
}

/// Affine, monotonically decreasing map from luminance to bandwidth.
pub open spec fn spec_sigma_of_lum(l: int) -> int {
    MIN_SIGMA + (fixed_one() - spec_clamp_unit(l)) * SIGMA_SPAN_HZ
}

/// Inverse of the luminance-to-bandwidth map.
pub open spec fn spec_lum_of_sigma(sigma: int) -> int {
    let sc = if sigma < MIN_SIGMA {
        MIN_SIGMA as int
    } else if sigma > MAX_SIGMA {
        MAX_SIGMA as int
    } else {
        sigma
    };
    fixed_one() - (sc - MIN_SIGMA) / (SIGMA_SPAN_HZ as int)
}

/// Maps a luminance value to a Gaussian bandwidth.
pub fn map_luminance_to_sigma(l: Qx) -> (sigma: Qx)
    ensures
        sigma == spec_sigma_of_lum(l as int),
        MIN_SIGMA <= sigma <= MAX_SIGMA,
{
    let lc = clamp_unit(l);
    MIN_SIGMA + (DEFAULT_FIXED_SCALE - lc) * SIGMA_SPAN_HZ
}

/// Recovers a luminance value from a Gaussian bandwidth.
pub fn sigma_to_luminance(sigma: Qx) -> (l: Qx)
    ensures
        l == spec_lum_of_sigma(sigma as int),
        unit_in_range(l as int),
{
    let sc = if sigma < MIN_SIGMA {
        MIN_SIGMA
    } else if sigma > MAX_SIGMA {
        MAX_SIGMA
    } else {
        sigma
    };
    proof {
        lemma_div_pos_is_pos(sc - MIN_SIGMA, SIGMA_SPAN_HZ as int);
        lemma_div_is_ordered(sc - MIN_SIGMA, MAX_SIGMA - MIN_SIGMA, SIGMA_SPAN_HZ as int);
        lemma_div_by_multiple(fixed_one(), SIGMA_SPAN_HZ as int);
    }
    DEFAULT_FIXED_SCALE - (sc - MIN_SIGMA) / SIGMA_SPAN_HZ
}

/// The bandwidth map and its inverse form an exact round trip on clamped
/// luminance values: recovering the luminance of a mapped bandwidth gives
/// back exactly the clamped input.
pub proof fn lemma_bandwidth_inverse(l: int)
    ensures
        spec_lum_of_sigma(spec_sigma_of_lum(l)) == spec_clamp_unit(l),
{
    let lc = spec_clamp_unit(l);
    let sigma = spec_sigma_of_lum(l);
    assert(MIN_SIGMA <= sigma <= MAX_SIGMA) by (nonlinear_arith)
        requires
            sigma == MIN_SIGMA + (fixed_one() - lc) * SIGMA_SPAN_HZ,
            0 <= lc <= fixed_one(),
            fixed_one() == 0x10_0000,
    ;
    lemma_div_by_multiple(fixed_one() - lc, SIGMA_SPAN_HZ as int);
}

/// First bin index the hue contributes to.
pub open spec fn spec_bin_index(h: int) -> int {
    HUE_CATEGORIES * spec_normalize_hue(h) / fixed_one()
}

/// Interpolation weight of the second bin; the first bin receives the
/// complement.
pub open spec fn spec_bin_frac(h: int) -> int {
    (HUE_CATEGORIES * spec_normalize_hue(h)) % fixed_one()
}

/// Maps a hue to its two adjacent bins with linear interpolation weights;
/// the weights always sum to one whole unit and the wrap between the last
/// and the first bin is handled by the index arithmetic.
pub fn hue_to_bin_weights(hue: Qx) -> (r: (usize, Qx, usize, Qx))
    ensures
        r.0 == spec_bin_index(hue as int),
        r.1 == fixed_one() - spec_bin_frac(hue as int),
        r.2 == (spec_bin_index(hue as int) + 1) % (HUE_CATEGORIES as int),
        r.3 == spec_bin_frac(hue as int),
        r.0 < HUE_CATEGORIES,
        r.2 < HUE_CATEGORIES,
        r.1 as int + r.3 as int == fixed_one(),
        0 < r.1 <= fixed_one(),
        0 <= r.3 < fixed_one(),
{
    let hue_norm = normalize_hue(hue as i64);
    let unit = DEFAULT_FIXED_SCALE as i64;
    let scaled = (HUE_CATEGORIES as i64) * (hue_norm as i64);
    let base_idx = (scaled / unit) as usize;
    let frac = (scaled % unit) as Qx;
    proof {
        lemma_fundamental_div_mod(scaled as int, unit as int);
        lemma_div_pos_is_pos(scaled as int, unit as int);
        lemma_div_is_ordered(scaled as int, 12 * fixed_one() - 12, unit as int);
        assert((12 * 0x10_0000 - 12) / 0x10_0000 == 11);
    }
    let idx_a = base_idx;
    let idx_b = (idx_a + 1) % HUE_CATEGORIES;
    let weight_a = DEFAULT_FIXED_SCALE - frac;
    let weight_b = frac;
    (idx_a, weight_a, idx_b, weight_b)
}

/// Computes seam-aware weights for a hue near the wrap-around boundary.
/// Inside the epsilon window the weights blend linearly with the distance
/// to the seam; outside it they fall back to the ordinary bin
/// interpolation weights. In every case the two weights sum to one whole
/// unit.
pub fn record_seam_weights(hue: Qx, epsilon: Qx) -> (w: (Qx, Qx))
    requires
        epsilon > 0,
    ensures
        w.0 as int + w.1 as int == fixed_one(),
        0 <= w.0 <= fixed_one(),
        0 <= w.1 <= fixed_one(),
        spec_normalize_hue(hue as int) < epsilon ==> w.0 == (epsilon - spec_normalize_hue(
            hue as int,
        )) * fixed_one() / (epsilon as int),
        fixed_one() - spec_normalize_hue(hue as int) < epsilon && spec_normalize_hue(hue as int)
            >= epsilon ==> w.1 == (epsilon - (fixed_one() - spec_normalize_hue(hue as int)))
            * fixed_one() / (epsilon as int),
        spec_normalize_hue(hue as int) >= epsilon && fixed_one() - spec_normalize_hue(hue as int)
            >= epsilon ==> w.1 == spec_bin_frac(hue as int),
{
    let hue_norm = normalize_hue(hue as i64);
    let unit = DEFAULT_FIXED_SCALE as i64;

    if hue_norm < epsilon {
        proof {
            lemma_ratio_unit_bridge((epsilon - hue_norm) as int, epsilon as int);
        }
        let ratio = ((epsilon - hue_norm) as i64 * unit / epsilon as i64) as Qx;
        (ratio, DEFAULT_FIXED_SCALE - ratio)
    } else if DEFAULT_FIXED_SCALE - hue_norm < epsilon {
        proof {
            lemma_ratio_unit_bridge(
                (epsilon - (DEFAULT_FIXED_SCALE - hue_norm)) as int,
                epsilon as int,
            );
        }
        let ratio = ((epsilon - (DEFAULT_FIXED_SCALE - hue_norm)) as i64 * unit
            / epsilon as i64) as Qx;
        (DEFAULT_FIXED_SCALE - ratio, ratio)
    } else {
        let (_, w_a, _, w_b) = hue_to_bin_weights(hue_norm);
        (w_a, w_b)
    }
}

/// A ratio of a bounded numerator over its own bound is a unit value.
pub proof fn lemma_ratio_unit_bridge(a: int, b: int)
    requires
        0 <= a <= b,
        0 < b,
    ensures
        0 <= a * fixed_one() / b <= fixed_one(),
{
    vstd::arithmetic::mul::lemma_mul_inequality(a, b, fixed_one());
    lemma_div_is_ordered(a * fixed_one(), b * fixed_one(), b);
    lemma_div_by_multiple(fixed_one(), b);
    lemma_div_pos_is_pos(a * fixed_one(), b);
}

/// First index holding the maximal amplitude among the first `n` bins.
pub open spec fn spec_dominant_bin(bins: Seq<Qx>, n: int) -> int
    decreases n,
{
    if n <= 1 {
        0
    } else {
        let prev = spec_dominant_bin(bins, n - 1);
        if bins[n - 1] > bins[prev] {
            n - 1
        } else {
            prev
        }
    }
}

/// Returns the index of the bin holding the largest amplitude; among equal
/// maxima the first one wins.
pub fn dominant_bin(spec: &SpectralTensor) -> (idx: usize)
    requires
        spec.wf(),
    ensures
        idx == spec_dominant_bin(spec.bins@, spec.bins@.len() as int),
        idx < spec.bins@.len(),
        forall|i: int|
            0 <= i < spec.bins@.len() ==> #[trigger] spec.bins@[i] <= spec.bins@[idx as int],
{
    let n = spec.bins.len();
    let mut max_idx: usize = 0;
    let mut i: usize = 1;
    while i < n
        invariant
            1 <= i <= n,
            n == spec.bins@.len(),
            max_idx < i,
            max_idx == spec_dominant_bin(spec.bins@, i as int),
            forall|j: int| 0 <= j < i ==> #[trigger] spec.bins@[j] <= spec.bins@[max_idx as int],
        decreases n - i,
    {
        if spec.bins[i] > spec.bins[max_idx] {
            max_idx = i;
        }
        i += 1;
    }
    max_idx
}


/// Hue of the `k`-th cell of an interleaved RGB buffer.
pub open spec fn cell_h(rgb: Seq<Qx>, k: int) -> int {
    crate::color::spec_hsl_h(rgb[3 * k] as int, rgb[3 * k + 1] as int, rgb[3 * k + 2] as int)
}

/// Saturation of the `k`-th cell.
pub open spec fn cell_s(rgb: Seq<Qx>, k: int) -> int {
    crate::color::spec_hsl_s(rgb[3 * k] as int, rgb[3 * k + 1] as int, rgb[3 * k + 2] as int)
}

/// Lightness of the `k`-th cell.
pub open spec fn cell_l(rgb: Seq<Qx>, k: int) -> int {
    crate::color::spec_hsl_l(rgb[3 * k] as int, rgb[3 * k + 1] as int, rgb[3 * k + 2] as int)
}

/// Interpolation weight the `k`-th cell contributes to bin `i`.
pub open spec fn cell_bin_w(rgb: Seq<Qx>, k: int, i: int) -> int {
    let h = cell_h(rgb, k);
    if spec_bin_index(h) == i {
        fixed_one() - spec_bin_frac(h)
    } else if (spec_bin_index(h) + 1) % (HUE_CATEGORIES as int) == i {
        spec_bin_frac(h)
    } else {
        0
    }
}

/// Saturation-weighted amplitude accumulated into bin `i` by the first `n`
/// cells.
pub open spec fn enc_bin_sum(rgb: Seq<Qx>, i: int, n: int) -> int
    decreases n,
{
    if n <= 0 {
        0
    } else {
        enc_bin_sum(rgb, i, n - 1) + cell_s(rgb, n - 1) * cell_bin_w(rgb, n - 1, i)
    }
}

/// Bandwidth mass accumulated into bin `i` by the first `n` cells.
pub open spec fn enc_sig_sum(rgb: Seq<Qx>, i: int, n: int) -> int
    decreases n,
{
    if n <= 0 {
        0
    } else {
        enc_sig_sum(rgb, i, n - 1) + spec_sigma_of_lum(cell_l(rgb, n - 1)) * cell_bin_w(
            rgb,
            n - 1,
            i,
        )
    }
}

/// Total interpolation weight accumulated into bin `i` by the first `n`
/// cells.
pub open spec fn enc_cnt_sum(rgb: Seq<Qx>, i: int, n: int) -> int
    decreases n,
{
    if n <= 0 {
        0
    } else {
        enc_cnt_sum(rgb, i, n - 1) + cell_bin_w(rgb, n - 1, i)
    }
}

/// Amplitude of bin `i` after encoding a grid of `n` cells.
pub open spec fn spec_encode_bin(rgb: Seq<Qx>, i: int, n: int) -> int {
    enc_bin_sum(rgb, i, n) / (n * fixed_one())
}

/// Bandwidth of bin `i` after encoding a grid of `n` cells.
pub open spec fn spec_encode_sigma(rgb: Seq<Qx>, i: int, n: int) -> int {
    if enc_cnt_sum(rgb, i, n) > 0 {
        enc_sig_sum(rgb, i, n) / enc_cnt_sum(rgb, i, n)
    } else {
        NEUTRAL_SIGMA as int
    }
}

/// Encodes a chromatic tensor into its spectral representation: every cell
/// splits its saturation and its luminance-derived bandwidth between the
/// two hue bins adjacent to its hue, each bin is normalized by the cell
/// count (amplitudes) or by its own weight total (bandwidths), and bins no
/// cell touched keep zero amplitude and the neutral bandwidth.
#[verifier::spinoff_prover]
#[verifier::rlimit(50)]
pub fn encode_to_spectral(chromatic: &ChromaticTensor) -> (sp: SpectralTensor)
    requires
        chromatic.wf(),
    ensures
        sp.wf(),
        sp.bins@.len() == HUE_CATEGORIES,
        sp.sigma is Some,
        sp.sigma->0@.len() == HUE_CATEGORIES,
        forall|i: int|
            0 <= i < HUE_CATEGORIES ==> #[trigger] sp.bins@[i] as int == spec_encode_bin(
                chromatic.rgb@,
                i,
                chromatic.shape.spec_cell_count(),
            ),
        forall|i: int|
            0 <= i < HUE_CATEGORIES ==> #[trigger] sp.sigma->0@[i] as int == spec_encode_sigma(
                chromatic.rgb@,
                i,
                chromatic.shape.spec_cell_count(),
            ),
        sp.f_min == BASE_FREQUENCY,
        sp.f_res == RATIO_PER_BIN,
        sp.log_scale,
{
    let rgb = &chromatic.rgb;
    let cells = chromatic.shape.cell_count();
    let unit = DEFAULT_FIXED_SCALE as i64;
    let mut bins_acc: Vec<i128> = zero_wide(HUE_CATEGORIES);
    let mut sig_acc: Vec<i128> = zero_wide(HUE_CATEGORIES);
    let mut cnt_acc: Vec<i128> = zero_wide(HUE_CATEGORIES);

    let mut k: usize = 0;
    while k < cells
        invariant
            k <= cells,
            chromatic.wf(),
            rgb == &chromatic.rgb,
            cells == chromatic.shape.spec_cell_count(),
            bins_acc@.len() == HUE_CATEGORIES,
            sig_acc@.len() == HUE_CATEGORIES,
            cnt_acc@.len() == HUE_CATEGORIES,
            forall|i: int|
                0 <= i < HUE_CATEGORIES ==> #[trigger] bins_acc@[i] as int == enc_bin_sum(
                    rgb@,
                    i,
                    k as int,
                ),
            forall|i: int|
                0 <= i < HUE_CATEGORIES ==> #[trigger] sig_acc@[i] as int == enc_sig_sum(
                    rgb@,
                    i,
                    k as int,
                ),
            forall|i: int|
                0 <= i < HUE_CATEGORIES ==> #[trigger] cnt_acc@[i] as int == enc_cnt_sum(
                    rgb@,
                    i,
                    k as int,
                ),
            forall|i: int|
                0 <= i < HUE_CATEGORIES ==> 0 <= #[trigger] cnt_acc@[i] as int <= k as int
                    * fixed_one(),
            forall|i: int|
                0 <= i < HUE_CATEGORIES ==> 0 <= #[trigger] bins_acc@[i] as int <= fixed_one()
                    * cnt_acc@[i] as int,
            forall|i: int|
                0 <= i < HUE_CATEGORIES ==> MIN_SIGMA * cnt_acc@[i] as int <= #[trigger] sig_acc@[
                    i
                ] as int <= MAX_SIGMA * cnt_acc@[i] as int,
        decreases cells - k,
    {
        let off = k * 3;
        proof {
            assert(3 * (k as int) + 3 <= 3 * chromatic.shape.spec_cell_count());
        }
        let (h, s, l) = crate::color::rgb_to_hsl(rgb[off], rgb[off + 1], rgb[off + 2]);
        let (idx_a, w_a, idx_b, w_b) = hue_to_bin_weights(h);
        let sigma_value = map_luminance_to_sigma(l);
        proof {
            assert(spec_normalize_hue(h as int) == h as int) by {
                vstd::arithmetic::div_mod::lemma_small_mod(h as nat, fixed_one() as nat);
            }
            assert(idx_a != idx_b) by {
                if idx_a as int + 1 < HUE_CATEGORIES {
                    vstd::arithmetic::div_mod::lemma_small_mod(
                        (idx_a + 1) as nat,
                        HUE_CATEGORIES as nat,
                    );
                } else {
                    assert(idx_a == 11);
                    assert((11int + 1) % (HUE_CATEGORIES as int) == 0);
                }
            }
            assert(k as int * fixed_one() + fixed_one() == (k as int + 1) * fixed_one())
                by (nonlinear_arith);
            assert(k as int * fixed_one() <= 0x100_0000 * fixed_one()) by (nonlinear_arith)
                requires
                    0 <= k as int <= 0x100_0000,
            ;
            lemma_contribution_bounds(s as int, w_a as int, sigma_value as int);
            lemma_contribution_bounds(s as int, w_b as int, sigma_value as int);
        }
        let ghost old_bins = bins_acc@;
        let ghost old_sig = sig_acc@;
        let ghost old_cnt = cnt_acc@;
        let ba = bins_acc[idx_a] + (s as i64 * w_a as i64) as i128;
        bins_acc.set(idx_a, ba);
        let sa = sig_acc[idx_a] + (sigma_value as i64 * w_a as i64) as i128;
        sig_acc.set(idx_a, sa);
        let ca = cnt_acc[idx_a] + w_a as i128;
        cnt_acc.set(idx_a, ca);
        let bb = bins_acc[idx_b] + (s as i64 * w_b as i64) as i128;
        bins_acc.set(idx_b, bb);
        let sb = sig_acc[idx_b] + (sigma_value as i64 * w_b as i64) as i128;
        sig_acc.set(idx_b, sb);
        let cb = cnt_acc[idx_b] + w_b as i128;
        cnt_acc.set(idx_b, cb);
        proof {
            assert forall|i: int| 0 <= i < HUE_CATEGORIES implies #[trigger] bins_acc@[i] as int
                == enc_bin_sum(rgb@, i, k as int + 1) && sig_acc@[i] as int == enc_sig_sum(
                rgb@,
                i,
                k as int + 1,
            ) && cnt_acc@[i] as int == enc_cnt_sum(rgb@, i, k as int + 1) by {
                assert(cell_h(rgb@, k as int) == h as int);
                assert(cell_s(rgb@, k as int) == s as int);
                assert(spec_sigma_of_lum(cell_l(rgb@, k as int)) == sigma_value as int);
                if i == idx_a as int {
                    assert(cell_bin_w(rgb@, k as int, i) == w_a as int);
                } else if i == idx_b as int {
                    assert(cell_bin_w(rgb@, k as int, i) == w_b as int);
                } else {
                    assert(cell_bin_w(rgb@, k as int, i) == 0);
                }
            }
            assert forall|i: int| 0 <= i < HUE_CATEGORIES implies 0 <= #[trigger] cnt_acc@[
                i
            ] as int <= (k as int + 1) * fixed_one() && 0 <= bins_acc@[i] as int <= fixed_one()
                * cnt_acc@[i] as int && MIN_SIGMA * cnt_acc@[i] as int <= sig_acc@[i] as int
                <= MAX_SIGMA * cnt_acc@[i] as int by {
                if i == idx_a as int {
                    lemma_step_bounds(
                        old_bins[i] as int,
                        old_sig[i] as int,
                        old_cnt[i] as int,
                        s as int,
                        sigma_value as int,
                        w_a as int,
                    );
                } else if i == idx_b as int {
                    lemma_step_bounds(
                        old_bins[i] as int,
                        old_sig[i] as int,
                        old_cnt[i] as int,
                        s as int,
                        sigma_value as int,
                        w_b as int,
                    );
                }
            }
        }
        k += 1;
    }

    proof {
        assert(cells as int * fixed_one() >= 1 * fixed_one()) by (nonlinear_arith)
            requires
                cells as int >= 1,
                fixed_one() > 0,
        ;
    }
    let denom: i128 = cells as i128 * unit as i128;
    let mut bins_q: Vec<Qx> = Vec::new();
    let mut sigma_q: Vec<Qx> = Vec::new();
    let mut i: usize = 0;
    while i < HUE_CATEGORIES
        invariant
            i <= HUE_CATEGORIES,
            chromatic.wf(),
            rgb == &chromatic.rgb,
            cells == chromatic.shape.spec_cell_count(),
            denom == cells as int * fixed_one(),
            denom >= fixed_one(),
            1 <= cells <= 0x100_0000,
            bins_acc@.len() == HUE_CATEGORIES,
            sig_acc@.len() == HUE_CATEGORIES,
            cnt_acc@.len() == HUE_CATEGORIES,
            forall|j: int|
                0 <= j < HUE_CATEGORIES ==> #[trigger] bins_acc@[j] as int == enc_bin_sum(
                    rgb@,
                    j,
                    cells as int,
                ),
            forall|j: int|
                0 <= j < HUE_CATEGORIES ==> #[trigger] sig_acc@[j] as int == enc_sig_sum(
                    rgb@,
                    j,
                    cells as int,
                ),
            forall|j: int|
                0 <= j < HUE_CATEGORIES ==> #[trigger] cnt_acc@[j] as int == enc_cnt_sum(
                    rgb@,
                    j,
                    cells as int,
                ),
            forall|j: int|
                0 <= j < HUE_CATEGORIES ==> 0 <= #[trigger] cnt_acc@[j] as int <= cells as int
                    * fixed_one(),
            forall|j: int|
                0 <= j < HUE_CATEGORIES ==> 0 <= #[trigger] bins_acc@[j] as int <= fixed_one()
                    * cnt_acc@[j] as int,
            forall|j: int|
                0 <= j < HUE_CATEGORIES ==> MIN_SIGMA * cnt_acc@[j] as int <= #[trigger] sig_acc@[
                    j
                ] as int <= MAX_SIGMA * cnt_acc@[j] as int,
            bins_q@.len() == i,
            sigma_q@.len() == i,
            forall|j: int|
                0 <= j < i ==> #[trigger] bins_q@[j] as int == spec_encode_bin(
                    rgb@,
                    j,
                    cells as int,
                ) && 0 <= bins_q@[j] <= DEFAULT_FIXED_SCALE,
            forall|j: int|
                0 <= j < i ==> #[trigger] sigma_q@[j] as int == spec_encode_sigma(
                    rgb@,
                    j,
                    cells as int,
                ) && MIN_SIGMA <= sigma_q@[j] <= MAX_SIGMA,
        decreases HUE_CATEGORIES - i,
    {
        proof {
            lemma_encode_final_bounds(
                bins_acc@[i as int] as int,
                sig_acc@[i as int] as int,
                cnt_acc@[i as int] as int,
                cells as int,
            );
        }
        let b = (bins_acc[i] / denom) as Qx;
        bins_q.push(b);
        let cnt = cnt_acc[i];
        let sg: Qx = if cnt > 0 {
            (sig_acc[i] / cnt) as Qx
        } else {
            NEUTRAL_SIGMA
        };
        sigma_q.push(sg);
        i += 1;
    }
    SpectralTensor::new(bins_q, Some(sigma_q), BASE_FREQUENCY, ratio_per_bin(), true)
}

/// Per-cell contributions respect the unit and bandwidth ranges.
proof fn lemma_contribution_bounds(s: int, w: int, sigma: int)
    requires
        0 <= s <= fixed_one(),
        0 <= w <= fixed_one(),
        MIN_SIGMA <= sigma <= MAX_SIGMA,
    ensures
        0 <= s * w <= fixed_one() * w,
        MIN_SIGMA * w <= sigma * w <= MAX_SIGMA * w,
        s * w <= 0x100_0000_0000,
        sigma * w <= 0x3000_0000_0000,
{
    assert(0 <= s * w <= fixed_one() * w && MIN_SIGMA * w <= sigma * w <= MAX_SIGMA * w
        && s * w <= 0x100_0000_0000 && sigma * w <= 0x3000_0000_0000) by (nonlinear_arith)
        requires
            0 <= s <= fixed_one(),
            0 <= w <= fixed_one(),
            MIN_SIGMA <= sigma <= MAX_SIGMA,
            fixed_one() == 0x10_0000,
    ;
}

/// One accumulation step keeps the per-bin bounds.
proof fn lemma_step_bounds(bins: int, sig: int, cnt: int, s: int, sigma: int, w: int)
    requires
        0 <= s <= fixed_one(),
        0 <= w <= fixed_one(),
        MIN_SIGMA <= sigma <= MAX_SIGMA,
        0 <= cnt,
        0 <= bins <= fixed_one() * cnt,
        MIN_SIGMA * cnt <= sig <= MAX_SIGMA * cnt,
    ensures
        0 <= bins + s * w <= fixed_one() * (cnt + w),
        MIN_SIGMA * (cnt + w) <= sig + sigma * w <= MAX_SIGMA * (cnt + w),
{
    assert(0 <= bins + s * w <= fixed_one() * (cnt + w) && MIN_SIGMA * (cnt + w) <= sig + sigma
        * w <= MAX_SIGMA * (cnt + w)) by (nonlinear_arith)
        requires
            0 <= s <= fixed_one(),
            0 <= w <= fixed_one(),
            MIN_SIGMA <= sigma <= MAX_SIGMA,
            0 <= cnt,
            0 <= bins <= fixed_one() * cnt,
            MIN_SIGMA * cnt <= sig <= MAX_SIGMA * cnt,
    ;
}

/// The normalized bin values stay inside their ranges.
proof fn lemma_encode_final_bounds(bins: int, sig: int, cnt: int, cells: int)
    requires
        1 <= cells <= 0x100_0000,
        0 <= cnt <= cells * fixed_one(),
        0 <= bins <= fixed_one() * cnt,
        MIN_SIGMA * cnt <= sig <= MAX_SIGMA * cnt,
    ensures
        0 <= bins / (cells * fixed_one()) <= fixed_one(),
        cnt > 0 ==> MIN_SIGMA <= sig / cnt <= MAX_SIGMA,
{
    let d = cells * fixed_one();
    assert(d >= fixed_one()) by (nonlinear_arith)
        requires
            cells >= 1,
            fixed_one() > 0,
            d == cells * fixed_one(),
    ;
    lemma_div_pos_is_pos(bins, d);
    assert(fixed_one() * cnt <= fixed_one() * (cells * fixed_one())) by (nonlinear_arith)
        requires
            cnt <= cells * fixed_one(),
            fixed_one() > 0,
    ;
    assert(fixed_one() * (cells * fixed_one()) == fixed_one() * d);
    lemma_div_is_ordered(bins, fixed_one() * d, d);
    lemma_div_by_multiple(fixed_one(), d);
    assert(fixed_one() * d == d * fixed_one()) by (nonlinear_arith);
    if cnt > 0 {
        lemma_div_is_ordered(MIN_SIGMA * cnt, sig, cnt);
        lemma_div_is_ordered(sig, MAX_SIGMA * cnt, cnt);
        lemma_div_by_multiple(MIN_SIGMA as int, cnt);
        lemma_div_by_multiple(MAX_SIGMA as int, cnt);
        assert(MIN_SIGMA * cnt == (MIN_SIGMA as int) * cnt);
    }
}

/// Builds a zeroed wide accumulator buffer.
fn zero_wide(n: usize) -> (v: Vec<i128>)
    ensures
        v@.len() == n,
        forall|i: int| 0 <= i < n ==> #[trigger] v@[i] == 0i128,
{
    let mut v: Vec<i128> = Vec::new();
    let mut i: usize = 0;
    while i < n
        invariant
            i <= n,
            v@.len() == i,
            forall|j: int| 0 <= j < i ==> #[trigger] v@[j] == 0i128,
        decreases n - i,
    {
        v.push(0);
        i += 1;
    }
    v
}


/// Nonnegative part of an amplitude.
pub open spec fn pos_part(v: int) -> int {
    if v > 0 {
        v
    } else {
        0
    }
}

/// Sum of clamped-nonnegative amplitudes over the first `n` bins.
pub open spec fn pos_sum(bins: Seq<Qx>, n: int) -> int
    decreases n,
{
    if n <= 0 {
        0
    } else {
        pos_sum(bins, n - 1) + pos_part(bins[n - 1] as int)
    }
}

/// Index-weighted sum of clamped amplitudes over the first `n` bins.
pub open spec fn widx_sum(bins: Seq<Qx>, n: int) -> int
    decreases n,
{
    if n <= 0 {
        0
    } else {
        widx_sum(bins, n - 1) + (n - 1) * pos_part(bins[n - 1] as int)
    }
}

/// Amplitude-weighted bandwidth sum over the first `n` bins.
pub open spec fn sigw_sum(sigma: Seq<Qx>, bins: Seq<Qx>, n: int) -> int
    decreases n,
{
    if n <= 0 {
        0
    } else {
        sigw_sum(sigma, bins, n - 1) + sigma[n - 1] * pos_part(bins[n - 1] as int)
    }
}

/// Total nonnegative energy a decoder sees in a spectrum.
pub open spec fn spec_dec_total(bins: Seq<Qx>) -> int {
    pos_sum(bins, bins.len() as int)
}

/// Hue the decoder recovers: the amplitude-weighted mean bin index, taken
/// as a fraction of the bin range and normalized into a turn. The
/// exponential hue-to-frequency map and its logarithmic inverse cancel
/// exactly, so no frequency appears here.
pub open spec fn spec_dec_hue(bins: Seq<Qx>) -> int {
    let total = spec_dec_total(bins);
    if total > EPSILON {
        let mean_q = widx_sum(bins, bins.len() as int) * fixed_one() / total;
        let hf = if mean_q / (HUE_CATEGORIES as int) > fixed_one() {
            fixed_one()
        } else {
            mean_q / (HUE_CATEGORIES as int)
        };
        hf % fixed_one()
    } else {
        0
    }
}

/// Saturation the decoder recovers: the clamped total energy.
pub open spec fn spec_dec_sat(bins: Seq<Qx>) -> int {
    spec_clamp_unit(spec_dec_total(bins))
}

/// Bandwidth the decoder recovers: the amplitude-weighted mean bandwidth,
/// clamped to the valid width range, or the neutral width for silence.
pub open spec fn spec_dec_sigma(bins: Seq<Qx>, sigma: Option<Seq<Qx>>) -> int {
    match sigma {
        Some(sg) => {
            let total = spec_dec_total(bins);
            if total > EPSILON {
                let wmean = sigw_sum(sg, bins, bins.len() as int) / total;
                if wmean < MIN_SIGMA {
                    MIN_SIGMA as int
                } else if wmean > MAX_SIGMA {
                    MAX_SIGMA as int
                } else {
                    wmean
                }
            } else {
                NEUTRAL_SIGMA as int
            }
        },
        None => NEUTRAL_SIGMA as int,
    }
}

/// Luminance the decoder recovers, through the bandwidth inverse.
pub open spec fn spec_dec_lum(bins: Seq<Qx>, sigma: Option<Seq<Qx>>) -> int {
    spec_lum_of_sigma(spec_dec_sigma(bins, sigma))
}

/// Coherence the decoder assigns: the dominant bin share of the total.
pub open spec fn spec_dec_coh(bins: Seq<Qx>) -> int {
    let total = spec_dec_total(bins);
    if total > EPSILON {
        spec_clamp_unit(
            pos_part(bins[spec_dominant_bin(bins, bins.len() as int)] as int) * fixed_one()
                / total,
        )
    } else {
        0
    }
}

/// The sigma buffers of a spectral tensor, viewed as sequences.
pub open spec fn sigma_view(sigma: Option<Vec<Qx>>) -> Option<Seq<Qx>> {
    match sigma {
        Some(v) => Some(v@),
        None => None,
    }
}

/// Every clamped amplitude is at most the clamped total.
proof fn lemma_pos_part_le_sum(bins: Seq<Qx>, j: int, n: int)
    requires
        0 <= j < n <= bins.len(),
    ensures
        pos_part(bins[j] as int) <= pos_sum(bins, n),
        0 <= pos_sum(bins, n),
    decreases n,
{
    lemma_pos_sum_nonneg(bins, n);
    if j < n - 1 {
        lemma_pos_part_le_sum(bins, j, n - 1);
    } else {
        lemma_pos_sum_nonneg(bins, n - 1);
    }
}

/// A sum of clamped amplitudes is nonnegative.
proof fn lemma_pos_sum_nonneg(bins: Seq<Qx>, n: int)
    requires
        n <= bins.len(),
    ensures
        0 <= pos_sum(bins, n),
    decreases n,
{
    if n > 0 {
        lemma_pos_sum_nonneg(bins, n - 1);
    }
}


/// Amplitude-weighted bandwidth total of a spectrum.
fn weighted_sigma_sum(sig: &Vec<Qx>, bins: &Vec<Qx>) -> (sw: i128)
    requires
        sig@.len() == bins@.len(),
        bins@.len() <= 0x100_0000,
        crate::spectral::values_nonneg_bounded(sig@),
        crate::spectral::values_bounded(bins@),
    ensures
        sw == sigw_sum(sig@, bins@, bins@.len() as int),
        0 <= sw,
{
    let n = bins.len();
    let mut sw: i128 = 0;
    let mut j: usize = 0;
    while j < n
        invariant
            j <= n,
            n == bins@.len(),
            sig@.len() == n,
            bins@.len() <= 0x100_0000,
            crate::spectral::values_nonneg_bounded(sig@),
            crate::spectral::values_bounded(bins@),
            sw == sigw_sum(sig@, bins@, j as int),
            0 <= sw <= j as int * (SPECTRAL_VALUE_MAX * SPECTRAL_VALUE_MAX),
        decreases n - j,
    {
        proof {
            assert(SPECTRAL_VALUE_MAX * SPECTRAL_VALUE_MAX == 0x10_0000_0000_0000)
                by (nonlinear_arith);
            assert(qabs(bins@[j as int] as int) <= SPECTRAL_VALUE_MAX);
            assert(0 <= sig@[j as int] && sig@[j as int] <= SPECTRAL_VALUE_MAX);
            assert(j as int * (SPECTRAL_VALUE_MAX * SPECTRAL_VALUE_MAX) + SPECTRAL_VALUE_MAX
                * SPECTRAL_VALUE_MAX == (j + 1) * (SPECTRAL_VALUE_MAX * SPECTRAL_VALUE_MAX))
                by (nonlinear_arith);
            assert(j as int * (SPECTRAL_VALUE_MAX * SPECTRAL_VALUE_MAX) <= 0x100_0000
                * (SPECTRAL_VALUE_MAX * SPECTRAL_VALUE_MAX)) by (nonlinear_arith)
                requires
                    0 <= j as int <= 0x100_0000,
            ;
        }
        let v = bins[j];
        let p: i64 = if v > 0 {
            v as i64
        } else {
            0
        };
        let sv = sig[j];
        proof {
            assert(0 <= sv as int * (p as int) <= SPECTRAL_VALUE_MAX * SPECTRAL_VALUE_MAX)
                by (nonlinear_arith)
                requires
                    0 <= sv as int <= SPECTRAL_VALUE_MAX,
                    0 <= p as int <= SPECTRAL_VALUE_MAX,
            ;
        }
        let term: i64 = (sv as i64) * p;
        sw = sw + term as i128;
        j += 1;
    }
    sw
}

/// Decodes a spectral tensor back into a single-cell chromatic tensor.
pub fn decode_to_chromatic(spectral: &SpectralTensor) -> (t: ChromaticTensor)
    requires
        spectral.wf(),
    ensures
        t.wf(),
        t.shape.h == 1,
        t.shape.w == 1,
        t.rgb@.len() == 3,
        t.rgb@[0] as int == crate::color::spec_hsl_to_rgb_r(
            spec_dec_hue(spectral.bins@),
            spec_dec_sat(spectral.bins@),
            spec_dec_lum(spectral.bins@, sigma_view(spectral.sigma)),
        ),
        t.rgb@[1] as int == crate::color::spec_hsl_to_rgb_g(
            spec_dec_hue(spectral.bins@),
            spec_dec_sat(spectral.bins@),
            spec_dec_lum(spectral.bins@, sigma_view(spectral.sigma)),
        ),
        t.rgb@[2] as int == crate::color::spec_hsl_to_rgb_b(
            spec_dec_hue(spectral.bins@),
            spec_dec_sat(spectral.bins@),
            spec_dec_lum(spectral.bins@, sigma_view(spectral.sigma)),
        ),
        t.coh is Some,
        t.coh->0@.len() == 1,
        t.coh->0@[0] as int == spec_dec_coh(spectral.bins@),
{
    let bins = &spectral.bins;
    let n = bins.len();
    let unit = DEFAULT_FIXED_SCALE as i64;

    // total energy and index-weighted energy
    let mut total: i64 = 0;
    let mut widx: i128 = 0;
    let mut i: usize = 0;
    while i < n
        invariant
            i <= n,
            spectral.wf(),
            bins == &spectral.bins,
            n == bins@.len(),
            total == pos_sum(bins@, i as int),
            widx == widx_sum(bins@, i as int),
            0 <= total <= i as int * SPECTRAL_VALUE_MAX,
            0 <= widx,
            widx <= (n as int - 1) * total,
        decreases n - i,
    {
        proof {
            assert(i as int * SPECTRAL_VALUE_MAX + SPECTRAL_VALUE_MAX == (i + 1)
                * SPECTRAL_VALUE_MAX) by (nonlinear_arith);
            assert(i as int * SPECTRAL_VALUE_MAX <= 0x100_0000 * SPECTRAL_VALUE_MAX)
                by (nonlinear_arith)
                requires
                    0 <= i as int <= 0x100_0000,
            ;
        }
        let v = bins[i];
        proof {
            assert(qabs(bins@[i as int] as int) <= SPECTRAL_VALUE_MAX);
        }
        let p: i64 = if v > 0 {
            v as i64
        } else {
            0
        };
        proof {
            assert((n as int - 1) * (total as int) <= 0x100_0000 * (0x100_0000
                * SPECTRAL_VALUE_MAX)) by (nonlinear_arith)
                requires
                    0 <= total as int <= 0x100_0000 * SPECTRAL_VALUE_MAX,
                    0 <= n as int - 1 <= 0x100_0000,
            ;
            assert(widx + i as int * p as int <= (n as int - 1) * (total + p as int))
                by (nonlinear_arith)
                requires
                    widx as int <= (n as int - 1) * (total as int),
                    0 <= i as int <= n as int - 1,
                    0 <= p as int,
                    0 <= total as int,
            ;
            assert(0 <= i as int * p as int) by (nonlinear_arith)
                requires
                    0 <= i as int,
                    0 <= p as int,
            ;
            assert(i as int * p as int <= 0x100_0000 * 0x400_0000) by (nonlinear_arith)
                requires
                    0 <= i as int <= 0x100_0000,
                    0 <= p as int <= 0x400_0000,
            ;
        }
        total = total + p;
        widx = widx + (i as i128) * (p as i128);
        i += 1;
    }
    proof {
        assert(widx <= (n as int - 1) * total);
        assert((n as int - 1) * total <= 0x100_0000 * (0x100_0000 * SPECTRAL_VALUE_MAX))
            by (nonlinear_arith)
            requires
                0 <= total as int <= 0x100_0000 * SPECTRAL_VALUE_MAX,
                0 <= n as int - 1 <= 0x100_0000,
        ;
    }

    // hue from the weighted mean bin index
    let hue: Qx = if total > EPSILON as i64 {
        proof {
            assert(widx * unit as int <= ((n as int - 1) * total) * fixed_one())
                by (nonlinear_arith)
                requires
                    0 <= widx as int <= (n as int - 1) * (total as int),
                    fixed_one() > 0,
                    unit == fixed_one(),
            ;
            assert(((n as int - 1) * total) * fixed_one() == ((n as int - 1) * fixed_one())
                * total) by (nonlinear_arith);
            lemma_div_is_ordered(
                widx as int * fixed_one(),
                ((n as int - 1) * fixed_one()) * (total as int),
                total as int,
            );
            lemma_div_by_multiple((n as int - 1) * fixed_one(), total as int);
            lemma_div_pos_is_pos(widx as int * fixed_one(), total as int);
            assert((n as int - 1) * fixed_one() <= 0x100_0000 * 0x10_0000) by (nonlinear_arith)
                requires
                    0 <= n as int - 1 <= 0x100_0000,
            ;
        }
        let mean_q: i128 = widx * (unit as i128) / (total as i128);
        proof {
            lemma_div_pos_is_pos(mean_q as int, HUE_CATEGORIES as int);
            lemma_div_is_ordered(0, mean_q as int, HUE_CATEGORIES as int);
        }
        let mq12: i128 = mean_q / (HUE_CATEGORIES as i128);
        let hf: i64 = if mq12 > unit as i128 {
            unit
        } else {
            mq12 as i64
        };
        proof {
            if hf as int == fixed_one() {
                vstd::arithmetic::div_mod::lemma_mod_self_0(fixed_one());
            } else {
                vstd::arithmetic::div_mod::lemma_small_mod(hf as nat, fixed_one() as nat);
            }
        }
        if hf == unit {
            0
        } else {
            hf as Qx
        }
    } else {
        0
    };

    // saturation from the clamped total energy
    let saturation: Qx = if total > DEFAULT_FIXED_SCALE as i64 {
        DEFAULT_FIXED_SCALE
    } else {
        total as Qx
    };

    // bandwidth from the amplitude-weighted mean, then luminance
    let sigma_value: Qx = match &spectral.sigma {
        Some(sig) => {
            if total > EPSILON as i64 {
                let sw = weighted_sigma_sum(sig, bins);
                proof {
                    lemma_div_pos_is_pos(sw as int, total as int);
                }
                let wmean: i128 = sw / (total as i128);
                if wmean < MIN_SIGMA as i128 {
                    MIN_SIGMA
                } else if wmean > MAX_SIGMA as i128 {
                    MAX_SIGMA
                } else {
                    wmean as Qx
                }
            } else {
                NEUTRAL_SIGMA
            }
        },
        None => NEUTRAL_SIGMA,
    };
    let luminance = sigma_to_luminance(sigma_value);
    proof {
        assert(spec_lum_of_sigma(sigma_value as int) == spec_dec_lum(
            spectral.bins@,
            sigma_view(spectral.sigma),
        ));
    }

    let (r, g, b) = crate::color::hsl_to_rgb(hue, saturation, luminance);

    // coherence from the dominant bin share
    let coherence: Qx = if total > EPSILON as i64 {
        let idx = dominant_bin(spectral);
        let amp_raw = bins[idx];
        let amp: i64 = if amp_raw > 0 {
            amp_raw as i64
        } else {
            0
        };
        proof {
            lemma_pos_part_le_sum(bins@, idx as int, n as int);
            lemma_ratio_unit_bridge(amp as int, total as int);
        }
        clamp_unit((amp * unit / total) as Qx)
    } else {
        0
    };

    let shape = crate::layout::Shape2D::new(1, 1);
    let mut rgb_vec: Vec<Qx> = Vec::new();
    rgb_vec.push(r);
    rgb_vec.push(g);
    rgb_vec.push(b);
    let mut coh_vec: Vec<Qx> = Vec::new();
    coh_vec.push(coherence);
    ChromaticTensor::new(shape, rgb_vec, Some(coh_vec))
}


/// Sum of the horizontal hue-embedding coordinates over the first `n`
/// cells.
pub open spec fn emb_x_sum(rgb: Seq<Qx>, n: int) -> int
    decreases n,
{
    if n <= 0 {
        0
    } else {
        emb_x_sum(rgb, n - 1) + crate::color::spec_hue_embed_x(cell_h(rgb, n - 1))
    }
}

/// Sum of the vertical hue-embedding coordinates over the first `n` cells.
pub open spec fn emb_y_sum(rgb: Seq<Qx>, n: int) -> int
    decreases n,
{
    if n <= 0 {
        0
    } else {
        emb_y_sum(rgb, n - 1) + crate::color::spec_hue_embed_y(cell_h(rgb, n - 1))
    }
}

/// Sum of cell saturations over the first `n` cells.
pub open spec fn sat_sum(rgb: Seq<Qx>, n: int) -> int
    decreases n,
{
    if n <= 0 {
        0
    } else {
        sat_sum(rgb, n - 1) + cell_s(rgb, n - 1)
    }
}

/// Sum of cell lightness values over the first `n` cells.
pub open spec fn lum_sum(rgb: Seq<Qx>, n: int) -> int
    decreases n,
{
    if n <= 0 {
        0
    } else {
        lum_sum(rgb, n - 1) + cell_l(rgb, n - 1)
    }
}

/// Circular mean hue of a grid: the unembedding of the summed embedding
/// coordinates, or zero when the coordinates cancel exactly.
pub open spec fn spec_mean_h(rgb: Seq<Qx>, n: int) -> int {
    if emb_x_sum(rgb, n) == 0 && emb_y_sum(rgb, n) == 0 {
        0
    } else {
        crate::color::spec_hue_unembed(emb_x_sum(rgb, n), emb_y_sum(rgb, n))
    }
}

/// Mean saturation of a grid.
pub open spec fn spec_mean_s(rgb: Seq<Qx>, n: int) -> int {
    sat_sum(rgb, n) / n
}

/// Mean lightness of a grid.
pub open spec fn spec_mean_l(rgb: Seq<Qx>, n: int) -> int {
    lum_sum(rgb, n) / n
}

/// Computes the circular mean hue together with the mean saturation and
/// lightness of a chromatic tensor.
pub fn mean_hsl(chromatic: &ChromaticTensor) -> (hsl: (Qx, Qx, Qx))
    requires
        chromatic.wf(),
    ensures
        hsl.0 as int == spec_mean_h(chromatic.rgb@, chromatic.shape.spec_cell_count()),
        hsl.1 as int == spec_mean_s(chromatic.rgb@, chromatic.shape.spec_cell_count()),
        hsl.2 as int == spec_mean_l(chromatic.rgb@, chromatic.shape.spec_cell_count()),
        hue_in_range(hsl.0 as int),
        unit_in_range(hsl.1 as int),
        unit_in_range(hsl.2 as int),
{
    let rgb = &chromatic.rgb;
    let cells = chromatic.shape.cell_count();
    let mut ex: i64 = 0;
    let mut ey: i64 = 0;
    let mut ss: i64 = 0;
    let mut ls: i64 = 0;
    let mut k: usize = 0;
    while k < cells
        invariant
            k <= cells,
            chromatic.wf(),
            rgb == &chromatic.rgb,
            cells == chromatic.shape.spec_cell_count(),
            ex == emb_x_sum(rgb@, k as int),
            ey == emb_y_sum(rgb@, k as int),
            ss == sat_sum(rgb@, k as int),
            ls == lum_sum(rgb@, k as int),
            -(k as int * fixed_one()) <= ex <= k as int * fixed_one(),
            -(k as int * fixed_one()) <= ey <= k as int * fixed_one(),
            0 <= ss <= k as int * fixed_one(),
            0 <= ls <= k as int * fixed_one(),
        decreases cells - k,
    {
        proof {
            assert(3 * (k as int) + 3 <= 3 * chromatic.shape.spec_cell_count());
            assert(k as int * fixed_one() + fixed_one() == (k as int + 1) * fixed_one())
                by (nonlinear_arith);
            assert(k as int * fixed_one() <= 0x100_0000 * fixed_one()) by (nonlinear_arith)
                requires
                    0 <= k as int <= 0x100_0000,
            ;
        }
        let off = k * 3;
        let (h, s, l) = crate::color::rgb_to_hsl(rgb[off], rgb[off + 1], rgb[off + 2]);
        let (x, y) = crate::color::hue_embed(h);
        ex = ex + x as i64;
        ey = ey + y as i64;
        ss = ss + s as i64;
        ls = ls + l as i64;
        k += 1;
    }
    proof {
        crate::tensor::lemma_mean_in_unit(ss as int, cells as int);
        crate::tensor::lemma_mean_in_unit(ls as int, cells as int);
    }
    let hue: Qx = if ex == 0 && ey == 0 {
        0
    } else {
        crate::color::hue_unembed(ex, ey)
    };
    let s_mean = (ss / cells as i64) as Qx;
    let l_mean = (ls / cells as i64) as Qx;
    (hue, s_mean, l_mean)
}

/// The spectrum the encoder produces from a grid, at the specification
/// level: its amplitudes and its bandwidths.
pub open spec fn spec_encoded_bins(rgb: Seq<Qx>, n: int) -> Seq<Qx> {
    Seq::new(HUE_CATEGORIES as nat, |i: int| spec_encode_bin(rgb, i, n) as Qx)
}

/// The bandwidths the encoder produces from a grid.
pub open spec fn spec_encoded_sigma(rgb: Seq<Qx>, n: int) -> Seq<Qx> {
    Seq::new(HUE_CATEGORIES as nat, |i: int| spec_encode_sigma(rgb, i, n) as Qx)
}

/// The three round-trip deltas of a grid: how far the hue, saturation and
/// lightness recovered by decoding its encoding sit from its own circular
/// means; the hue delta is seam-aware.
pub open spec fn spec_round_trip_ok(rgb: Seq<Qx>, n: int) -> bool {
    let bins = spec_encoded_bins(rgb, n);
    let sigma = spec_encoded_sigma(rgb, n);
    let dh = spec_dec_hue(bins);
    let ds = spec_dec_sat(bins);
    let dl = spec_dec_lum(bins, Some(sigma));
    let rr = crate::color::spec_hsl_to_rgb_r(dh, ds, dl);
    let rg = crate::color::spec_hsl_to_rgb_g(dh, ds, dl);
    let rb = crate::color::spec_hsl_to_rgb_b(dh, ds, dl);
    let rh = crate::color::spec_hsl_h(rr, rg, rb);
    let rs = crate::color::spec_hsl_s(rr, rg, rb);
    let rl = crate::color::spec_hsl_l(rr, rg, rb);
    &&& qabs(crate::color::spec_wrap_signed(rh - spec_mean_h(rgb, n)))
        <= ROUND_TRIP_TOLERANCE
    &&& qabs(rs - spec_mean_s(rgb, n)) <= ROUND_TRIP_TOLERANCE
    &&& qabs(rl - spec_mean_l(rgb, n)) <= ROUND_TRIP_TOLERANCE
}

/// Validates that encoding and then decoding the tensor reproduces its
/// circular-mean hue, saturation and lightness within the round-trip
/// tolerance.
pub fn validate_round_trip(chromatic: &ChromaticTensor) -> (ok: bool)
    requires
        chromatic.wf(),
    ensures
        ok == spec_round_trip_ok(chromatic.rgb@, chromatic.shape.spec_cell_count()),
{
    let mean = mean_hsl(chromatic);
    let sp = encode_to_spectral(chromatic);
    let decoded = decode_to_chromatic(&sp);
    let rgb = decoded.rgb_at(0, 0);
    let reconstructed = crate::color::rgb_to_hsl(rgb[0], rgb[1], rgb[2]);
    let (dh, ds, dl) = crate::color::delta_hsl(mean, reconstructed);
    proof {
        let ghost n = chromatic.shape.spec_cell_count();
        assert(sp.bins@ =~= spec_encoded_bins(chromatic.rgb@, n));
        assert(sp.sigma->0@ =~= spec_encoded_sigma(chromatic.rgb@, n));
    }
    let adh = if dh < 0 {
        -dh
    } else {
        dh
    };
    let ads = if ds < 0 {
        -ds
    } else {
        ds
    };
    let adl = if dl < 0 {
        -dl
    } else {
        dl
    };
    adh <= ROUND_TRIP_TOLERANCE && ads <= ROUND_TRIP_TOLERANCE && adl <= ROUND_TRIP_TOLERANCE
}


/// True when every cell of the grid carries the same RGB triplet as the
/// first cell.
pub open spec fn uniform_grid(rgb: Seq<Qx>, n: int) -> bool {
    &&& rgb.len() == 3 * n
    &&& forall|k: int, c: int| 0 <= k < n && 0 <= c < 3 ==> #[trigger] rgb[3 * k + c] == rgb[c]
}

/// On a uniform grid every cell shares the first cell's color statistics
/// and bin weights.
proof fn lemma_uniform_cell(rgb: Seq<Qx>, n: int, k: int)
    requires
        uniform_grid(rgb, n),
        0 <= k < n,
    ensures
        cell_h(rgb, k) == cell_h(rgb, 0),
        cell_s(rgb, k) == cell_s(rgb, 0),
        cell_l(rgb, k) == cell_l(rgb, 0),
        forall|i: int| #[trigger] cell_bin_w(rgb, k, i) == cell_bin_w(rgb, 0, i),
{
    assert(rgb[3 * k + 0] == rgb[0]);
    assert(rgb[3 * k + 1] == rgb[1]);
    assert(rgb[3 * k + 2] == rgb[2]);
    assert(rgb[3 * 0int + 0] == rgb[0]);
    assert(rgb[3 * 0int + 1] == rgb[1]);
    assert(rgb[3 * 0int + 2] == rgb[2]);
}

/// Per-bin accumulation over a uniform grid is the per-cell contribution
/// scaled by the number of cells seen.
proof fn lemma_uniform_enc_sums(rgb: Seq<Qx>, n: int, i: int, m: int)
    requires
        uniform_grid(rgb, n),
        0 <= m <= n,
    ensures
        enc_bin_sum(rgb, i, m) == m * (cell_s(rgb, 0) * cell_bin_w(rgb, 0, i)),
        enc_sig_sum(rgb, i, m) == m * (spec_sigma_of_lum(cell_l(rgb, 0)) * cell_bin_w(
            rgb,
            0,
            i,
        )),
        enc_cnt_sum(rgb, i, m) == m * cell_bin_w(rgb, 0, i),
    decreases m,
{
    let sv = cell_s(rgb, 0) * cell_bin_w(rgb, 0, i);
    let gv = spec_sigma_of_lum(cell_l(rgb, 0)) * cell_bin_w(rgb, 0, i);
    let cv = cell_bin_w(rgb, 0, i);
    if m <= 0 {
        assert(m * sv == 0 && m * gv == 0 && m * cv == 0) by (nonlinear_arith)
            requires
                m == 0,
        ;
    } else {
        lemma_uniform_enc_sums(rgb, n, i, m - 1);
        lemma_uniform_cell(rgb, n, m - 1);
        assert((m - 1) * sv + sv == m * sv && (m - 1) * gv + gv == m * gv && (m - 1) * cv + cv
            == m * cv) by (nonlinear_arith);
    }
}

/// The clamped sum of a buffer whose entries vanish away from two indexes
/// is the sum of the two surviving entries.
proof fn lemma_pos_sum_pair(b: Seq<Qx>, ia: int, ib: int, m: int)
    requires
        0 <= ia < b.len(),
        0 <= ib < b.len(),
        ia != ib,
        forall|i: int| 0 <= i < b.len() ==> #[trigger] b[i] >= 0,
        forall|i: int| 0 <= i < b.len() && i != ia && i != ib ==> #[trigger] b[i] == 0,
        0 <= m <= b.len(),
    ensures
        pos_sum(b, m) == (if ia < m {
            b[ia] as int
        } else {
            0
        }) + (if ib < m {
            b[ib] as int
        } else {
            0
        }),
    decreases m,
{
    if m > 0 {
        lemma_pos_sum_pair(b, ia, ib, m - 1);
    }
}

/// An amplitude-weighted bandwidth sum collapses when every slot with any
/// amplitude carries the same bandwidth.
proof fn lemma_sigw_uniform(sg: Seq<Qx>, b: Seq<Qx>, sigma: int, m: int)
    requires
        sg.len() == b.len(),
        forall|i: int|
            0 <= i < b.len() ==> #[trigger] b[i] >= 0 && (b[i] == 0 || sg[i] as int == sigma),
        0 <= m <= b.len(),
    ensures
        sigw_sum(sg, b, m) == sigma * pos_sum(b, m),
    decreases m,
{
    if m <= 0 {
        assert(sigma * 0 == 0) by (nonlinear_arith);
    } else {
        lemma_sigw_uniform(sg, b, sigma, m - 1);
        if b[m - 1] == 0 {
            assert(sg[m - 1] * pos_part(b[m - 1] as int) == 0) by (nonlinear_arith)
                requires
                    pos_part(b[m - 1] as int) == 0,
            ;
            assert(sigma * pos_sum(b, m) == sigma * pos_sum(b, m - 1)) by (nonlinear_arith)
                requires
                    pos_sum(b, m) == pos_sum(b, m - 1),
            ;
        } else {
            assert(sigma * pos_sum(b, m - 1) + sigma * pos_part(b[m - 1] as int) == sigma * (
            pos_sum(b, m - 1) + pos_part(b[m - 1] as int))) by (nonlinear_arith);
        }
    }
}

/// Decoding the encoding of a uniform grid recovers the grid's lightness
/// exactly and its saturation within one quantization step, whenever the
/// saturation clears the silence threshold. The lightness travels through
/// the bandwidth map and back without loss; the saturation loses at most
/// the single rounding step of the per-bin normalization.
pub proof fn lemma_uniform_round_trip_statistics(rgb: Seq<Qx>, n: int)
    requires
        1 <= n <= 0x100_0000,
        uniform_grid(rgb, n),
        crate::tensor::values_unit(rgb),
        cell_s(rgb, 0) >= 3,
    ensures
        spec_dec_lum(spec_encoded_bins(rgb, n), Some(spec_encoded_sigma(rgb, n)))
            == spec_mean_l(rgb, n),
        spec_dec_lum(spec_encoded_bins(rgb, n), Some(spec_encoded_sigma(rgb, n))) == cell_l(
            rgb,
            0,
        ),
        0 <= cell_s(rgb, 0) - spec_dec_sat(spec_encoded_bins(rgb, n)) <= 1,
        spec_mean_s(rgb, n) == cell_s(rgb, 0),
        spec_mean_l(rgb, n) == cell_l(rgb, 0),
{
    let u = fixed_one();
    let s0 = cell_s(rgb, 0);
    let l0 = cell_l(rgb, 0);
    let h0 = cell_h(rgb, 0);
    let sg0 = spec_sigma_of_lum(l0);
    assert(rgb[3 * 0int + 0] == rgb[0]);
    assert(rgb[3 * 0int + 1] == rgb[1]);
    assert(rgb[3 * 0int + 2] == rgb[2]);
    crate::color::lemma_hsl_ranges(rgb[0] as int, rgb[1] as int, rgb[2] as int);

    // the two bins the shared hue contributes to
    let ia = spec_bin_index(h0);
    let ib = (ia + 1) % (HUE_CATEGORIES as int);
    let frac = spec_bin_frac(h0);
    assert(spec_normalize_hue(h0) == h0) by {
        vstd::arithmetic::div_mod::lemma_small_mod(h0 as nat, u as nat);
    }
    lemma_fundamental_div_mod(HUE_CATEGORIES * h0, u);
    lemma_div_pos_is_pos(HUE_CATEGORIES * h0, u);
    lemma_div_is_ordered(HUE_CATEGORIES * h0, 12 * u - 12, u);
    assert((12 * 0x10_0000 - 12) / 0x10_0000 == 11);
    vstd::arithmetic::div_mod::lemma_mod_division_less_than_divisor(HUE_CATEGORIES * h0, u);
    assert(0 <= ia < 12);
    assert(ia != ib && 0 <= ib < 12) by {
        if ia + 1 < 12 {
            vstd::arithmetic::div_mod::lemma_small_mod((ia + 1) as nat, 12nat);
        } else {
            assert((11int + 1) % 12int == 0);
        }
    }
    let wa = u - frac;
    let wb = frac;
    assert(cell_bin_w(rgb, 0, ia) == wa);
    assert(cell_bin_w(rgb, 0, ib) == wb);
    assert(forall|i: int|
        0 <= i < 12 && i != ia && i != ib ==> #[trigger] cell_bin_w(rgb, 0, i) == 0);

    // collapse the per-bin accumulations
    let bins = spec_encoded_bins(rgb, n);
    let sigs = spec_encoded_sigma(rgb, n);
    assert forall|i: int| 0 <= i < 12 implies #[trigger] bins[i] as int == (s0 * cell_bin_w(
        rgb,
        0,
        i,
    )) / u && 0 <= bins[i] as int <= u by {
        lemma_uniform_enc_sums(rgb, n, i, n);
        let w = cell_bin_w(rgb, 0, i);
        assert(0 <= s0 * w <= u * u) by (nonlinear_arith)
            requires
                0 <= s0 <= u,
                0 <= w <= u,
        ;
        vstd::arithmetic::div_mod::lemma_div_multiples_vanish_quotient(n, s0 * w, u);
        lemma_div_pos_is_pos(s0 * w, u);
        lemma_div_is_ordered(s0 * w, u * u, u);
        lemma_div_by_multiple(u, u);
    }
    assert forall|i: int| 0 <= i < 12 implies #[trigger] sigs[i] as int == (if cell_bin_w(
        rgb,
        0,
        i,
    ) > 0 {
        sg0
    } else {
        NEUTRAL_SIGMA as int
    }) by {
        lemma_uniform_enc_sums(rgb, n, i, n);
        let w = cell_bin_w(rgb, 0, i);
        assert(0 <= w <= u);
        if w > 0 {
            assert(n * w > 0) by (nonlinear_arith)
                requires
                    n >= 1,
                    w > 0,
            ;
            vstd::arithmetic::div_mod::lemma_div_multiples_vanish_quotient(n, sg0 * w, w);
            lemma_div_by_multiple(sg0, w);
            assert(MIN_SIGMA <= sg0 <= MAX_SIGMA) by (nonlinear_arith)
                requires
                    sg0 == MIN_SIGMA + (u - crate::layout::spec_clamp_unit(l0)) * SIGMA_SPAN_HZ,
                    0 <= crate::layout::spec_clamp_unit(l0) <= u,
                    u == 0x10_0000,
            ;
        } else {
            assert(n * w == 0) by (nonlinear_arith)
                requires
                    w == 0,
            ;
        }
    }

    // total decoded energy: one step below the saturation at most
    let ba = bins[ia] as int;
    let bb = bins[ib] as int;
    assert forall|i: int| 0 <= i < 12 && i != ia && i != ib implies #[trigger] bins[i]
        == 0i32 by {
        assert(bins[i] as int == (s0 * 0) / u);
        assert(s0 * 0 == 0) by (nonlinear_arith);
    }
    lemma_pos_sum_pair(bins, ia, ib, 12);
    let total = spec_dec_total(bins);
    assert(total == ba + bb);
    assert(s0 * wa + s0 * wb == s0 * u) by (nonlinear_arith)
        requires
            wa + wb == u,
    ;
    lemma_fundamental_div_mod(s0 * wa, u);
    lemma_fundamental_div_mod(s0 * wb, u);
    vstd::arithmetic::div_mod::lemma_mod_division_less_than_divisor(s0 * wa, u);
    vstd::arithmetic::div_mod::lemma_mod_division_less_than_divisor(s0 * wb, u);
    lemma_div_by_multiple(s0, u);
    assert(s0 * u == u * s0) by (nonlinear_arith);
    let ra = (s0 * wa) % u;
    let rb = (s0 * wb) % u;
    assert(u * s0 == u * (ba + bb) + (ra + rb));
    assert(u * (s0 - total) == ra + rb) by (nonlinear_arith)
        requires
            u * s0 == u * total + (ra + rb),
    ;
    assert(0 <= s0 - total <= 1) by {
        if s0 - total >= 2 {
            assert(u * (s0 - total) >= 2 * u) by (nonlinear_arith)
                requires
                    s0 - total >= 2,
                    u > 0,
            ;
        }
        if s0 - total < 0 {
            assert(u * (s0 - total) < 0) by (nonlinear_arith)
                requires
                    s0 - total < 0,
                    u > 0,
            ;
        }
    }
    assert(total > EPSILON);
    assert(spec_dec_sat(bins) == total);

    // the bandwidth of every energetic bin is the shared bandwidth, so the
    // weighted mean collapses to it and the lightness returns exactly
    assert(sigs.len() == 12 && bins.len() == 12);
    assert forall|i: int|
        0 <= i < bins.len() implies #[trigger] bins[i] >= 0 && (bins[i] == 0 || sigs[i] as int
        == sg0) by {
        if bins[i] != 0 {
            let w = cell_bin_w(rgb, 0, i);
            assert((s0 * w) / u != 0);
            if w == 0 {
                assert(s0 * 0 == 0) by (nonlinear_arith);
            }
        }
    }
    lemma_sigw_uniform(sigs, bins, sg0, 12);
    assert(sigw_sum(sigs, bins, 12) == sg0 * total);
    vstd::arithmetic::div_mod::lemma_div_multiples_vanish(sg0, total);
    assert(spec_dec_sigma(bins, Some(sigs)) == sg0);
    lemma_bandwidth_inverse(l0);
    assert(crate::layout::spec_clamp_unit(l0) == l0);
    assert(spec_dec_lum(bins, Some(sigs)) == l0);

    // the means of a uniform grid are the shared cell statistics
    lemma_uniform_mean_sums(rgb, n, n);
    lemma_div_by_multiple(s0, n);
    lemma_div_by_multiple(l0, n);
    assert(n * s0 == s0 * n && n * l0 == l0 * n) by (nonlinear_arith);
}

/// The saturation and lightness sums of a uniform grid scale linearly.
proof fn lemma_uniform_mean_sums(rgb: Seq<Qx>, n: int, m: int)
    requires
        uniform_grid(rgb, n),
        0 <= m <= n,
    ensures
        sat_sum(rgb, m) == m * cell_s(rgb, 0),
        lum_sum(rgb, m) == m * cell_l(rgb, 0),
    decreases m,
{
    if m <= 0 {
        assert(m * cell_s(rgb, 0) == 0 && m * cell_l(rgb, 0) == 0) by (nonlinear_arith)
            requires
                m == 0,
        ;
    } else {
        lemma_uniform_mean_sums(rgb, n, m - 1);
        lemma_uniform_cell(rgb, n, m - 1);
        assert((m - 1) * cell_s(rgb, 0) + cell_s(rgb, 0) == m * cell_s(rgb, 0) && (m - 1)
            * cell_l(rgb, 0) + cell_l(rgb, 0) == m * cell_l(rgb, 0)) by (nonlinear_arith);
    }
}


/// The index-weighted sum of a buffer whose entries vanish away from two
/// indexes is carried by the two surviving entries.
proof fn lemma_widx_pair(b: Seq<Qx>, ia: int, ib: int, m: int)
    requires
        0 <= ia < b.len(),
        0 <= ib < b.len(),
        ia != ib,
        forall|i: int| 0 <= i < b.len() ==> #[trigger] b[i] >= 0,
        forall|i: int| 0 <= i < b.len() && i != ia && i != ib ==> #[trigger] b[i] == 0,
        0 <= m <= b.len(),
    ensures
        widx_sum(b, m) == ia * (if ia < m {
            b[ia] as int
        } else {
            0
        }) + ib * (if ib < m {
            b[ib] as int
        } else {
            0
        }),
    decreases m,
{
    if m > 0 {
        lemma_widx_pair(b, ia, ib, m - 1);
        if m - 1 != ia && m - 1 != ib {
            assert((m - 1) * pos_part(b[m - 1] as int) == 0) by (nonlinear_arith)
                requires
                    pos_part(b[m - 1] as int) == 0,
            ;
        }
    } else {
        assert(ia * 0 == 0 && ib * 0 == 0) by (nonlinear_arith);
    }
}

/// Away from the wrap sector, decoding the encoding of a uniform grid
/// recovers the shared hue within the round-trip tolerance, provided the
/// saturation is strong enough for the energy-weighted index mean to be
/// well conditioned.
pub proof fn lemma_uniform_round_trip_hue(rgb: Seq<Qx>, n: int)
    requires
        1 <= n <= 0x100_0000,
        uniform_grid(rgb, n),
        crate::tensor::values_unit(rgb),
        cell_s(rgb, 0) >= 256,
        12 * cell_h(rgb, 0) < 11 * fixed_one(),
    ensures
        qabs(spec_dec_hue(spec_encoded_bins(rgb, n)) - cell_h(rgb, 0)) <= ROUND_TRIP_TOLERANCE,
{
    let u = fixed_one();
    let s0 = cell_s(rgb, 0);
    let l0 = cell_l(rgb, 0);
    let h0 = cell_h(rgb, 0);
    assert(rgb[3 * 0int + 0] == rgb[0]);
    assert(rgb[3 * 0int + 1] == rgb[1]);
    assert(rgb[3 * 0int + 2] == rgb[2]);
    crate::color::lemma_hsl_ranges(rgb[0] as int, rgb[1] as int, rgb[2] as int);

    let ia = spec_bin_index(h0);
    let ib = (ia + 1) % (HUE_CATEGORIES as int);
    let frac = spec_bin_frac(h0);
    assert(spec_normalize_hue(h0) == h0) by {
        vstd::arithmetic::div_mod::lemma_small_mod(h0 as nat, u as nat);
    }
    lemma_fundamental_div_mod(HUE_CATEGORIES * h0, u);
    lemma_div_pos_is_pos(HUE_CATEGORIES * h0, u);
    lemma_div_is_ordered(HUE_CATEGORIES * h0, 11 * u - 1, u);
    assert((11 * 0x10_0000 - 1) / 0x10_0000 == 10);
    vstd::arithmetic::div_mod::lemma_mod_division_less_than_divisor(HUE_CATEGORIES * h0, u);
    assert(0 <= ia <= 10);
    assert(ib == ia + 1) by {
        vstd::arithmetic::div_mod::lemma_small_mod((ia + 1) as nat, 12nat);
    }
    let wa = u - frac;
    let wb = frac;
    assert(cell_bin_w(rgb, 0, ia) == wa);
    assert(cell_bin_w(rgb, 0, ib) == wb);
    assert(forall|i: int|
        0 <= i < 12 && i != ia && i != ib ==> #[trigger] cell_bin_w(rgb, 0, i) == 0);

    let bins = spec_encoded_bins(rgb, n);
    assert forall|i: int| 0 <= i < 12 implies #[trigger] bins[i] as int == (s0 * cell_bin_w(
        rgb,
        0,
        i,
    )) / u && 0 <= bins[i] as int <= u by {
        lemma_uniform_enc_sums(rgb, n, i, n);
        let w = cell_bin_w(rgb, 0, i);
        assert(0 <= s0 * w <= u * u) by (nonlinear_arith)
            requires
                0 <= s0 <= u,
                0 <= w <= u,
        ;
        vstd::arithmetic::div_mod::lemma_div_multiples_vanish_quotient(n, s0 * w, u);
        lemma_div_pos_is_pos(s0 * w, u);
        lemma_div_is_ordered(s0 * w, u * u, u);
        lemma_div_by_multiple(u, u);
    }
    let ba = bins[ia] as int;
    let bb = bins[ib] as int;
    assert forall|i: int| 0 <= i < 12 && i != ia && i != ib implies #[trigger] bins[i]
        == 0i32 by {
        assert(bins[i] as int == (s0 * 0) / u);
        assert(s0 * 0 == 0) by (nonlinear_arith);
    }
    lemma_pos_sum_pair(bins, ia, ib, 12);
    let total = spec_dec_total(bins);
    assert(total == ba + bb);

    // one quantization step at most between the total and the saturation
    assert(s0 * wa + s0 * wb == s0 * u) by (nonlinear_arith)
        requires
            wa + wb == u,
    ;
    lemma_fundamental_div_mod(s0 * wa, u);
    lemma_fundamental_div_mod(s0 * wb, u);
    vstd::arithmetic::div_mod::lemma_mod_division_less_than_divisor(s0 * wa, u);
    vstd::arithmetic::div_mod::lemma_mod_division_less_than_divisor(s0 * wb, u);
    lemma_div_by_multiple(s0, u);
    assert(s0 * u == u * s0) by (nonlinear_arith);
    let ra = (s0 * wa) % u;
    let rb = (s0 * wb) % u;
    assert(u * s0 == u * (ba + bb) + (ra + rb));
    assert(u * (s0 - total) == ra + rb) by (nonlinear_arith)
        requires
            u * s0 == u * total + (ra + rb),
    ;
    assert(0 <= s0 - total <= 1) by {
        if s0 - total >= 2 {
            assert(u * (s0 - total) >= 2 * u) by (nonlinear_arith)
                requires
                    s0 - total >= 2,
                    u > 0,
            ;
        }
        if s0 - total < 0 {
            assert(u * (s0 - total) < 0) by (nonlinear_arith)
                requires
                    s0 - total < 0,
                    u > 0,
            ;
        }
    }
    assert(total > EPSILON);

    // the index mean splits into the first bin index plus a share of the
    // second bin's energy
    lemma_widx_pair(bins, ia, ib, 12);
    let widx = widx_sum(bins, 12);
    assert(widx == ia * total + bb) by (nonlinear_arith)
        requires
            widx == ia * ba + (ia + 1) * bb,
            total == ba + bb,
    ;
    assert(widx * u == bb * u + (ia * u) * total) by (nonlinear_arith)
        requires
            widx == ia * total + bb,
    ;
    vstd::arithmetic::div_mod::lemma_hoist_over_denominator(bb * u, ia * u, total as nat);
    let q = (bb * u) / total;
    let mq = widx * u / total;
    assert(mq == ia * u + q);

    // the energy share tracks the interpolation weight
    assert(bb * u == s0 * wb - rb);
    assert(total * (wb + 8193) > s0 * wb) by (nonlinear_arith)
        requires
            total >= s0 - 1,
            s0 >= 256,
            0 <= wb <= u,
            u == 0x10_0000,
    ;
    vstd::arithmetic::div_mod::lemma_multiply_divide_lt(bb * u, total, wb + 8193);
    assert(q <= wb + 8192);
    if wb >= 8192 {
        assert(total * (wb - 8192) <= bb * u) by (nonlinear_arith)
            requires
                0 < total <= s0,
                bb * u == s0 * wb - rb,
                0 <= rb < u,
                s0 >= 256,
                u == 0x10_0000,
                wb >= 8192,
        ;
        lemma_div_is_ordered(total * (wb - 8192), bb * u, total);
        lemma_div_by_multiple(wb - 8192, total);
        assert(total * (wb - 8192) == (wb - 8192) * total) by (nonlinear_arith);
    } else {
        lemma_div_pos_is_pos(bb * u, total);
    }
    assert(wb - 8192 <= q <= wb + 8192);

    // back to the hue scale
    assert(HUE_CATEGORIES * h0 == u * ia + frac);
    assert(12 * h0 - 8192 <= mq <= 12 * h0 + 8192) by (nonlinear_arith)
        requires
            mq == ia * u + q,
            wb - 8192 <= q <= wb + 8192,
            12 * h0 == u * ia + wb,
    ;
    let hf = mq / 12;
    lemma_div_pos_is_pos(mq, 12);
    lemma_div_is_ordered(mq, 12 * (h0 + 683), 12);
    lemma_div_by_multiple(h0 + 683, 12);
    assert(12 * (h0 + 683) == (h0 + 683) * 12 && 12 * h0 + 8192 <= 12 * (h0 + 683))
        by (nonlinear_arith);
    assert(hf <= h0 + 683);
    if h0 >= 683 {
        lemma_div_is_ordered(12 * (h0 - 683), mq, 12);
        lemma_div_by_multiple(h0 - 683, 12);
        assert(12 * (h0 - 683) == (h0 - 683) * 12 && 12 * (h0 - 683) <= 12 * h0 - 8192)
            by (nonlinear_arith);
    }
    assert(h0 - 683 <= hf <= h0 + 683);

    // the clamped, normalized mean stays put: it is already a hue below
    // the wrap sector
    assert(h0 + 683 < u);
    assert(hf % u == hf) by {
        vstd::arithmetic::div_mod::lemma_small_mod(hf as nat, u as nat);
    }
    assert(spec_dec_hue(bins) == hf);
}

} // verus!
