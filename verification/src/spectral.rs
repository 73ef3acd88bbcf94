//! Spectral tensor representation for deterministic frequency analysis.

use vstd::prelude::*;

use crate::quant::DEFAULT_FIXED_SCALE;
use crate::Qx;

verus! {

/// Upper bound on the number of frequency bins a spectral tensor may hold.
pub const MAX_BINS: usize = 0x100_0000;

/// Magnitude bound on every stored amplitude and bandwidth value; keeps all
/// whole-spectrum reductions inside 64-bit arithmetic.
pub const SPECTRAL_VALUE_MAX: Qx = 64 * DEFAULT_FIXED_SCALE;

/// Absolute value of a scalar.
pub open spec fn qabs(v: int) -> int {
    if v < 0 {
        -v
    } else {
        v
    }
}

/// True when every value of the buffer is bounded in magnitude.
pub open spec fn values_bounded(s: Seq<Qx>) -> bool {
    forall|i: int| 0 <= i < s.len() ==> qabs(#[trigger] s[i] as int) <= SPECTRAL_VALUE_MAX
}

/// True when every value of the buffer is a bounded nonnegative width.
pub open spec fn values_nonneg_bounded(s: Seq<Qx>) -> bool {
    forall|i: int| 0 <= i < s.len() ==> 0 <= #[trigger] s[i] && s[i] <= SPECTRAL_VALUE_MAX
}

/// Sum of absolute amplitudes over the first `n` bins.
pub open spec fn energy_sum(bins: Seq<Qx>, n: int) -> int
    decreases n,
{
    if n <= 0 {
        0
    } else {
        energy_sum(bins, n - 1) + qabs(bins[n - 1] as int)
    }
}

/// An energy sum over bounded values is itself bounded.
pub proof fn lemma_energy_sum_bound(bins: Seq<Qx>, n: int)
    requires
        values_bounded(bins),
        0 <= n <= bins.len(),
    ensures
        0 <= energy_sum(bins, n) <= n * SPECTRAL_VALUE_MAX,
    decreases n,
{
    if n > 0 {
        lemma_energy_sum_bound(bins, n - 1);
        assert((n - 1) * SPECTRAL_VALUE_MAX + SPECTRAL_VALUE_MAX == n * SPECTRAL_VALUE_MAX)
            by (nonlinear_arith);
    }
}

/// Spectral tensor capturing frequency-domain amplitudes and optional
/// bandwidths.
#[derive(Clone, Debug)]
pub struct SpectralTensor {
    pub bins: Vec<Qx>,
    pub sigma: Option<Vec<Qx>>,
    pub f_min: Qx,
    pub f_res: Qx,
    pub log_scale: bool,
}

impl SpectralTensor {
    /// Non-empty, bounded buffers with matching lengths.
    pub open spec fn wf(self) -> bool {
        &&& 1 <= self.bins@.len() <= MAX_BINS
        &&& values_bounded(self.bins@)
        &&& match self.sigma {
            Some(s) => s@.len() == self.bins@.len() && values_nonneg_bounded(s@),
            None => true,
        }
    }

    /// Constructs a spectral tensor validating buffer lengths.
    pub fn new(bins: Vec<Qx>, sigma: Option<Vec<Qx>>, f_min: Qx, f_res: Qx, log_scale: bool) -> (t:
        Self)
        requires
            1 <= bins@.len() <= MAX_BINS,
            values_bounded(bins@),
            match sigma {
                Some(s) => s@.len() == bins@.len() && values_nonneg_bounded(s@),
                None => true,
            },
        ensures
            t.wf(),
            t.bins == bins,
            t.sigma == sigma,
            t.f_min == f_min,
            t.f_res == f_res,
            t.log_scale == log_scale,
    {
        Self { bins, sigma, f_min, f_res, log_scale }
    }

    /// Returns the energy of the spectrum via deterministic accumulation.
    pub fn energy(&self) -> (e: i64)
        requires
            self.wf(),
        ensures
            e == energy_sum(self.bins@, self.bins@.len() as int),
            0 <= e <= self.bins@.len() * SPECTRAL_VALUE_MAX,
    {
        spectral_energy(self)
    }
}

/// Deterministic spectral energy computed as the L1 norm of the bins.
pub fn spectral_energy(spec: &SpectralTensor) -> (e: i64)
    requires
        spec.wf(),
    ensures
        e == energy_sum(spec.bins@, spec.bins@.len() as int),
        0 <= e <= spec.bins@.len() * SPECTRAL_VALUE_MAX,
{
    let n = spec.bins.len();
    let mut e: i64 = 0;
    let mut i: usize = 0;
    while i < n
        invariant
            i <= n,
            spec.wf(),
            n == spec.bins@.len(),
            e == energy_sum(spec.bins@, i as int),
            0 <= e <= i * SPECTRAL_VALUE_MAX,
        decreases n - i,
    {
        proof {
            assert(i as int * SPECTRAL_VALUE_MAX + SPECTRAL_VALUE_MAX == (i + 1)
                * SPECTRAL_VALUE_MAX) by (nonlinear_arith);
            assert(i as int * SPECTRAL_VALUE_MAX <= 0x100_0000 * SPECTRAL_VALUE_MAX)
                by (nonlinear_arith)
                requires
                    0 <= i as int <= 0x100_0000,
            ;
        }
        let v = spec.bins[i];
        let a: i64 = if v < 0 {
            -(v as i64)
        } else {
            v as i64
        };
        e = e + a;
        i += 1;
    }
    proof {
        vstd::arithmetic::mul::lemma_mul_inequality(n as int, 0x100_0000, SPECTRAL_VALUE_MAX as int);
    }
    e
}

} // verus!
