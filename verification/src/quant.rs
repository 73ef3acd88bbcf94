//! Fixed-point quantization scale and deterministic accumulators.
//!
//! The accumulator keeps a 128-bit running total of quantized 32-bit terms.
//! Because integer addition is associative and commutative, and the wide
//! total cannot saturate for any physically possible number of terms, the
//! finished value is independent of accumulation order; the public lemmas at
//! the bottom of this module state that law.

use vstd::prelude::*;

use crate::Qx;

verus! {

/// Default fixed-point scale (Q12.20) used across deterministic reductions.
pub const DEFAULT_FIXED_SCALE: i32 = 0x10_0000;

/// The fixed-point representation of the real number one.
pub open spec fn fixed_one() -> int {
    DEFAULT_FIXED_SCALE as int
}

/// Saturating addition on the wide accumulator domain.
pub open spec fn spec_sat_add(a: int, b: int) -> int {
    if a + b > i128::MAX {
        i128::MAX as int
    } else if a + b < i128::MIN {
        i128::MIN as int
    } else {
        a + b
    }
}

/// Saturation of a wide total back to the 32-bit quantized range.
pub open spec fn spec_clamp_q(v: int) -> int {
    if v > i32::MAX {
        i32::MAX as int
    } else if v < i32::MIN {
        i32::MIN as int
    } else {
        v
    }
}

/// Plain mathematical sum of a sequence of terms.
pub open spec fn qsum(s: Seq<int>) -> int
    decreases s.len(),
{
    if s.len() == 0 {
        0
    } else {
        qsum(s.drop_last()) + s.last()
    }
}

/// Left-to-right saturating fold, the exact model of repeated accumulation.
pub open spec fn sat_fold(start: int, s: Seq<int>) -> int
    decreases s.len(),
{
    if s.len() == 0 {
        start
    } else {
        spec_sat_add(sat_fold(start, s.drop_last()), s.last())
    }
}

/// The terms a buffer of unit-scale values contributes to an accumulator of
/// the given scale.
pub open spec fn requantized_terms(s: Seq<Qx>, scale: int) -> Seq<int> {
    s.map_values(|v: Qx| spec_clamp_q(spec_requantize(v as int, scale)))
}

/// True when every term of the sequence fits the quantized 32-bit range.
pub open spec fn all_terms_q(s: Seq<int>) -> bool {
    forall|i: int| 0 <= i < s.len() ==> i32::MIN <= #[trigger] s[i] <= i32::MAX
}

fn sat_add_i128(a: i128, b: i128) -> (r: i128)
    ensures
        r == spec_sat_add(a as int, b as int),
{
    if b > 0 && a > i128::MAX - b {
        i128::MAX
    } else if b < 0 && a < i128::MIN - b {
        i128::MIN
    } else {
        a + b
    }
}

/// Requantization of a unit-scale value onto the integer grid of `scale`,
/// rounding half away from zero.
pub open spec fn spec_requantize(v: int, scale: int) -> int {
    if v >= 0 {
        (v * scale + fixed_one() / 2) / fixed_one()
    } else {
        -(((-v) * scale + fixed_one() / 2) / fixed_one())
    }
}

/// Return of a `scale`-grid value to the unit scale, rounding half away
/// from zero.
pub open spec fn spec_dequantize(v: int, scale: int) -> int {
    if v >= 0 {
        (v * fixed_one() + scale / 2) / scale
    } else {
        -(((-v) * fixed_one() + scale / 2) / scale)
    }
}

/// Quantizes a unit-scale value into the fixed-point grid of `scale`,
/// saturating to the representable 32-bit range.
pub fn quantize_scalar(value: Qx, scale: i32) -> (r: Qx)
    requires
        scale > 0,
    ensures
        r == spec_clamp_q(spec_requantize(value as int, scale as int)),
{
    let unit = DEFAULT_FIXED_SCALE as i64;
    let magnitude: i64 = if value >= 0 {
        value as i64
    } else {
        -(value as i64)
    };
    proof {
        assert(magnitude * (scale as i64) <= 0x4000_0000_0000_0000) by (nonlinear_arith)
            requires
                0 <= magnitude <= 0x8000_0000i64,
                0 <= scale <= 0x7fff_ffffi32,
        ;
    }
    let scaled = (magnitude * scale as i64 + unit / 2) / unit;
    proof {
        vstd::arithmetic::div_mod::lemma_div_pos_is_pos(
            magnitude as int * scale as int + fixed_one() / 2,
            fixed_one(),
        );
    }
    let signed: i64 = if value >= 0 {
        scaled
    } else {
        -scaled
    };
    if signed > i32::MAX as i64 {
        i32::MAX
    } else if signed < i32::MIN as i64 {
        i32::MIN
    } else {
        signed as i32
    }
}

/// Dequantizes a `scale`-grid value back to the unit scale, saturating to
/// the representable 32-bit range.
pub fn dequantize_scalar(value: Qx, scale: i32) -> (r: Qx)
    requires
        scale > 0,
    ensures
        r == spec_clamp_q(spec_dequantize(value as int, scale as int)),
{
    let unit = DEFAULT_FIXED_SCALE as i64;
    let magnitude: i64 = if value >= 0 {
        value as i64
    } else {
        -(value as i64)
    };
    proof {
        assert(magnitude * unit <= 0x4000_0000_0000_0000) by (nonlinear_arith)
            requires
                0 <= magnitude <= 0x8000_0000i64,
                unit == 0x10_0000i64,
        ;
    }
    let scaled = (magnitude * unit + (scale / 2) as i64) / scale as i64;
    proof {
        vstd::arithmetic::div_mod::lemma_div_pos_is_pos(
            magnitude as int * fixed_one() + scale as int / 2,
            scale as int,
        );
    }
    let signed: i64 = if value >= 0 {
        scaled
    } else {
        -scaled
    };
    if signed > i32::MAX as i64 {
        i32::MAX
    } else if signed < i32::MIN as i64 {
        i32::MIN
    } else {
        signed as i32
    }
}

/// Deterministic accumulator performing fixed-point reductions.
#[derive(Clone, Copy, Debug, PartialEq, Eq, Structural)]
pub struct FixedAccumulator {
    scale: i32,
    sum: i128,
}

impl FixedAccumulator {
    /// True when the accumulator carries a usable scale.
    pub closed spec fn wf(self) -> bool {
        self.scale > 0
    }

    /// The quantization scale the accumulator was built with.
    pub closed spec fn spec_scale(self) -> int {
        self.scale as int
    }

    /// The wide running total.
    pub closed spec fn spec_sum(self) -> int {
        self.sum as int
    }

    /// Creates a new accumulator using the provided scale.
    pub fn new(scale: i32) -> (acc: Self)
        requires
            scale > 0,
        ensures
            acc.wf(),
            acc.spec_scale() == scale,
            acc.spec_sum() == 0,
    {
        Self { scale, sum: 0 }
    }

    /// Creates an accumulator using the default project-wide scale.
    pub fn with_default_scale() -> (acc: Self)
        ensures
            acc.wf(),
            acc.spec_scale() == DEFAULT_FIXED_SCALE,
            acc.spec_sum() == 0,
    {
        Self::new(DEFAULT_FIXED_SCALE)
    }

    /// Returns the scale associated with this accumulator.
    pub fn scale(&self) -> (s: i32)
        ensures
            s == self.spec_scale(),
    {
        self.scale
    }

    /// Returns the raw quantized sum.
    pub fn sum(&self) -> (s: i128)
        ensures
            s == self.spec_sum(),
    {
        self.sum
    }

    /// Accumulates a unit-scale value by quantizing it first.
    pub fn accumulate(&mut self, value: Qx)
        requires
            old(self).wf(),
        ensures
            final(self).wf(),
            final(self).spec_scale() == old(self).spec_scale(),
            final(self).spec_sum() == spec_sat_add(
                old(self).spec_sum(),
                spec_clamp_q(spec_requantize(value as int, old(self).spec_scale())),
            ),
    {
        let quantized = quantize_scalar(value, self.scale);
        self.accumulate_quantized(quantized);
    }

    /// Accumulates a buffer of unit-scale values deterministically.
    pub fn accumulate_all(&mut self, values: &Vec<Qx>)
        requires
            old(self).wf(),
        ensures
            final(self).wf(),
            final(self).spec_scale() == old(self).spec_scale(),
            final(self).spec_sum() == sat_fold(
                old(self).spec_sum(),
                requantized_terms(values@, old(self).spec_scale()),
            ),
    {
        let ghost terms = requantized_terms(values@, self.spec_scale());
        let mut i: usize = 0;
        while i < values.len()
            invariant
                i <= values.len(),
                self.wf(),
                terms == requantized_terms(values@, self.spec_scale()),
                self.spec_scale() == old(self).spec_scale(),
                self.spec_sum() == sat_fold(old(self).spec_sum(), terms.subrange(0, i as int)),
            decreases values.len() - i,
        {
            self.accumulate(values[i]);
            proof {
                assert(terms.subrange(0, i + 1).drop_last() =~= terms.subrange(0, i as int));
            }
            i += 1;
        }
        proof {
            assert(terms.subrange(0, values.len() as int) =~= terms);
        }
    }

    /// Performs a deterministic saturating sum at the default scale.
    pub fn sum_slice(values: &Vec<Qx>) -> (r: Qx)
        ensures
            r == spec_clamp_q(
                sat_fold(0, requantized_terms(values@, DEFAULT_FIXED_SCALE as int)),
            ),
    {
        let mut acc = Self::with_default_scale();
        acc.accumulate_all(values);
        acc.finish_quantized()
    }

    /// Accumulates a pre-quantized fixed-point value.
    pub fn accumulate_quantized(&mut self, value: Qx)
        ensures
            old(self).wf() ==> final(self).wf(),
            final(self).spec_scale() == old(self).spec_scale(),
            final(self).spec_sum() == spec_sat_add(old(self).spec_sum(), value as int),
    {
        self.sum = sat_add_i128(self.sum, value as i128);
    }

    /// Accumulates a whole buffer of pre-quantized values in order.
    pub fn accumulate_quantized_all(&mut self, values: &Vec<Qx>)
        ensures
            old(self).wf() ==> final(self).wf(),
            final(self).spec_scale() == old(self).spec_scale(),
            final(self).spec_sum() == sat_fold(
                old(self).spec_sum(),
                values@.map_values(|v: Qx| v as int),
            ),
    {
        let ghost terms = values@.map_values(|v: Qx| v as int);
        let mut i: usize = 0;
        while i < values.len()
            invariant
                i <= values.len(),
                terms == values@.map_values(|v: Qx| v as int),
                self.spec_scale() == old(self).spec_scale(),
                self.spec_sum() == sat_fold(old(self).spec_sum(), terms.subrange(0, i as int)),
            decreases values.len() - i,
        {
            self.accumulate_quantized(values[i]);
            proof {
                assert(terms.subrange(0, i + 1).drop_last() =~= terms.subrange(0, i as int));
            }
            i += 1;
        }
        proof {
            assert(terms.subrange(0, values.len() as int) =~= terms);
        }
    }

    /// Merges another accumulator into `self`; the scales must match.
    pub fn merge(&mut self, other: &Self)
        requires
            old(self).spec_scale() == other.spec_scale(),
        ensures
            old(self).wf() ==> final(self).wf(),
            final(self).spec_scale() == old(self).spec_scale(),
            final(self).spec_sum() == spec_sat_add(old(self).spec_sum(), other.spec_sum()),
    {
        self.sum = sat_add_i128(self.sum, other.sum);
    }

    /// Returns the accumulated value saturated back to the quantized range.
    pub fn finish_quantized(self) -> (r: Qx)
        ensures
            r == spec_clamp_q(self.spec_sum()),
    {
        if self.sum > i32::MAX as i128 {
            i32::MAX
        } else if self.sum < i32::MIN as i128 {
            i32::MIN
        } else {
            self.sum as i32
        }
    }
}

/// Removing one term subtracts exactly that term from the sum.
proof fn lemma_qsum_remove(s: Seq<int>, i: int)
    requires
        0 <= i < s.len(),
    ensures
        qsum(s.remove(i)) == qsum(s) - s[i],
    decreases s.len(),
{
    if i == s.len() - 1 {
        assert(s.remove(i) =~= s.drop_last());
    } else {
        assert(s.remove(i).drop_last() =~= s.drop_last().remove(i));
        lemma_qsum_remove(s.drop_last(), i);
    }
}

/// The mathematical sum depends only on the multiset of terms.
pub proof fn lemma_qsum_permutation(s1: Seq<int>, s2: Seq<int>)
    requires
        s1.to_multiset() == s2.to_multiset(),
    ensures
        qsum(s1) == qsum(s2),
    decreases s1.len(),
{
    s1.to_multiset_ensures();
    s2.to_multiset_ensures();
    if s1.len() == 0 {
        assert(s2.len() == 0);
    } else {
        let x = s1.last();
        assert(s1.contains(x));
        assert(s2.to_multiset().count(x) > 0);
        assert(s2.contains(x));
        let j = choose|j: int| 0 <= j < s2.len() && s2[j] == x;
        lemma_qsum_remove(s2, j);
        assert(s1.remove(s1.len() - 1) =~= s1.drop_last());
        assert(s1.drop_last().to_multiset() =~= s1.to_multiset().remove(x));
        assert(s2.remove(j).to_multiset() =~= s2.to_multiset().remove(x));
        lemma_qsum_permutation(s1.drop_last(), s2.remove(j));
    }
}

/// While the magnitude of the running total stays bounded, the saturating
/// fold coincides with the plain mathematical sum.
proof fn lemma_sat_fold_exact(start: int, s: Seq<int>)
    requires
        all_terms_q(s),
        -0x8000_0000_0000_0000_0000_0000 <= start <= 0x8000_0000_0000_0000_0000_0000,
        s.len() <= 0x10_0000_0000_0000_0000,
    ensures
        sat_fold(start, s) == start + qsum(s),
        -0x8000_0000_0000_0000_0000_0000 - 0x8000_0000 * s.len() <= start + qsum(s),
        start + qsum(s) <= 0x8000_0000_0000_0000_0000_0000 + 0x8000_0000 * s.len(),
    decreases s.len(),
{
    if s.len() > 0 {
        lemma_sat_fold_exact(start, s.drop_last());
    }
}

/// Accumulating any permutation of a list of quantized terms produces the
/// identical total: the saturating fold equals the order-free sum for every
/// buffer a machine can hold.
pub proof fn lemma_accumulation_order_invariant(s1: Seq<int>, s2: Seq<int>)
    requires
        all_terms_q(s1),
        s1.to_multiset() == s2.to_multiset(),
        s1.len() <= 0x1_0000_0000_0000_0000,
    ensures
        sat_fold(0, s1) == sat_fold(0, s2),
        sat_fold(0, s1) == qsum(s1),
    decreases s1.len(),
{
    s1.to_multiset_ensures();
    s2.to_multiset_ensures();
    assert forall|i: int| 0 <= i < s2.len() implies i32::MIN <= #[trigger] s2[i] <= i32::MAX by {
        assert(s2.contains(s2[i]));
        assert(s2.to_multiset().count(s2[i]) > 0);
        assert(s1.contains(s2[i]));
    }
    lemma_sat_fold_exact(0, s1);
    lemma_sat_fold_exact(0, s2);
    lemma_qsum_permutation(s1, s2);
}

/// Merging two partial accumulations yields the same total as accumulating
/// the concatenated list sequentially into one accumulator.
pub proof fn lemma_merge_matches_sequential(s1: Seq<int>, s2: Seq<int>)
    requires
        all_terms_q(s1),
        all_terms_q(s2),
        s1.len() <= 0x1_0000_0000_0000_0000,
        s2.len() <= 0x1_0000_0000_0000_0000,
    ensures
        spec_sat_add(sat_fold(0, s1), sat_fold(0, s2)) == sat_fold(0, s1 + s2),
    decreases s2.len(),
{
    lemma_sat_fold_exact(0, s1);
    lemma_sat_fold_exact(0, s2);
    assert(all_terms_q(s1 + s2));
    lemma_sat_fold_exact(0, s1 + s2);
    lemma_qsum_concat(s1, s2);
}

/// The sum of a concatenation is the sum of the parts.
proof fn lemma_qsum_concat(s1: Seq<int>, s2: Seq<int>)
    ensures
        qsum(s1 + s2) == qsum(s1) + qsum(s2),
    decreases s2.len(),
{
    if s2.len() == 0 {
        assert(s1 + s2 =~= s1);
    } else {
        assert((s1 + s2).drop_last() =~= s1 + s2.drop_last());
        lemma_qsum_concat(s1, s2.drop_last());
    }
}


/// Integer square root, defined by counting up; the executable version
/// proves the same characterization by bisection.
pub open spec fn spec_isqrt(n: int) -> int
    decreases n,
{
    if n < 1 {
        0
    } else {
        let r = spec_isqrt(n - 1);
        if (r + 1) * (r + 1) <= n {
            r + 1
        } else {
            r
        }
    }
}

/// The integer square root squares to at most its argument, and the next
/// integer squares beyond it.
pub proof fn lemma_isqrt_bounds(n: int)
    requires
        0 <= n,
    ensures
        0 <= spec_isqrt(n),
        spec_isqrt(n) * spec_isqrt(n) <= n,
        n < (spec_isqrt(n) + 1) * (spec_isqrt(n) + 1),
    decreases n,
{
    if n == 0 {
        assert(spec_isqrt(0) == 0);
        assert(0int < (spec_isqrt(0) + 1) * (spec_isqrt(0) + 1)) by (nonlinear_arith)
            requires
                spec_isqrt(0) == 0,
        ;
    } else {
        lemma_isqrt_bounds(n - 1);
        let r = spec_isqrt(n - 1);
        if (r + 1) * (r + 1) <= n {
            assert(spec_isqrt(n) == r + 1);
            assert(n <= (r + 1) * (r + 1));
            assert(spec_isqrt(n) * spec_isqrt(n) <= n && n < (spec_isqrt(n) + 1) * (spec_isqrt(
                n,
            ) + 1)) by (nonlinear_arith)
                requires
                    spec_isqrt(n) == r + 1,
                    (r + 1) * (r + 1) <= n,
                    n <= (r + 1) * (r + 1),
                    r >= 0,
            ;
        } else {
            assert(spec_isqrt(n) == r);
            assert(spec_isqrt(n) * spec_isqrt(n) <= n && n < (spec_isqrt(n) + 1) * (spec_isqrt(
                n,
            ) + 1)) by (nonlinear_arith)
                requires
                    spec_isqrt(n) == r,
                    r * r <= n,
                    n < (r + 1) * (r + 1),
            ;
        }
    }
}

/// Any value with the square-root characterization is the square root.
pub proof fn lemma_isqrt_unique(n: int, r: int)
    requires
        0 <= n,
        0 <= r,
        r * r <= n,
        n < (r + 1) * (r + 1),
    ensures
        r == spec_isqrt(n),
{
    lemma_isqrt_bounds(n);
    let s = spec_isqrt(n);
    if r < s {
        assert((r + 1) * (r + 1) <= s * s) by (nonlinear_arith)
            requires
                0 <= r,
                r + 1 <= s,
        ;
    }
    if s < r {
        assert((s + 1) * (s + 1) <= r * r) by (nonlinear_arith)
            requires
                0 <= s,
                s + 1 <= r,
        ;
    }
}

/// Computes the integer square root of a nonnegative value by bisection.
pub fn isqrt64(n: i64) -> (r: i64)
    requires
        n >= 0,
    ensures
        r == spec_isqrt(n as int),
        0 <= r,
        r * r <= n,
        n < (r + 1) * (r + 1),
{
    let mut lo: i64 = 0;
    let mut hi: i64 = 0x1_0000_0000;
    proof {
        assert(0x1_0000_0000i64 * 0x1_0000_0000i64 > n as int) by (nonlinear_arith)
            requires
                n as int <= 0x7fff_ffff_ffff_ffff,
        ;
    }
    while lo + 1 < hi
        invariant
            0 <= lo < hi <= 0x1_0000_0000,
            lo * lo <= n as int,
            hi * hi > n as int,
        decreases hi - lo,
    {
        let mid = lo + (hi - lo) / 2;
        proof {
            assert(lo < mid < hi);
            assert(mid * mid <= 0x1_0000_0000i64 * 0x1_0000_0000i64) by (nonlinear_arith)
                requires
                    0 <= mid <= 0x1_0000_0000i64,
            ;
        }
        let sq: i128 = (mid as i128) * (mid as i128);
        if sq <= n as i128 {
            lo = mid;
        } else {
            hi = mid;
        }
    }
    proof {
        lemma_isqrt_unique(n as int, lo as int);
    }
    lo
}


/// Computes the integer square root of a wide nonnegative value by
/// bisection.
pub fn isqrt128(n: i128) -> (r: i128)
    requires
        0 <= n < 0x1_0000_0000_0000_0000_0000,
    ensures
        r == spec_isqrt(n as int),
        0 <= r,
        r * r <= n,
        n < (r + 1) * (r + 1),
{
    let mut lo: i128 = 0;
    let mut hi: i128 = 0x100_0000_0000;
    proof {
        assert(0x100_0000_0000i128 * 0x100_0000_0000i128 > n as int) by (nonlinear_arith)
            requires
                (n as int) < 0x1_0000_0000_0000_0000_0000,
        ;
    }
    while lo + 1 < hi
        invariant
            0 <= lo < hi <= 0x100_0000_0000,
            lo * lo <= n as int,
            hi * hi > n as int,
        decreases hi - lo,
    {
        let mid = lo + (hi - lo) / 2;
        proof {
            assert(lo < mid < hi);
            assert(mid * mid <= 0x100_0000_0000i128 * 0x100_0000_0000i128) by (nonlinear_arith)
                requires
                    0 <= mid <= 0x100_0000_0000i128,
            ;
        }
        let sq: i128 = mid * mid;
        if sq <= n {
            lo = mid;
        } else {
            hi = mid;
        }
    }
    proof {
        lemma_isqrt_unique(n as int, lo as int);
    }
    lo
}


/// Truncating division: rounds toward zero on both sides, the behavior of
/// machine division.
pub open spec fn spec_tdiv(a: int, b: int) -> int {
    if a >= 0 {
        a / b
    } else {
        -((-a) / b)
    }
}

/// Divides, rounding toward zero.
pub fn tdiv64(a: i64, b: i64) -> (r: i64)
    requires
        b > 0,
        a > i64::MIN,
    ensures
        r == spec_tdiv(a as int, b as int),
{
    if a >= 0 {
        a / b
    } else {
        proof {
            vstd::arithmetic::div_mod::lemma_div_pos_is_pos(-(a as int), b as int);
            vstd::arithmetic::div_mod::lemma_div_is_ordered(0, -(a as int), b as int);
            vstd::arithmetic::div_mod::lemma_div_is_ordered(-(a as int), i64::MAX as int,
                b as int);
            vstd::arithmetic::div_mod::lemma_div_nonincreasing(i64::MAX as int, b as int);
        }
        -((-a) / b)
    }
}


/// A left shift of one is the matching power of two.
pub proof fn lemma_pow2_shift(k: u64)
    requires
        k < 63,
    ensures
        (1i64 << k) as int == vstd::arithmetic::power2::pow2(k as nat),
{
    vstd::arithmetic::power2::lemma2_to64();
    vstd::arithmetic::power2::lemma2_to64_rest();
    vstd::arithmetic::power2::lemma_pow2_strictly_increases(k as nat, 63nat);
    assert(1u64 * vstd::arithmetic::power2::pow2(k as nat)
        == vstd::arithmetic::power2::pow2(k as nat)) by (nonlinear_arith);
    vstd::bits::lemma_u64_shl_is_mul(1u64, k);
    assert(1i64 << k == (1u64 << k) as i64) by (bit_vector)
        requires
            k < 63u64,
    ;
}


/// Mapping every element of two multiset-equal sequences through the same
/// function yields multiset-equal sequences.
proof fn lemma_map_values_permutation(s1: Seq<Qx>, s2: Seq<Qx>, f: spec_fn(Qx) -> int)
    requires
        s1.to_multiset() == s2.to_multiset(),
    ensures
        s1.map_values(f).to_multiset() == s2.map_values(f).to_multiset(),
    decreases s1.len(),
{
    broadcast use vstd::multiset::group_multiset_axioms;

    s1.to_multiset_ensures();
    s2.to_multiset_ensures();
    s1.map_values(f).to_multiset_ensures();
    s2.map_values(f).to_multiset_ensures();
    if s1.len() == 0 {
        assert(s2.len() == 0);
        assert(s1.map_values(f) =~= s2.map_values(f));
    } else {
        let x = s1.last();
        assert(s1.contains(x));
        assert(s2.to_multiset().count(x) > 0);
        assert(s2.contains(x));
        let j = choose|j: int| 0 <= j < s2.len() && s2[j] == x;
        assert(s1.remove(s1.len() - 1) =~= s1.drop_last());
        assert(s1.drop_last().to_multiset() =~= s1.to_multiset().remove(x));
        assert(s2.remove(j).to_multiset() =~= s2.to_multiset().remove(x));
        lemma_map_values_permutation(s1.drop_last(), s2.remove(j), f);
        assert(s1.map_values(f) =~= s1.drop_last().map_values(f).push(f(x)));
        assert(s2.remove(j).map_values(f) =~= s2.map_values(f).remove(j));
        assert(s2.map_values(f).remove(j).to_multiset() =~= s2.map_values(f)
            .to_multiset().remove(f(x))) by {
            s2.map_values(f).to_multiset_ensures();
            assert(s2.map_values(f)[j] == f(x));
        }
        s1.drop_last().map_values(f).to_multiset_ensures();
        assert(s1.map_values(f).to_multiset() =~= s1.drop_last().map_values(f)
            .to_multiset().insert(f(x)));
        assert(s1.map_values(f).to_multiset() =~= s2.map_values(f).to_multiset());
    }
}

/// Accumulating any permutation of a list of unit-scale values, each
/// quantized at the accumulator's scale on the way in, produces the
/// identical total: order invariance lifts through the quantization map.
pub proof fn lemma_value_accumulation_order_invariant(s1: Seq<Qx>, s2: Seq<Qx>, scale: int)
    requires
        s1.to_multiset() == s2.to_multiset(),
        s1.len() <= 0x1_0000_0000_0000_0000,
    ensures
        sat_fold(0, requantized_terms(s1, scale)) == sat_fold(0, requantized_terms(s2, scale)),
{
    lemma_map_values_permutation(s1, s2, |v: Qx| spec_clamp_q(spec_requantize(v as int, scale)));
    assert(all_terms_q(requantized_terms(s1, scale)));
    s1.to_multiset_ensures();
    s2.to_multiset_ensures();
    lemma_accumulation_order_invariant(
        requantized_terms(s1, scale),
        requantized_terms(s2, scale),
    );
}

} // verus!
