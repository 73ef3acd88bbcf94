//! Color utilities: HSL conversions, circular hue arithmetic, and an exact
//! circular embedding used for hue statistics.
//!
//! Hues are fractions of a full turn in fixed-point scale, so the seam at
//! zero coincides with the value `DEFAULT_FIXED_SCALE`; all wrap-around
//! handling is exact modular arithmetic.

use vstd::prelude::*;

use vstd::arithmetic::div_mod::{
    lemma_div_by_multiple, lemma_div_denominator, lemma_div_is_ordered, lemma_div_pos_is_pos,
    lemma_fundamental_div_mod, lemma_fundamental_div_mod_converse,
};
use vstd::arithmetic::mul::lemma_mul_inequality;

use crate::quant::{fixed_one, DEFAULT_FIXED_SCALE};
use crate::Qx;

verus! {

/// True for a fixed-point value inside the unit interval.
pub open spec fn unit_in_range(x: int) -> bool {
    0 <= x <= fixed_one()
}

/// True for a hue expressed as a fraction of a full turn.
pub open spec fn hue_in_range(h: int) -> bool {
    0 <= h < fixed_one()
}

/// Euclidean reduction of an angle into `[0, turn)`.
pub open spec fn spec_normalize_hue(h: int) -> int {
    ((h % fixed_one()) + fixed_one()) % fixed_one()
}

/// Shortest signed angular distance, in `(-turn/2, turn/2]`.
pub open spec fn spec_wrap_signed(d: int) -> int {
    let m = spec_normalize_hue(d);
    if m > fixed_one() / 2 {
        m - fixed_one()
    } else {
        m
    }
}

/// Wraps an angle to the `[0, turn)` interval deterministically.
pub fn normalize_hue(h: i64) -> (r: Qx)
    requires
        -0x4000_0000_0000_0000 < h < 0x4000_0000_0000_0000,
    ensures
        r == spec_normalize_hue(h as int),
        hue_in_range(r as int),
{
    let unit = DEFAULT_FIXED_SCALE as i64;
    let value = if h >= 0 {
        h % unit
    } else {
        let m = (-h) % unit;
        proof {
            lemma_fundamental_div_mod((-h) as int, unit as int);
            let k = (-h) as int / (unit as int);
            if m == 0 {
                lemma_fundamental_div_mod_converse(h as int, unit as int, -k, 0);
            } else {
                lemma_fundamental_div_mod_converse(
                    h as int,
                    unit as int,
                    -k - 1,
                    unit as int - m as int,
                );
            }
        }
        if m == 0 {
            0
        } else {
            unit - m
        }
    };
    proof {
        lemma_fundamental_div_mod_converse(
            value as int + unit as int,
            unit as int,
            1,
            value as int,
        );
    }
    value as Qx
}

/// Largest of three scalars.
pub open spec fn spec_max3(a: int, b: int, c: int) -> int {
    if a >= b && a >= c {
        a
    } else if b >= c {
        b
    } else {
        c
    }
}

/// Smallest of three scalars.
pub open spec fn spec_min3(a: int, b: int, c: int) -> int {
    if a <= b && a <= c {
        a
    } else if b <= c {
        b
    } else {
        c
    }
}

/// Lightness of an RGB triplet: the midpoint of the extreme channels.
pub open spec fn spec_hsl_l(r: int, g: int, b: int) -> int {
    (spec_max3(r, g, b) + spec_min3(r, g, b)) / 2
}

/// Saturation of an RGB triplet.
pub open spec fn spec_hsl_s(r: int, g: int, b: int) -> int {
    let mx = spec_max3(r, g, b);
    let mn = spec_min3(r, g, b);
    if mx == mn {
        0
    } else {
        let d = mx - mn;
        if spec_hsl_l(r, g, b) > fixed_one() / 2 {
            d * fixed_one() / (2 * fixed_one() - mx - mn)
        } else {
            d * fixed_one() / (mx + mn)
        }
    }
}

/// Hue of an RGB triplet, scaled by six turns for exact sector arithmetic.
pub open spec fn spec_hsl_h6(r: int, g: int, b: int) -> int {
    let mx = spec_max3(r, g, b);
    let mn = spec_min3(r, g, b);
    let d = mx - mn;
    if mx == r {
        if g >= b {
            (g - b) * fixed_one() / d
        } else {
            6 * fixed_one() - (b - g) * fixed_one() / d
        }
    } else if mx == g {
        if b >= r {
            (b - r) * fixed_one() / d + 2 * fixed_one()
        } else {
            2 * fixed_one() - (r - b) * fixed_one() / d
        }
    } else {
        if r >= g {
            (r - g) * fixed_one() / d + 4 * fixed_one()
        } else {
            4 * fixed_one() - (g - r) * fixed_one() / d
        }
    }
}

/// Hue of an RGB triplet as a fraction of a full turn.
pub open spec fn spec_hsl_h(r: int, g: int, b: int) -> int {
    if spec_max3(r, g, b) == spec_min3(r, g, b) {
        0
    } else {
        spec_hsl_h6(r, g, b) / 6
    }
}

/// A nonnegative ratio of a nonnegative value by a larger denominator stays
/// inside the unit interval.
proof fn lemma_ratio_unit(a: int, b: int)
    requires
        0 <= a <= b,
        0 < b,
    ensures
        0 <= a * fixed_one() / b <= fixed_one(),
{
    lemma_mul_inequality(a, b, fixed_one());
    lemma_div_is_ordered(a * fixed_one(), b * fixed_one(), b);
    lemma_div_by_multiple(fixed_one(), b);
    lemma_div_pos_is_pos(a * fixed_one(), b);
}

/// Converts an RGB triplet to HSL; hue is a turn fraction, the rest unit.
pub fn rgb_to_hsl(r: Qx, g: Qx, b: Qx) -> (hsl: (Qx, Qx, Qx))
    requires
        unit_in_range(r as int),
        unit_in_range(g as int),
        unit_in_range(b as int),
    ensures
        hsl.0 == spec_hsl_h(r as int, g as int, b as int),
        hsl.1 == spec_hsl_s(r as int, g as int, b as int),
        hsl.2 == spec_hsl_l(r as int, g as int, b as int),
        hue_in_range(hsl.0 as int),
        unit_in_range(hsl.1 as int),
        unit_in_range(hsl.2 as int),
{
    let mx = if r >= g && r >= b {
        r
    } else if g >= b {
        g
    } else {
        b
    };
    let mn = if r <= g && r <= b {
        r
    } else if g <= b {
        g
    } else {
        b
    };
    let l = (mx + mn) / 2;
    if mx == mn {
        return (0, 0, l);
    }

    let unit = DEFAULT_FIXED_SCALE as i64;
    let d = (mx - mn) as i64;
    let low = (mx + mn) as i64;
    let s: i64 = if l > DEFAULT_FIXED_SCALE / 2 {
        proof {
            lemma_ratio_unit(d as int, 2 * fixed_one() - low as int);
        }
        d * unit / (2 * unit - low)
    } else {
        proof {
            lemma_ratio_unit(d as int, low as int);
        }
        d * unit / low
    };

    let h6: i64 = if mx == r {
        if g >= b {
            proof {
                lemma_ratio_unit((g - b) as int, d as int);
            }
            (g - b) as i64 * unit / d
        } else {
            proof {
                lemma_ratio_unit((b - g) as int, d as int);
                // the quotient is at least one, so this sector stays short
                // of a full turn
                lemma_div_is_ordered(d as int, (b - g) * fixed_one(), d as int);
                vstd::arithmetic::div_mod::lemma_div_by_self(d as int);
                assert((b - g) * fixed_one() >= d) by (nonlinear_arith)
                    requires
                        b - g >= 1,
                        d <= fixed_one(),
                ;
            }
            6 * unit - (b - g) as i64 * unit / d
        }
    } else if mx == g {
        if b >= r {
            proof {
                lemma_ratio_unit((b - r) as int, d as int);
            }
            (b - r) as i64 * unit / d + 2 * unit
        } else {
            proof {
                lemma_ratio_unit((r - b) as int, d as int);
            }
            2 * unit - (r - b) as i64 * unit / d
        }
    } else {
        if r >= g {
            proof {
                lemma_ratio_unit((r - g) as int, d as int);
            }
            (r - g) as i64 * unit / d + 4 * unit
        } else {
            proof {
                lemma_ratio_unit((g - r) as int, d as int);
            }
            4 * unit - (g - r) as i64 * unit / d
        }
    };
    proof {
        lemma_div_is_ordered(h6 as int, 6 * fixed_one() - 1, 6);
        lemma_div_pos_is_pos(h6 as int, 6);
        assert((6 * 0x10_0000 - 1) / 6 == 0x10_0000 - 1);
    }
    let h = h6 / 6;
    (h as Qx, s as Qx, l)
}

/// One sector of the HSL-to-RGB helper ramp.
pub open spec fn spec_hue_to_rgb(p: int, q: int, t: int) -> int {
    let tw = if t < 0 {
        t + fixed_one()
    } else if t > fixed_one() {
        t - fixed_one()
    } else {
        t
    };
    if tw < fixed_one() / 6 {
        p + (q - p) * (6 * tw) / fixed_one()
    } else if tw < fixed_one() / 2 {
        q
    } else if tw < 2 * fixed_one() / 3 {
        p + (q - p) * ((2 * fixed_one() / 3 - tw) * 6) / fixed_one()
    } else {
        p
    }
}

/// Piecewise ramp used by `hsl_to_rgb`; stays between its two anchors.
fn hue_to_rgb(p: Qx, q: Qx, t: i64) -> (r: Qx)
    requires
        0 <= p <= q,
        q <= fixed_one(),
        -fixed_one() <= t <= 2 * fixed_one(),
    ensures
        r == spec_hue_to_rgb(p as int, q as int, t as int),
        p <= r <= q,
{
    let unit = DEFAULT_FIXED_SCALE as i64;
    let tw = if t < 0 {
        t + unit
    } else if t > unit {
        t - unit
    } else {
        t
    };
    if tw < unit / 6 {
        proof {
            lemma_scaled_ramp_unit((q - p) as int, 6 * tw as int);
        }
        p + ((q - p) as i64 * (6 * tw) / unit) as Qx
    } else if tw < unit / 2 {
        q
    } else if tw < 2 * unit / 3 {
        proof {
            lemma_scaled_ramp_unit((q - p) as int, (2 * fixed_one() / 3 - tw as int) * 6);
        }
        p + ((q - p) as i64 * ((2 * unit / 3 - tw) * 6) / unit) as Qx
    } else {
        p
    }
}

/// A span scaled by a ramp coefficient in `[0, unit]` keeps its bounds.
proof fn lemma_scaled_ramp_unit(span: int, coeff: int)
    requires
        0 <= span,
        0 <= coeff <= fixed_one(),
    ensures
        0 <= span * coeff / fixed_one() <= span,
{
    lemma_mul_inequality(coeff, fixed_one(), span);
    assert(span * coeff == coeff * span) by (nonlinear_arith);
    assert(fixed_one() * span == span * fixed_one()) by (nonlinear_arith);
    lemma_div_is_ordered(span * coeff, span * fixed_one(), fixed_one());
    lemma_div_by_multiple(span, fixed_one());
    lemma_div_pos_is_pos(span * coeff, fixed_one());
}

/// The `q` anchor of the HSL-to-RGB conversion.
pub open spec fn spec_hsl_q(s: int, l: int) -> int {
    if l < fixed_one() / 2 {
        l * (fixed_one() + s) / fixed_one()
    } else {
        l + s - l * s / fixed_one()
    }
}

/// The `p` anchor of the HSL-to-RGB conversion.
pub open spec fn spec_hsl_p(s: int, l: int) -> int {
    2 * l - spec_hsl_q(s, l)
}

/// Red channel of the HSL-to-RGB conversion.
pub open spec fn spec_hsl_to_rgb_r(h: int, s: int, l: int) -> int {
    if s == 0 {
        l
    } else {
        spec_hue_to_rgb(
            spec_hsl_p(s, l),
            spec_hsl_q(s, l),
            spec_normalize_hue(h) + fixed_one() / 3,
        )
    }
}

/// Green channel of the HSL-to-RGB conversion.
pub open spec fn spec_hsl_to_rgb_g(h: int, s: int, l: int) -> int {
    if s == 0 {
        l
    } else {
        spec_hue_to_rgb(spec_hsl_p(s, l), spec_hsl_q(s, l), spec_normalize_hue(h))
    }
}

/// Blue channel of the HSL-to-RGB conversion.
pub open spec fn spec_hsl_to_rgb_b(h: int, s: int, l: int) -> int {
    if s == 0 {
        l
    } else {
        spec_hue_to_rgb(
            spec_hsl_p(s, l),
            spec_hsl_q(s, l),
            spec_normalize_hue(h) - fixed_one() / 3,
        )
    }
}

/// The two anchors of the conversion sit inside the unit interval in order.
proof fn lemma_hsl_anchors(s: int, l: int)
    requires
        unit_in_range(s),
        unit_in_range(l),
    ensures
        0 <= spec_hsl_p(s, l),
        spec_hsl_p(s, l) <= l,
        l <= spec_hsl_q(s, l),
        spec_hsl_q(s, l) <= fixed_one(),
{
    let u = fixed_one();
    if l < u / 2 {
        // l <= q: l*u <= l*(u+s); q <= 2l: l*(u+s) <= l*(2u) = (2l)*u
        assert(l * u <= l * (u + s) && l * (u + s) <= (2 * l) * u) by (nonlinear_arith)
            requires
                0 <= s <= u,
                0 <= l,
        ;
        lemma_div_is_ordered(l * u, l * (u + s), u);
        lemma_div_is_ordered(l * (u + s), (2 * l) * u, u);
        lemma_div_by_multiple(l, u);
        lemma_div_by_multiple(2 * l, u);
        // q <= u: l*(u+s) <= (u)*u needs 2l <= u, given by the branch
        assert(l * (u + s) <= u * u) by (nonlinear_arith)
            requires
                0 <= s <= u,
                0 <= l,
                2 * l <= u,
        ;
        lemma_div_is_ordered(l * (u + s), u * u, u);
        lemma_div_by_multiple(u, u);
    } else {
        // l >= u/2 and u is even, so 2l >= u.
        assert(2 * l >= u);
        // l <= q: l*s/u <= s because l*s <= u*s = s*u
        assert(l * s <= s * u) by (nonlinear_arith)
            requires
                0 <= s,
                l <= u,
        ;
        lemma_div_is_ordered(l * s, s * u, u);
        lemma_div_by_multiple(s, u);
        lemma_div_pos_is_pos(l * s, u);
        // p >= 0, that is q <= 2l: needs s - l <= l*s/u, enough that
        // u*(s-l) <= l*s, true since u - l <= l and s <= u.
        if s > l {
            assert((s - l) * u <= l * s) by (nonlinear_arith)
                requires
                    0 <= s <= u,
                    0 <= l <= u,
                    2 * l >= u,
            ;
            lemma_div_is_ordered((s - l) * u, l * s, u);
            lemma_div_by_multiple(s - l, u);
        }
        // q <= u: needs s + l - u <= l*s/u, true since (u-s)*(u-l) >= 0.
        if s + l > u {
            assert((s + l - u) * u <= l * s) by (nonlinear_arith)
                requires
                    0 <= s <= u,
                    0 <= l <= u,
            ;
            lemma_div_is_ordered((s + l - u) * u, l * s, u);
            lemma_div_by_multiple(s + l - u, u);
        }
    }
}

/// Converts an HSL triple to RGB values in the unit interval.
pub fn hsl_to_rgb(h: Qx, s: Qx, l: Qx) -> (rgb: (Qx, Qx, Qx))
    requires
        hue_in_range(h as int),
        unit_in_range(s as int),
        unit_in_range(l as int),
    ensures
        rgb.0 == spec_hsl_to_rgb_r(h as int, s as int, l as int),
        rgb.1 == spec_hsl_to_rgb_g(h as int, s as int, l as int),
        rgb.2 == spec_hsl_to_rgb_b(h as int, s as int, l as int),
        unit_in_range(rgb.0 as int),
        unit_in_range(rgb.1 as int),
        unit_in_range(rgb.2 as int),
{
    if s == 0 {
        return (l, l, l);
    }
    proof {
        lemma_hsl_anchors(s as int, l as int);
    }
    let unit = DEFAULT_FIXED_SCALE as i64;
    let q: Qx = if l < DEFAULT_FIXED_SCALE / 2 {
        ((l as i64) * (unit + s as i64) / unit) as Qx
    } else {
        (l as i64 + s as i64 - (l as i64) * (s as i64) / unit) as Qx
    };
    let p: Qx = 2 * l - q;
    let hn = h as i64;
    proof {
        assert(spec_normalize_hue(h as int) == h as int) by {
            vstd::arithmetic::div_mod::lemma_small_mod(h as nat, fixed_one() as nat);
        }
    }
    let r = hue_to_rgb(p, q, hn + unit / 3);
    let g = hue_to_rgb(p, q, hn);
    let b = hue_to_rgb(p, q, hn - unit / 3);
    (r, g, b)
}

/// Computes seam-aware delta components for two HSL triples: the hue delta
/// is the shortest signed angular distance, the others plain differences.
pub fn delta_hsl(a: (Qx, Qx, Qx), b: (Qx, Qx, Qx)) -> (d: (Qx, Qx, Qx))
    requires
        hue_in_range(a.0 as int),
        hue_in_range(b.0 as int),
        unit_in_range(a.1 as int),
        unit_in_range(b.1 as int),
        unit_in_range(a.2 as int),
        unit_in_range(b.2 as int),
    ensures
        d.0 == spec_wrap_signed(b.0 - a.0),
        d.1 == b.1 - a.1,
        d.2 == b.2 - a.2,
        -fixed_one() / 2 < d.0 <= fixed_one() / 2,
        -fixed_one() <= d.1 <= fixed_one(),
        -fixed_one() <= d.2 <= fixed_one(),
{
    let diff = (b.0 - a.0) as i64;
    let m = normalize_hue(diff);
    let dh = if m > DEFAULT_FIXED_SCALE / 2 {
        m - DEFAULT_FIXED_SCALE
    } else {
        m
    };
    (dh, b.1 - a.1, b.2 - a.2)
}

/// Horizontal coordinate of the exact circular embedding of a hue. The
/// embedding walks the square `|x| + |y| = unit` counter-clockwise from
/// `(unit, 0)`, one quadrant per quarter turn; it stands in for the cosine
/// in exact arithmetic.
pub open spec fn spec_hue_embed_x(h: int) -> int {
    let u4 = 4 * h;
    let q = u4 / fixed_one();
    let t = u4 % fixed_one();
    if q == 0 {
        fixed_one() - t
    } else if q == 1 {
        -t
    } else if q == 2 {
        t - fixed_one()
    } else {
        t
    }
}

/// Vertical coordinate of the exact circular embedding of a hue; it stands
/// in for the sine in exact arithmetic.
pub open spec fn spec_hue_embed_y(h: int) -> int {
    let u4 = 4 * h;
    let q = u4 / fixed_one();
    let t = u4 % fixed_one();
    if q == 0 {
        t
    } else if q == 1 {
        fixed_one() - t
    } else if q == 2 {
        -t
    } else {
        t - fixed_one()
    }
}

/// Recovers a hue from any nonzero point of the embedding plane; the exact
/// analogue of the two-argument arctangent.
pub open spec fn spec_hue_unembed(x: int, y: int) -> int {
    let r = (if x < 0 {
        -x
    } else {
        x
    }) + (if y < 0 {
        -y
    } else {
        y
    });
    if x > 0 && y >= 0 {
        y * fixed_one() / (4 * r)
    } else if x <= 0 && y > 0 {
        fixed_one() / 4 + (-x) * fixed_one() / (4 * r)
    } else if x < 0 && y <= 0 {
        fixed_one() / 2 + (-y) * fixed_one() / (4 * r)
    } else {
        3 * (fixed_one() / 4) + x * fixed_one() / (4 * r)
    }
}

/// Embeds a hue on the unit diamond.
pub fn hue_embed(h: Qx) -> (xy: (Qx, Qx))
    requires
        hue_in_range(h as int),
    ensures
        xy.0 == spec_hue_embed_x(h as int),
        xy.1 == spec_hue_embed_y(h as int),
        -fixed_one() <= xy.0 <= fixed_one(),
        -fixed_one() <= xy.1 <= fixed_one(),
        (if xy.0 < 0 {
            -(xy.0 as int)
        } else {
            xy.0 as int
        }) + (if xy.1 < 0 {
            -(xy.1 as int)
        } else {
            xy.1 as int
        }) == fixed_one(),
{
    let u4: i64 = 4 * (h as i64);
    let unit = DEFAULT_FIXED_SCALE as i64;
    let q = u4 / unit;
    let t = (u4 % unit) as Qx;
    proof {
        lemma_fundamental_div_mod(u4 as int, unit as int);
        assert(0 <= u4 < 4 * fixed_one());
        lemma_div_is_ordered(u4 as int, 4 * fixed_one() - 1, unit as int);
        lemma_div_pos_is_pos(u4 as int, unit as int);
        assert((4 * fixed_one() - 1) / fixed_one() == 3);
    }
    if q == 0 {
        (DEFAULT_FIXED_SCALE - t, t)
    } else if q == 1 {
        (-t, DEFAULT_FIXED_SCALE - t)
    } else if q == 2 {
        (t - DEFAULT_FIXED_SCALE, -t)
    } else {
        (t, t - DEFAULT_FIXED_SCALE)
    }
}

/// Recovers a hue from a nonzero point of the embedding plane.
pub fn hue_unembed(x: i64, y: i64) -> (h: Qx)
    requires
        -0x1000_0000_0000_0000 <= x <= 0x1000_0000_0000_0000,
        -0x1000_0000_0000_0000 <= y <= 0x1000_0000_0000_0000,
        x != 0 || y != 0,
    ensures
        h == spec_hue_unembed(x as int, y as int),
        hue_in_range(h as int),
{
    let unit = DEFAULT_FIXED_SCALE as i128;
    let ax: i64 = if x < 0 {
        -x
    } else {
        x
    };
    let ay: i64 = if y < 0 {
        -y
    } else {
        y
    };
    let r4: i128 = 4 * (ax as i128 + ay as i128);
    let quarter = DEFAULT_FIXED_SCALE / 4;
    if x > 0 && y >= 0 {
        proof {
            lemma_unembed_frac(y as int, ax + ay);
        }
        (y as i128 * unit / r4) as Qx
    } else if x <= 0 && y > 0 {
        proof {
            lemma_unembed_frac(-x as int, ax + ay);
        }
        quarter + ((-x) as i128 * unit / r4) as Qx
    } else if x < 0 && y <= 0 {
        proof {
            lemma_unembed_frac(-y as int, ax + ay);
        }
        2 * quarter + ((-y) as i128 * unit / r4) as Qx
    } else {
        proof {
            lemma_unembed_frac(x as int, ax + ay);
        }
        3 * quarter + (x as i128 * unit / r4) as Qx
    }
}

/// The fractional part of the unembedding stays strictly inside a quarter
/// turn whenever the coordinate is strictly below the radius.
proof fn lemma_unembed_frac(t: int, r: int)
    requires
        0 <= t < r,
    ensures
        0 <= t * fixed_one() / (4 * r) < fixed_one() / 4,
{
    lemma_div_pos_is_pos(t * fixed_one(), 4 * r);
    assert(t * fixed_one() < (4 * r) * (fixed_one() / 4)) by (nonlinear_arith)
        requires
            t < r,
            fixed_one() == 0x10_0000,
    ;
    vstd::arithmetic::div_mod::lemma_multiply_divide_lt(t * fixed_one(), 4 * r, fixed_one() / 4);
}

/// Unembedding a freshly embedded hue returns that hue exactly.
pub proof fn lemma_hue_embed_roundtrip(h: int)
    requires
        hue_in_range(h),
    ensures
        spec_hue_unembed(spec_hue_embed_x(h), spec_hue_embed_y(h)) == h,
{
    let u = fixed_one();
    let u4 = 4 * h;
    let q = u4 / u;
    let t = u4 % u;
    lemma_fundamental_div_mod(u4, u);
    lemma_div_pos_is_pos(u4, u);
    lemma_div_is_ordered(u4, 4 * u - 1, u);
    assert((4 * 0x10_0000 - 1) / 0x10_0000 == 3);
    assert(t % 4 == 0) by {
        assert(u4 == u * q + t);
        assert(t == 4 * h - 4 * (0x4_0000 * q)) by (nonlinear_arith)
            requires
                u4 == u * q + t,
                u == 0x10_0000,
                u4 == 4 * h,
        ;
    }
    lemma_embed_quarter_frac(t);
    assert(q * (u / 4) + t / 4 == (q * u + t) / 4) by (nonlinear_arith)
        requires
            t % 4 == 0,
            u % 4 == 0,
            u == 0x10_0000,
            0 <= t,
    ;
    assert((q * u + t) / 4 == u4 / 4);
    assert(u4 / 4 == h) by (nonlinear_arith)
        requires
            u4 == 4 * h,
    ;
}

/// On the unit diamond the unembedding fraction divides exactly.
proof fn lemma_embed_quarter_frac(t: int)
    requires
        0 <= t < fixed_one(),
        t % 4 == 0,
    ensures
        t * fixed_one() / (4 * fixed_one()) == t / 4,
{
    lemma_div_denominator(t * fixed_one(), fixed_one(), 4);
    lemma_div_by_multiple(t, fixed_one());
    assert(t * fixed_one() / fixed_one() == t) by {
        assert(t * fixed_one() == fixed_one() * t) by (nonlinear_arith);
    }
    assert(fixed_one() * 4 == 4 * fixed_one());
}


/// The embedding of any hue lies on the unit diamond: the absolute
/// coordinates sum to one whole unit, so the embedding is never the
/// origin.
pub proof fn lemma_embed_diamond(h: int)
    requires
        hue_in_range(h),
    ensures
        (if spec_hue_embed_x(h) < 0 {
            -spec_hue_embed_x(h)
        } else {
            spec_hue_embed_x(h)
        }) + (if spec_hue_embed_y(h) < 0 {
            -spec_hue_embed_y(h)
        } else {
            spec_hue_embed_y(h)
        }) == fixed_one(),
{
    let u = fixed_one();
    let u4 = 4 * h;
    lemma_fundamental_div_mod(u4, u);
    lemma_div_pos_is_pos(u4, u);
    lemma_div_is_ordered(u4, 4 * u - 1, u);
    assert((4 * 0x10_0000 - 1) / 0x10_0000 == 3);
}


/// The HSL components of unit RGB values lie in their ranges: the hue is
/// a turn fraction, saturation and lightness are unit values.
pub proof fn lemma_hsl_ranges(r: int, g: int, b: int)
    requires
        unit_in_range(r),
        unit_in_range(g),
        unit_in_range(b),
    ensures
        hue_in_range(spec_hsl_h(r, g, b)),
        unit_in_range(spec_hsl_s(r, g, b)),
        unit_in_range(spec_hsl_l(r, g, b)),
{
    let u = fixed_one();
    let mx = spec_max3(r, g, b);
    let mn = spec_min3(r, g, b);
    lemma_div_pos_is_pos(mx + mn, 2);
    lemma_div_is_ordered(mx + mn, 2 * u, 2);
    lemma_div_by_multiple(u, 2);
    if mx != mn {
        let d = mx - mn;
        if spec_hsl_l(r, g, b) > u / 2 {
            lemma_ratio_unit(d, 2 * u - mx - mn);
        } else {
            lemma_ratio_unit(d, mx + mn);
        }
        let h6 = spec_hsl_h6(r, g, b);
        if mx == r {
            if g >= b {
                lemma_ratio_unit(g - b, d);
            } else {
                lemma_ratio_unit(b - g, d);
                lemma_div_is_ordered(d, (b - g) * u, d);
                vstd::arithmetic::div_mod::lemma_div_by_self(d);
                assert((b - g) * u >= d) by (nonlinear_arith)
                    requires
                        b - g >= 1,
                        d <= u,
                        u == 0x10_0000,
                ;
            }
        } else if mx == g {
            if b >= r {
                lemma_ratio_unit(b - r, d);
            } else {
                lemma_ratio_unit(r - b, d);
            }
        } else {
            if r >= g {
                lemma_ratio_unit(r - g, d);
            } else {
                lemma_ratio_unit(g - r, d);
            }
        }
        lemma_div_is_ordered(h6, 6 * u - 1, 6);
        lemma_div_pos_is_pos(h6, 6);
        assert((6 * 0x10_0000 - 1) / 6 == 0x10_0000 - 1);
    }
}

} // verus!
