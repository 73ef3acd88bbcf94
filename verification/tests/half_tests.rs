use chromatic_core::half::{f16_bits_to_f32_bits, f32_bits_to_f16_bits};

fn to_f16(v: f32) -> u16 {
    f32_bits_to_f16_bits(v.to_bits())
}

fn from_f16(h: u16) -> f32 {
    f32::from_bits(f16_bits_to_f32_bits(h))
}

#[test]
fn zero_and_signed_zero_encode_exactly() {
    assert_eq!(to_f16(0.0), 0x0000);
    assert_eq!(to_f16(-0.0), 0x8000);
    assert_eq!(from_f16(0x0000), 0.0);
    assert_eq!(from_f16(0x8000).to_bits(), (-0.0f32).to_bits());
}

#[test]
fn simple_values_encode_to_known_patterns() {
    assert_eq!(to_f16(1.0), 0x3c00);
    assert_eq!(to_f16(-2.0), 0xc000);
    assert_eq!(to_f16(0.5), 0x3800);
    assert_eq!(to_f16(65504.0), 0x7bff);
    assert_eq!(from_f16(0x3c00), 1.0);
    assert_eq!(from_f16(0xc000), -2.0);
}

#[test]
fn infinity_and_nan_are_preserved_in_kind() {
    assert_eq!(to_f16(f32::INFINITY), 0x7c00);
    assert_eq!(to_f16(f32::NEG_INFINITY), 0xfc00);
    assert_eq!(to_f16(f32::NAN) & 0x7fff, 0x7e00);
    assert!(from_f16(0x7c00).is_infinite());
    assert!(from_f16(0x7e00).is_nan());
}

#[test]
fn overflow_saturates_to_infinity() {
    assert_eq!(to_f16(100_000.0), 0x7c00);
    assert_eq!(to_f16(-100_000.0), 0xfc00);
}

#[test]
fn subnormal_values_are_handled() {
    // the largest binary16 subnormal
    let v = from_f16(0x03ff);
    assert!(v > 0.0);
    assert_eq!(to_f16(v), 0x03ff);
    // a tiny value far below the subnormal range rounds to zero
    assert_eq!(to_f16(1.0e-12), 0x0000);
}

#[test]
fn rounding_carries_into_the_exponent() {
    // 2047.5 rounds up to 2048, carrying out of the mantissa
    let v = 2047.5f32;
    let h = to_f16(v);
    assert_eq!(from_f16(h), 2048.0);
}

#[test]
fn finite_codes_survive_the_round_trip() {
    for h in 0..0x7c00u16 {
        assert_eq!(f32_bits_to_f16_bits(f16_bits_to_f32_bits(h)), h, "code {:#x}", h);
    }
    for h in 0x8000..0xfc00u16 {
        assert_eq!(f32_bits_to_f16_bits(f16_bits_to_f32_bits(h)), h, "code {:#x}", h);
    }
}

#[test]
fn round_to_nearest_matches_reference_conversions() {
    for &v in &[0.1f32, 3.14159, -0.333, 1234.5678, 0.00005, -6.1e-5] {
        let h = to_f16(v);
        let back = from_f16(h);
        let rel = ((back - v) / v).abs();
        assert!(rel < 1.0e-3 || (back - v).abs() < 1.0e-6, "{} -> {}", v, back);
    }
}
