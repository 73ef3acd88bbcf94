use chromatic_core::bridge::{
    decode_to_chromatic, encode_to_spectral, hue_to_bin_weights, map_luminance_to_sigma,
    mean_hsl, record_seam_weights, sigma_to_luminance, validate_round_trip, MAX_SIGMA,
    MIN_SIGMA, ROUND_TRIP_TOLERANCE,
};
use chromatic_core::color::{delta_hsl, hsl_to_rgb, normalize_hue, rgb_to_hsl};
use chromatic_core::layout::Shape2D;
use chromatic_core::quant::DEFAULT_FIXED_SCALE;
use chromatic_core::tensor::ChromaticTensor;
use chromatic_core::HUE_CATEGORIES;

const UNIT: i32 = DEFAULT_FIXED_SCALE;

fn solid_tensor(rgb_triplet: [i32; 3], shape: Shape2D) -> ChromaticTensor {
    let cells = shape.cell_count();
    let mut rgb = Vec::new();
    for _ in 0..cells {
        rgb.push(rgb_triplet[0]);
        rgb.push(rgb_triplet[1]);
        rgb.push(rgb_triplet[2]);
    }
    ChromaticTensor::new(shape, rgb, None)
}

#[test]
fn luminance_sigma_roundtrip() {
    for &l in &[0, UNIT / 4, UNIT / 2, 3 * (UNIT / 4), UNIT] {
        let sigma = map_luminance_to_sigma(l);
        let recovered = sigma_to_luminance(sigma);
        assert_eq!(recovered, l);
    }
}

#[test]
fn hue_mapping_consistent() {
    let hue = UNIT / 2;
    let (_, w_a, _, w_b) = hue_to_bin_weights(hue);
    assert_eq!(w_a as i64 + w_b as i64, UNIT as i64);
}

#[test]
fn hue_normalization_wraps() {
    assert_eq!(normalize_hue(UNIT as i64 + 5), 5);
    assert_eq!(normalize_hue(-5), UNIT - 5);
    assert_eq!(normalize_hue(3 * UNIT as i64), 0);
}

#[test]
fn rgb_hsl_roundtrip_is_consistent() {
    let (r0, g0, b0) = (209_715, 419_430, 629_146);
    let (h, s, l) = rgb_to_hsl(r0, g0, b0);
    let (r1, g1, b1) = hsl_to_rgb(h, s, l);
    assert!((r1 - r0).abs() <= 105, "red channel diff {}", r1 - r0);
    assert!((g1 - g0).abs() <= 105, "green channel diff {}", g1 - g0);
    assert!((b1 - b0).abs() <= 105, "blue channel diff {}", b1 - b0);
}

#[test]
fn delta_hsl_is_seam_aware() {
    let eps = 2_000;
    let a = (eps, UNIT / 2, UNIT / 2);
    let b = (UNIT - eps, UNIT / 2, UNIT / 2);
    let (dh, ds, dl) = delta_hsl(a, b);
    assert!(dh.abs() <= 2 * eps, "dh {}", dh);
    assert_eq!(ds, 0);
    assert_eq!(dl, 0);
}

#[test]
fn delta_hsl_matches_expected_average() {
    let a = (100_000, 200_000, 300_000);
    let b = (150_000, 260_000, 250_000);
    let (dh, ds, dl) = delta_hsl(a, b);
    assert_eq!(dh, 50_000);
    assert_eq!(ds, 60_000);
    assert_eq!(dl, -50_000);
}

#[test]
fn seam_weights_sum_to_one() {
    let eps = UNIT / 10;
    for &hue in &[0, 1, 50, eps - 1, eps, UNIT / 2, UNIT - eps, UNIT - 1, -7, UNIT + 13] {
        let (w0, w1) = record_seam_weights(hue, eps);
        assert_eq!(w0 as i64 + w1 as i64, UNIT as i64);
        assert!(w0 >= 0 && w0 <= UNIT);
        assert!(w1 >= 0 && w1 <= UNIT);
    }
}

#[test]
fn encoding_distributes_energy_across_bins() {
    let shape = Shape2D::new(4, 4);
    let t = solid_tensor([838_861, 314_573, 209_715], shape);
    let sp = encode_to_spectral(&t);
    assert_eq!(sp.bins.len(), HUE_CATEGORIES, "12");
    let sigma = sp.sigma.as_ref().expect("sigma present");
    assert_eq!(sigma.len(), HUE_CATEGORIES);
    for &s in sigma {
        assert!(s >= MIN_SIGMA && s <= MAX_SIGMA, "48");
    }
    let total: i64 = sp.bins.iter().map(|&v| v as i64).sum();
    assert!(total > 0);
}

#[test]
fn encode_decode_preserves_hue_within_tolerance() {
    let shape = Shape2D::new(2, 2);
    let t = solid_tensor([838_861, 314_573, 209_715], shape);
    let mean = mean_hsl(&t);
    let sp = encode_to_spectral(&t);
    let decoded = decode_to_chromatic(&sp);
    let rgb = decoded.rgb_at(0, 0);
    let rec = rgb_to_hsl(rgb[0], rgb[1], rgb[2]);
    let (dh, ds, dl) = delta_hsl(mean, rec);
    assert!(dh.abs() <= ROUND_TRIP_TOLERANCE, "dh = {}", dh);
    assert!(ds.abs() <= ROUND_TRIP_TOLERANCE, "ds = {}", ds);
    assert!(dl.abs() <= ROUND_TRIP_TOLERANCE, "dl = {}", dl);
}

#[test]
fn validate_round_trip_accepts_uniform_tensor() {
    let shape = Shape2D::new(2, 2);
    let t = solid_tensor([838_861, 314_573, 209_715], shape);
    assert!(validate_round_trip(&t));
}

#[test]
fn round_trip_cannot_recover_a_dark_gray() {
    // a saturation-free grid carries no energy, so the decoder falls back
    // to the neutral luminance and a dark gray does not survive
    let shape = Shape2D::new(2, 2);
    let t = solid_tensor([104_858, 104_858, 104_858], shape);
    assert!(!validate_round_trip(&t));
}
