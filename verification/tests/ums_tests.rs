use chromatic_core::bridge::{encode_to_spectral, mean_hsl, NEUTRAL_SIGMA};
use chromatic_core::layout::Shape2D;
use chromatic_core::quant::DEFAULT_FIXED_SCALE;
use chromatic_core::spectral::SpectralTensor;
use chromatic_core::tensor::ChromaticTensor;
use chromatic_core::ums::{
    compress_ums, decompress_ums, project_to_ums, reconstruct_chromatic_from_ums,
    reconstruct_spectral_from_ums, UnifiedModalitySpace,
};
use chromatic_core::{HUE_CATEGORIES, UMS_DIM};

const UNIT: i32 = DEFAULT_FIXED_SCALE;

fn solid_tensor(rgb_triplet: [i32; 3], shape: Shape2D) -> ChromaticTensor {
    let cells = shape.cell_count();
    let mut rgb = Vec::new();
    for _ in 0..cells {
        rgb.push(rgb_triplet[0]);
        rgb.push(rgb_triplet[1]);
        rgb.push(rgb_triplet[2]);
    }
    ChromaticTensor::new(shape, rgb, None)
}

#[test]
fn ums_projection_round_trip_restores_statistics() {
    let shape = Shape2D::new(3, 3);
    let t = solid_tensor([838_861, 314_573, 209_715], shape);
    let sp = encode_to_spectral(&t);
    let ums = project_to_ums(&t, &sp);

    let mean = mean_hsl(&t);
    let (h, s, l) = reconstruct_chromatic_from_ums(&ums);
    assert_eq!(h, mean.0, "\u{394}H = {}", h - mean.0);
    assert_eq!(s, mean.1, "\u{394}S = {}", s - mean.1);
    assert_eq!(l, mean.2, "\u{394}L = {}", l - mean.2);

    let energy: i64 = sp.bins.iter().map(|&v| (v as i64).abs()).sum();
    assert_eq!(ums.get(384) as i64, energy, "\u{394}Energy = {}", energy);

    // the hue histogram sums to one whole unit, up to one rounding step
    // per category
    let hist = ums.chromatic_histogram();
    let hist_sum: i64 = hist.iter().map(|&v| v as i64).sum();
    assert!((hist_sum - UNIT as i64).abs() <= HUE_CATEGORIES as i64, "{}", hist_sum);
}

#[test]
fn ums_projection_recovers_spectral_bins() {
    let shape = Shape2D::new(2, 2);
    let t = solid_tensor([838_861, 314_573, 209_715], shape);
    let sp = encode_to_spectral(&t);
    let ums = project_to_ums(&t, &sp);
    let (amps, sigmas) = reconstruct_spectral_from_ums(&ums, sp.bins.len());
    assert_eq!(amps, sp.bins);
    assert_eq!(&sigmas, sp.sigma.as_ref().unwrap());
}

#[test]
fn projection_is_exact_at_native_resolution() {
    let mut bins = Vec::new();
    let mut sigma = Vec::new();
    for i in 0..128i32 {
        bins.push(i * 1000 - 20_000);
        sigma.push(i * 500);
    }
    let sp = SpectralTensor::new(bins.clone(), Some(sigma.clone()), 28_835_840, 1_436_917, true);
    let shape = Shape2D::new(1, 1);
    let t = solid_tensor([UNIT / 2, UNIT / 2, UNIT / 2], shape);
    let ums = project_to_ums(&t, &sp);
    let (amps, sigmas) = reconstruct_spectral_from_ums(&ums, 128);
    assert_eq!(amps, bins);
    assert_eq!(sigmas, sigma);
}

#[test]
fn projection_pads_missing_bandwidths_with_the_neutral_width() {
    let sp = SpectralTensor::new(vec![UNIT, 0, UNIT / 2], None, 28_835_840, 1_436_917, true);
    let shape = Shape2D::new(1, 1);
    let t = solid_tensor([UNIT / 2, UNIT / 2, UNIT / 2], shape);
    let ums = project_to_ums(&t, &sp);
    let widths = ums.spectral_bandwidths();
    for &w in &widths {
        assert_eq!(w, NEUTRAL_SIGMA);
    }
    let amps = ums.spectral_amplitudes();
    assert_eq!(amps[0], UNIT);
    assert_eq!(amps[1], 0);
    assert_eq!(amps[2], UNIT / 2);
    assert_eq!(amps[3], 0);
}

#[test]
fn compression_round_trip_is_close() {
    let mut data = Vec::new();
    for i in 0..UMS_DIM as i32 {
        data.push((i * 7919) % UNIT);
    }
    let ums = UnifiedModalitySpace::from_array(data.clone());
    let compressed = compress_ums(&ums);
    let restored = decompress_ums(&compressed);
    let std = compressed.std_dev();
    for i in 0..UMS_DIM {
        let orig = data[i] as i64;
        let back = restored.get(i) as i64;
        // half precision keeps about three decimal digits: allow a small
        // relative band plus the rescaling step
        let tolerance = (orig - compressed.mean()).abs() / 512 + std / 512 + 2;
        assert!(
            (back - orig).abs() <= tolerance,
            "slot {}: {} vs {}",
            i,
            back,
            orig
        );
    }
}

#[test]
fn degenerate_constant_vector_round_trips_exactly() {
    let data = vec![123_456; UMS_DIM];
    let ums = UnifiedModalitySpace::from_array(data.clone());
    let compressed = compress_ums(&ums);
    assert_eq!(compressed.mean(), 123_456);
    assert_eq!(compressed.std_dev(), 1);
    let restored = decompress_ums(&compressed);
    for i in 0..UMS_DIM {
        assert_eq!(restored.get(i), 123_456);
    }
}

#[test]
fn compression_preserves_sign_and_magnitude_order() {
    let mut data = vec![0; UMS_DIM];
    data[0] = -UNIT;
    data[1] = UNIT;
    data[2] = 10 * UNIT;
    let ums = UnifiedModalitySpace::from_array(data);
    let compressed = compress_ums(&ums);
    let restored = decompress_ums(&compressed);
    assert!(restored.get(0) < 0);
    assert!(restored.get(1) > 0);
    assert!(restored.get(2) > restored.get(1));
}
