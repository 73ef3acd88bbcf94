use chromatic_core::layout::{clamp_unit, Shape2D, Stride2D};
use chromatic_core::quant::{
    dequantize_scalar, quantize_scalar, FixedAccumulator, DEFAULT_FIXED_SCALE,
};
use chromatic_core::tensor::{add_rgb, map_rgb_inplace, mean_rgb, mask_inject, mix_rgb, ChromaticTensor};

const UNIT: i32 = DEFAULT_FIXED_SCALE;

fn uniform_tensor(value: i32, shape: Shape2D) -> ChromaticTensor {
    let cells = shape.cell_count();
    let mut rgb = Vec::new();
    for _ in 0..cells {
        rgb.push(value);
        rgb.push(value);
        rgb.push(value);
    }
    ChromaticTensor::new(shape, rgb, None)
}

#[test]
fn shape_and_stride_describe_the_layout() {
    let shape = Shape2D::new(3, 4);
    assert_eq!(shape.cell_count(), 12);
    assert_eq!(shape.rgb_len(), 36);
    let stride = Stride2D::new(shape);
    assert_eq!(stride.col, 3);
    assert_eq!(stride.row, 12);
}

#[test]
fn clamp_unit_saturates_both_ends() {
    assert_eq!(clamp_unit(-5), 0);
    assert_eq!(clamp_unit(UNIT + 7), UNIT);
    assert_eq!(clamp_unit(1234), 1234);
}

#[test]
fn rgb_access_reads_back_what_was_written() {
    let shape = Shape2D::new(2, 2);
    let mut t = uniform_tensor(UNIT / 2, shape);
    t.set_rgb(1, 0, [1, 2, 3]);
    assert_eq!(t.rgb_at(1, 0), [1, 2, 3]);
    assert_eq!(t.rgb_at(0, 0), [UNIT / 2, UNIT / 2, UNIT / 2]);
}

#[test]
fn mix_and_add_are_deterministic() {
    let shape = Shape2D::new(2, 2);
    let a = uniform_tensor(UNIT / 4, shape);
    let b = uniform_tensor(3 * (UNIT / 4), shape);
    let mut out1 = uniform_tensor(0, shape);
    let mut out2 = uniform_tensor(0, shape);
    mix_rgb(&mut out1, &a, &b, UNIT / 2);
    mix_rgb(&mut out2, &a, &b, UNIT / 2);
    assert_eq!(out1.rgb, out2.rgb);
    // the half blend of one quarter and three quarters is exactly one half
    assert_eq!(out1.rgb[0], UNIT / 2);
    let mut sum1 = uniform_tensor(0, shape);
    add_rgb(&mut sum1, &a, &b);
    // one quarter plus three quarters is exactly one
    assert_eq!(sum1.rgb[0], UNIT);
}

#[test]
fn mask_inject_blends_correctly() {
    let shape = Shape2D::new(1, 2);
    let base = uniform_tensor(0, shape);
    let inj = uniform_tensor(UNIT, shape);
    let mask = vec![0, UNIT];
    let mut out = uniform_tensor(0, shape);
    mask_inject(&mut out, &base, &inj, &mask);
    assert_eq!(out.rgb_at(0, 0), [0, 0, 0]);
    assert_eq!(out.rgb_at(0, 1), [UNIT, UNIT, UNIT]);
}

#[test]
fn mean_rgb_of_a_uniform_grid_is_its_value() {
    let shape = Shape2D::new(3, 3);
    let t = uniform_tensor(777_777, shape);
    assert_eq!(mean_rgb(&t), [777_777, 777_777, 777_777]);
}

#[test]
fn map_and_mean_behave() {
    let mut tensor = uniform_tensor(UNIT / 2, Shape2D::new(2, 2));
    map_rgb_inplace(&mut tensor, |v: i32| ((v as i64 * v as i64) / UNIT as i64) as i32);
    assert!(tensor.rgb.iter().all(|&v| v == UNIT / 4));
    let mean = mean_rgb(&tensor);
    assert!(mean.iter().all(|&v| v == UNIT / 4));
}

#[test]
fn quantization_roundtrip_within_tolerance() {
    let scale = 1 << 12;
    let value = 123_456;
    let q = quantize_scalar(value, scale);
    let back = dequantize_scalar(q, scale);
    let err = (back - value).abs();
    // the grid step of the coarser scale bounds the error
    assert!(err <= DEFAULT_FIXED_SCALE / scale + 1, "err {}", err);
}

#[test]
fn fixed_point_sum_is_stable() {
    let mut values: Vec<i32> = Vec::new();
    for i in 0..1000 {
        values.push((i * 37) % 2048 - 1024);
    }
    let mut reversed = values.clone();
    reversed.reverse();
    let a = FixedAccumulator::sum_slice(&values);
    let b = FixedAccumulator::sum_slice(&reversed);
    assert_eq!(a, b);
}

#[test]
fn fixed_accumulator_is_order_invariant() {
    let values: Vec<i32> = vec![5, -17, 1_000_000, 42, -3, 77, 0, 12_345];
    let mut shuffled = values.clone();
    shuffled.swap(0, 7);
    shuffled.swap(2, 5);
    shuffled.swap(1, 3);

    let mut seq = FixedAccumulator::with_default_scale();
    seq.accumulate_quantized_all(&values);

    let mut other = FixedAccumulator::with_default_scale();
    other.accumulate_quantized_all(&shuffled);
    assert_eq!(seq.finish_quantized(), other.finish_quantized());
    assert_eq!(seq.sum(), other.sum());

    // merge-based partial reduction matches sequential accumulation
    let (left, right) = values.split_at(3);
    let mut part_a = FixedAccumulator::with_default_scale();
    part_a.accumulate_quantized_all(&left.to_vec());
    let mut part_b = FixedAccumulator::with_default_scale();
    part_b.accumulate_quantized_all(&right.to_vec());
    part_a.merge(&part_b);
    assert_eq!(part_a.sum(), seq.sum());
    assert_eq!(part_a.finish_quantized(), seq.finish_quantized());
}

#[test]
fn value_accumulation_is_order_invariant_through_quantization() {
    let values: Vec<i32> = vec![881, -12_345, 524_288, 7, 0, -1, 999_999];
    let mut shuffled = values.clone();
    shuffled.reverse();
    let mut a = FixedAccumulator::new(1 << 9);
    a.accumulate_all(&values);
    let mut b = FixedAccumulator::new(1 << 9);
    b.accumulate_all(&shuffled);
    assert_eq!(a.sum(), b.sum());
    assert_eq!(a.finish_quantized(), b.finish_quantized());
}

#[test]
fn accumulate_quantizes_at_the_accumulator_scale() {
    let mut acc = FixedAccumulator::new(1 << 10);
    acc.accumulate(DEFAULT_FIXED_SCALE);
    assert_eq!(acc.sum(), 1 << 10);
    assert_eq!(acc.scale(), 1 << 10);
}
