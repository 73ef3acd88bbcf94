use chromatic_core::bridge::encode_to_spectral;
use chromatic_core::dream::{dream_cycle, SimpleDreamPool};
use chromatic_core::error::DreamError;
use chromatic_core::layout::Shape2D;
use chromatic_core::quant::DEFAULT_FIXED_SCALE;
use chromatic_core::tensor::ChromaticTensor;
use chromatic_core::ums::{compress_ums, project_to_ums};

const UNIT: i32 = DEFAULT_FIXED_SCALE;

fn checkered_tensor(shape: Shape2D) -> ChromaticTensor {
    let cells = shape.cell_count();
    let mut rgb = Vec::new();
    for k in 0..cells {
        let v = if k % 2 == 0 { 700_000 } else { 250_000 };
        rgb.push(v);
        rgb.push(UNIT - v);
        rgb.push(v / 2);
    }
    ChromaticTensor::new(shape, rgb, None)
}

fn pool_snapshot(pool: &SimpleDreamPool) -> Vec<(Vec<i32>, u32, i32, i32)> {
    pool.entries()
        .iter()
        .map(|e| (e.tensor.rgb.clone(), e.epoch, e.score, e.coherence))
        .collect()
}

#[test]
fn test_e2e_deterministic_run() {
    // run the whole pipeline twice with the same inputs and compare the
    // outputs bit for bit
    let shape = Shape2D::new(3, 3);
    let run = || {
        let target = checkered_tensor(shape);
        let sp = encode_to_spectral(&target);
        let ums = project_to_ums(&target, &sp);
        let compressed = compress_ums(&ums);
        let mut pool = SimpleDreamPool::new(4, 200_000);
        dream_cycle(&target, &mut pool, 4);
        (
            sp.bins.clone(),
            compressed.data().clone(),
            compressed.mean(),
            compressed.std_dev(),
            pool_snapshot(&pool),
        )
    };
    let a = run();
    let b = run();
    assert!(a == b);
}

#[test]
fn test_e2e_checkpoint_replay() {
    // a run split in two segments replays to the identical final state as
    // an independent execution of the same segment schedule
    let shape = Shape2D::new(2, 3);
    let segmented = || {
        let target = checkered_tensor(shape);
        let mut pool = SimpleDreamPool::new(5, 100_000);
        dream_cycle(&target, &mut pool, 2);
        dream_cycle(&target, &mut pool, 2);
        pool_snapshot(&pool)
    };
    let a = segmented();
    let b = segmented();
    assert!(a == b);
}

#[test]
fn error_variants_carry_their_domain_and_message() {
    let e = DreamError::Validation(String::from("determinism check failed"));
    assert_eq!(e.describe(), "validation failure");
    assert_eq!(e.message(), "determinism check failed");
    let io = DreamError::Io(String::from("checkpoint unreadable"));
    assert_eq!(io.describe(), "io error");
}
