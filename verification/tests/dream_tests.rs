use chromatic_core::dream::{
    add_dream_to_pool, coherence_metric, dream_cycle, evaluate_dream, generate_dream,
    purge_stale_entries, retrieve_similar, DreamEntry, SimpleDreamPool,
};
use chromatic_core::layout::Shape2D;
use chromatic_core::quant::DEFAULT_FIXED_SCALE;
use chromatic_core::tensor::ChromaticTensor;

const UNIT: i32 = DEFAULT_FIXED_SCALE;

fn uniform_tensor(value: i32, shape: Shape2D) -> ChromaticTensor {
    let cells = shape.cell_count();
    let mut rgb = Vec::new();
    for _ in 0..cells {
        rgb.push(value);
        rgb.push(value);
        rgb.push(value);
    }
    ChromaticTensor::new(shape, rgb, None)
}

#[test]
fn coherence_metric_uses_map_when_present() {
    let shape = Shape2D::new(1, 1);
    let tensor = ChromaticTensor::new(
        shape,
        vec![UNIT / 2, UNIT / 2, UNIT / 2],
        Some(vec![838_861]),
    );
    assert_eq!(coherence_metric(&tensor), 838_861);
}

#[test]
fn generate_assigns_coherence_map() {
    let shape = Shape2D::new(2, 2);
    let seed = uniform_tensor(314_573, shape);
    let dream = generate_dream(&seed, 209_715);
    assert_eq!(dream.shape, seed.shape);
    assert!(dream.rgb.iter().all(|&v| v >= 0 && v <= UNIT));
    assert_eq!(dream.coh.as_ref().unwrap().len(), shape.cell_count());
}

#[test]
fn evaluate_prefers_target_alignment() {
    let shape = Shape2D::new(2, 2);
    let target = uniform_tensor(419_430, shape);
    let variant = uniform_tensor(629_146, shape);
    let perfect = evaluate_dream(&target, &target);
    let perturbed = evaluate_dream(&variant, &target);
    assert!(perfect >= perturbed);
}

#[test]
fn pool_enforces_coherence_threshold() {
    let shape = Shape2D::new(1, 1);
    let tensor_high = ChromaticTensor::new(
        shape,
        vec![419_430, 419_430, 419_430],
        Some(vec![943_718]),
    );
    let tensor_low = ChromaticTensor::new(
        shape,
        vec![629_146, 629_146, 629_146],
        Some(vec![209_715]),
    );
    let mut pool = SimpleDreamPool::new(2, UNIT / 2);
    let e0 = pool.next_epoch();
    let high = DreamEntry::new(tensor_high, e0, 838_861);
    let e1 = pool.next_epoch();
    let low = DreamEntry::new(tensor_low, e1, 943_718);
    add_dream_to_pool(&mut pool, high);
    add_dream_to_pool(&mut pool, low);
    assert_eq!(pool.len(), 1);
}

#[test]
fn full_pool_evicts_only_on_strictly_better_score() {
    let shape = Shape2D::new(1, 1);
    let mut pool = SimpleDreamPool::new(2, 0);
    for score in [300_000, 100_000] {
        let t = uniform_tensor(UNIT / 2, shape);
        let epoch = pool.next_epoch();
        add_dream_to_pool(&mut pool, DreamEntry::new(t, epoch, score));
    }
    assert_eq!(pool.len(), 2);

    // a candidate below the minimum leaves the pool unchanged
    let lower = DreamEntry::new(uniform_tensor(UNIT / 4, shape), 7, 50_000);
    add_dream_to_pool(&mut pool, lower);
    let scores: Vec<i32> = pool.entries().iter().map(|e| e.score).collect();
    assert_eq!(scores, vec![300_000, 100_000]);

    // a candidate that ties the minimum is not admitted either
    let tied = DreamEntry::new(uniform_tensor(UNIT / 4, shape), 8, 100_000);
    add_dream_to_pool(&mut pool, tied);
    let scores: Vec<i32> = pool.entries().iter().map(|e| e.score).collect();
    assert_eq!(scores, vec![300_000, 100_000]);

    // a strictly better candidate replaces exactly the minimum entry
    let better = DreamEntry::new(uniform_tensor(UNIT / 4, shape), 9, 200_000);
    add_dream_to_pool(&mut pool, better);
    let scores: Vec<i32> = pool.entries().iter().map(|e| e.score).collect();
    assert_eq!(scores, vec![300_000, 200_000]);
    assert_eq!(pool.entries()[1].epoch, 9);
}

#[test]
fn retrieve_orders_by_similarity() {
    let shape = Shape2D::new(1, 2);
    let target = uniform_tensor(UNIT / 2, shape);
    let mut pool = SimpleDreamPool::new(3, 0);
    for value in [209_715, 419_430, 838_861] {
        let tensor = uniform_tensor(value, shape);
        let epoch = pool.next_epoch();
        let score = evaluate_dream(&tensor, &target);
        let entry = DreamEntry::new(tensor, epoch, score);
        add_dream_to_pool(&mut pool, entry);
    }
    let retrieved = retrieve_similar(&pool, &target, 2);
    assert_eq!(retrieved.len(), 2);
    let first_score = evaluate_dream(&retrieved[0], &target);
    let second_score = evaluate_dream(&retrieved[1], &target);
    assert!(first_score >= second_score);
}

#[test]
fn retrieve_caps_at_the_pool_size() {
    let shape = Shape2D::new(1, 1);
    let query = uniform_tensor(UNIT / 2, shape);
    let mut pool = SimpleDreamPool::new(4, 0);
    for value in [100_000, 900_000] {
        let epoch = pool.next_epoch();
        let entry = DreamEntry::new(uniform_tensor(value, shape), epoch, value);
        add_dream_to_pool(&mut pool, entry);
    }
    let retrieved = retrieve_similar(&pool, &query, 10);
    assert_eq!(retrieved.len(), 2);
}

#[test]
fn dream_cycle_populates_pool() {
    let shape = Shape2D::new(2, 2);
    let target = uniform_tensor(UNIT / 2, shape);
    let mut pool = SimpleDreamPool::new(5, 314_573);
    dream_cycle(&target, &mut pool, 5);
    assert!(pool.len() > 0);
}

#[test]
fn dream_cycle_populates_high_coherence_entries() {
    let shape = Shape2D::new(2, 2);
    let target = uniform_tensor(UNIT / 2, shape);
    let mut pool = SimpleDreamPool::new(4, 314_573);
    dream_cycle(&target, &mut pool, 6);
    assert!(pool.len() > 0, "expected entries in pool");
    for e in pool.entries() {
        assert!(e.coherence >= 314_573, "entry coherence below threshold");
    }
}

#[test]
fn retrieve_similar_respects_limit_and_ordering() {
    let shape = Shape2D::new(2, 2);
    let target = uniform_tensor(UNIT / 2, shape);
    let mut pool = SimpleDreamPool::new(6, 0);
    for value in [104_858, 314_573, 524_288, 734_003, 943_718] {
        let tensor = uniform_tensor(value, shape);
        let epoch = pool.next_epoch();
        let score = evaluate_dream(&tensor, &target);
        add_dream_to_pool(&mut pool, DreamEntry::new(tensor, epoch, score));
    }
    let retrieved = retrieve_similar(&pool, &target, 3);
    assert_eq!(retrieved.len(), 3);
    // the closest stored value to the target must come first
    assert_eq!(retrieved[0].rgb[0], 524_288);
}

#[test]
fn purge_removes_stale_entries() {
    let shape = Shape2D::new(1, 1);
    let mut pool = SimpleDreamPool::new(3, 0);
    for epoch in [0u32, 1, 5] {
        let tensor = uniform_tensor(100_000 * (epoch as i32 + 1), shape);
        let entry = DreamEntry::new(tensor, epoch, 100_000);
        add_dream_to_pool(&mut pool, entry);
        pool.next_epoch();
    }
    purge_stale_entries(&mut pool, 1);
    let latest = pool.latest_epoch().unwrap_or(0);
    assert!(pool.entries().iter().all(|e| latest.saturating_sub(e.epoch) <= 1));
}

#[test]
fn purge_stale_entries_keeps_recent_epochs() {
    let shape = Shape2D::new(1, 1);
    let mut pool = SimpleDreamPool::new(4, 0);
    for epoch in [0u32, 3, 7, 7] {
        let entry = DreamEntry::new(uniform_tensor(UNIT / 2, shape), epoch, 5);
        add_dream_to_pool(&mut pool, entry);
    }
    purge_stale_entries(&mut pool, 0);
    assert_eq!(pool.len(), 2);
    for e in pool.entries() {
        assert_eq!(e.epoch, 7);
    }
}
