//! Behavioral checks of the estimator: the zero state, capacity
//! validation, the capacity bound and round progression, duplicate
//! handling, reproducibility from a fixed seed, and the estimate formula
//! on forced-compaction scenarios.

use cmv::{Cmv, InvalidCapacity, RandomSource, SeededSource};

/// A randomness source whose every trial succeeds.
struct AlwaysKeep;

impl RandomSource for AlwaysKeep {
    fn keep(&mut self, _round: usize) -> bool {
        true
    }
}

#[test]
fn zero_state() {
    let cmv = Cmv::with_capacity(16);
    assert_eq!(cmv.round(), 0);
    assert_eq!(cmv.sample_size(), 0);
    assert_eq!(cmv.count(), 0);
}

#[test]
fn zero_capacity_rejected() {
    assert_eq!(Cmv::try_with_capacity(0).err(), Some(InvalidCapacity));
    assert!(Cmv::try_with_capacity(1).is_ok());
}

#[test]
fn sample_bounded_and_round_monotone() {
    let mut rng = SeededSource::from_seed(7);
    let mut cmv = Cmv::with_capacity(10);
    let mut last_round = 0;
    for i in 0u64..10_000 {
        cmv.insert(i % 500, &mut rng);
        assert!(cmv.sample_size() <= 10);
        let round = cmv.round();
        assert!(round == last_round || round == last_round + 1);
        last_round = round;
    }
    assert!(cmv.round() > 0);
}

#[test]
fn duplicate_inserts_before_compaction() {
    let mut rng = SeededSource::from_seed(11);
    let mut cmv = Cmv::with_capacity(8);
    // At round 0 every trial succeeds, so re-inserting the same key
    // leaves the sample size at one.
    for _ in 0..5 {
        cmv.insert(42, &mut rng);
        assert_eq!(cmv.sample_size(), 1);
        assert_eq!(cmv.round(), 0);
    }
}

#[test]
fn always_keep_scenario() {
    // Capacity 4 and a source whose trials always succeed: four distinct
    // keys fill the sample and fire exactly one compaction.
    let mut rng = AlwaysKeep;
    let mut cmv = Cmv::with_capacity(4);
    for item in [1u64, 2, 3, 4] {
        cmv.insert(item, &mut rng);
    }
    assert_eq!(cmv.round(), 1);
    assert!(cmv.sample_size() <= 4);
    assert_eq!(cmv.count(), cmv.sample_size() as u128 * 2);
}

#[test]
fn count_is_sample_size_shifted_by_round() {
    // Capacity 2 with an always-succeeding source compacts on every
    // second distinct key, and the surviving sample shrinks to one key.
    let mut rng = AlwaysKeep;
    let mut cmv = Cmv::with_capacity(2);
    cmv.insert(10, &mut rng);
    assert_eq!((cmv.round(), cmv.sample_size(), cmv.count()), (0, 1, 1));
    cmv.insert(20, &mut rng);
    assert_eq!((cmv.round(), cmv.sample_size(), cmv.count()), (1, 1, 2));
    cmv.insert(30, &mut rng);
    assert_eq!((cmv.round(), cmv.sample_size(), cmv.count()), (2, 1, 4));
}

#[test]
fn capacity_one_stream() {
    let mut rng = SeededSource::from_seed(3);
    let mut cmv = Cmv::with_capacity(1);
    for i in 0u64..1_000 {
        cmv.insert(i, &mut rng);
        assert!(cmv.sample_size() <= 1);
    }
}

#[test]
fn seeded_runs_are_reproducible() {
    let mut rng_a = SeededSource::from_seed(0xfeed);
    let mut rng_b = SeededSource::from_seed(0xfeed);
    let mut a = Cmv::with_capacity(32);
    let mut b = Cmv::with_capacity(32);
    for i in 0u64..5_000 {
        let item = (i * i) % 700;
        a.insert(item, &mut rng_a);
        b.insert(item, &mut rng_b);
        assert_eq!(a.round(), b.round());
        assert_eq!(a.sample_size(), b.sample_size());
        assert_eq!(a.count(), b.count());
    }
}
