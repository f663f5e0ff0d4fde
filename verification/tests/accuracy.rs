//! Accuracy of the estimate on synthetic integer streams: the relative
//! error against the exact distinct count stays inside a tolerance band
//! that tightens as the capacity grows.

use cmv::{Cmv, SeededSource};
use rand::distr::Uniform;
use rand::rngs::SmallRng;
use rand::Rng;
use rand::SeedableRng;

fn run(capacity: usize, words: &[u64], max_error: f64) {
    let distinct = words.iter().collect::<fxhash::FxHashSet<_>>();

    let mut rng = SeededSource::from_seed(0x123456789);

    let mut cmv = Cmv::with_capacity(capacity);
    for &word in words {
        cmv.insert(word, &mut rng);
    }

    let diff = (cmv.count() as i128 - distinct.len() as i128).abs();
    let error = diff as f64 / distinct.len() as f64;

    println!("Exact count: {}", distinct.len());
    println!("  CMV count: {}", cmv.count());
    println!("       Diff: {diff}");
    println!("      Error: {:.2}%", error * 100.0);

    if error > max_error {
        panic!(
            "[FAILED] Error is too high: {:.2}% (max: {:.2}%)",
            error * 100.0,
            max_error * 100.0
        );
    }
}

fn gen_ints(n: u64) -> Vec<u64> {
    let rng = SmallRng::seed_from_u64(0x1234);

    rng.sample_iter(Uniform::new(0, n / 2).unwrap())
        .take(n as usize)
        .collect()
}

#[test]
fn int_1k_100() {
    let ints = gen_ints(1_000);
    run(100, &ints, 0.05);
}

#[test]
fn int_10k_1k() {
    let ints = gen_ints(10_000);
    run(1000, &ints, 0.15);
}

#[test]
fn int_100k_1k() {
    let ints = gen_ints(100_000);
    run(1000, &ints, 0.15);
}

#[test]
fn int_1m_1k() {
    let ints = gen_ints(1_000_000);
    run(1000, &ints, 0.05);
}

#[test]
fn int_1m_10k() {
    let ints = gen_ints(1_000_000);
    run(10000, &ints, 0.02);
}

#[test]
fn int_10m_10k() {
    let ints = gen_ints(10_000_000);
    run(10000, &ints, 0.01);
}
