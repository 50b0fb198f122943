//! The descending sequence of 31-bit primes the modular driver runs.

use std::time::Duration;

use sylvester::compute::primes::{FIRST, Prime, Sequence};
use sylvester::compute::{Budget, ComputeError, ComputeLimits, RunError};
use sylvester::field::is_prime_u64;

fn all(_: u64) -> bool {
    true
}

fn open() -> ComputeLimits {
    ComputeLimits::default()
}

fn prime_at(sequence: &mut Sequence, index: usize) -> Option<Prime> {
    sequence.at(index, all, &open()).expect("no limit stops the search")
}

#[test]
fn the_sequence_starts_at_the_largest_modulus_and_descends() {
    let mut sequence = Sequence::new();
    let first: Vec<u64> = (0..4)
        .map(|index| prime_at(&mut sequence, index).expect("the sequence holds four primes").value)
        .collect();
    assert_eq!(first[0], FIRST);
    assert!(first.windows(2).all(|pair| pair[0] > pair[1]));
    assert!(first.iter().all(|&p| is_prime_u64(p)));
    assert!(sequence.heap_bytes() > 0);
}

#[test]
fn one_index_always_reads_one_prime() {
    let mut sequence = Sequence::new();
    let third = prime_at(&mut sequence, 2).expect("the sequence holds three primes");
    assert_eq!(prime_at(&mut sequence, 2), Some(third));
    assert_eq!(prime_at(&mut sequence, 0).map(|prime| prime.value), Some(FIRST));
}

#[test]
fn a_rejected_prime_counts_and_leaves_the_sequence() {
    let mut sequence = Sequence::new();
    let first = sequence
        .at(0, |value| value != FIRST, &open())
        .expect("no limit stops the search")
        .expect("a prime is left");
    assert_ne!(first.value, FIRST);
    assert_eq!(first.skipped_before, 1);
    assert_eq!(
        sequence
            .at(1, |value| value != FIRST, &open())
            .expect("no limit stops the search")
            .map(|prime| prime.skipped_before),
        Some(1)
    );
}

/// The search reads the deadline, so an exhausted one stops it.
#[test]
fn the_search_stops_on_an_exhausted_deadline() {
    let mut sequence = Sequence::new();
    let limits = ComputeLimits::of_budget(&Budget::new().timeout(Duration::ZERO));
    assert_eq!(
        sequence.at(0, all, &limits).map(|prime| prime.is_some()),
        Err(RunError::Compute(ComputeError::Timeout))
    );
}
