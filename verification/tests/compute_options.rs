//! The options of a computation and the limits one call holds to.

use std::sync::Arc;
use std::sync::atomic::{AtomicBool, Ordering};
use std::time::Duration;

use sylvester::compute::{ComputeLimits, ComputeOptions, RunError, TICK};
use sylvester::compute::verifier_limits;
use sylvester::verify::{RecordSizes, VerifyLimits};

#[test]
fn a_timeout_too_large_to_add_to_now_leaves_no_deadline() {
    let options = ComputeOptions::new().timeout(Duration::MAX);
    assert_eq!(ComputeLimits::of(&options).deadline, None);
}

#[test]
fn a_thread_count_of_zero_means_the_default_pool() {
    assert_eq!(ComputeOptions::new().threads(0), ComputeOptions::new());
    assert_ne!(ComputeOptions::new().threads(1), ComputeOptions::new());
}

#[test]
fn an_ordinary_timeout_still_sets_a_deadline() {
    let options = ComputeOptions::new().timeout(Duration::from_secs(60));
    assert!(ComputeLimits::of(&options).deadline.is_some());
}

#[test]
fn periodic_checks_read_cancellation_at_the_next_tick() {
    let flag = Arc::new(AtomicBool::new(false));
    let limits = ComputeLimits { cancel: Some(Arc::clone(&flag)), ..ComputeLimits::default() };
    assert_eq!(limits.stop_every(0), None);
    flag.store(true, Ordering::Relaxed);
    assert_eq!(limits.stop_every(1), None);
    assert_eq!(limits.stop_every(TICK), Some(RunError::Cancelled));
}

/// Verifier caps for bytes from an untrusted peer, one per field.
fn verifier_defaults() -> VerifyLimits {
    let cap: usize = 1 << 26;
    VerifyLimits {
        max_bytes: cap,
        max_polys: cap,
        max_terms_per_poly: cap,
        max_total_terms: cap,
        max_entries: cap,
        max_intermediate_bytes: cap,
        max_pool_monomials: cap,
        max_pool_entries: cap,
        max_input_polys: cap,
        max_nodes: cap,
        max_comb_steps: cap,
        max_trace_steps: cap,
        max_basis: cap,
        max_pairs: cap,
        max_division_steps: cap,
        max_total_division_steps: cap,
        max_live_bytes: cap,
        max_work_units: 1 << 40,
        deadline: None,
        cancellation: None,
    }
}

const SIZES: RecordSizes = RecordSizes { term: 16, exp: 4, poly: 24 };

fn bounded_limits(bytes: usize) -> ComputeLimits {
    ComputeLimits { memory: Some(bytes), ..ComputeLimits::default() }
}

#[test]
fn the_verifier_limits_come_from_what_is_left_of_the_budget() {
    let defaults = verifier_defaults();
    let bytes = vec![0u8; 1000];
    let unlimited = verifier_limits(bytes.len(), bytes.len(), 2, &ComputeLimits::default(), &defaults, SIZES);
    assert_eq!(unlimited.max_bytes, defaults.max_bytes);
    assert_eq!(unlimited.max_total_terms, defaults.max_total_terms);
    assert_eq!(unlimited.max_work_units, u64::MAX);

    let long = vec![0u8; defaults.max_bytes + 1];
    let raised = verifier_limits(long.len(), long.len(), 2, &ComputeLimits::default(), &defaults, SIZES);
    assert_eq!(raised.max_bytes, long.len());
    assert_eq!(raised.max_total_terms, long.len());
    assert_eq!(raised.max_polys, long.len());

    let bounded = verifier_limits(bytes.len(), bytes.len(), 2, &bounded_limits(1 << 20), &defaults, SIZES);
    assert_eq!(bounded.max_bytes, 1 << 20);
    assert!(bounded.max_total_terms < defaults.max_total_terms);
    assert!(bounded.max_total_terms > 0);
    // a third of what is left, over one term of two exponents
    assert_eq!(bounded.max_total_terms, ((1 << 20) - 1000) / 3 / 24);
    assert_eq!(bounded.max_polys, ((1 << 20) - 1000) / 3 / 24);
    assert_eq!(bounded.max_pairs, ((1 << 20) - 1000) / 3 / 64);

    let spent = verifier_limits(bytes.len(), bytes.len(), 2, &bounded_limits(bytes.len()), &defaults, SIZES);
    assert_eq!(spent.max_bytes, bytes.len());
    assert_eq!(spent.max_polys, 1);
    assert_eq!(spent.max_total_terms, 1);
    assert_eq!(spent.max_intermediate_bytes, SIZES.term + 2 * SIZES.exp);

    let with_other_data = verifier_limits(bytes.len(), bytes.len() + 500, 2, &bounded_limits(1 << 20), &defaults, SIZES);
    assert!(with_other_data.max_total_terms < bounded.max_total_terms);
}

#[test]
fn the_verifier_keeps_the_deadline_and_prefers_the_callers_flag() {
    let outer = Arc::new(AtomicBool::new(false));
    let inner = Arc::new(AtomicBool::new(false));
    let limits = ComputeLimits {
        cancel: Some(inner.clone()),
        external_cancel: Some(outer.clone()),
        ..ComputeLimits::default()
    };
    let v = verifier_limits(10, 10, 2, &limits, &verifier_defaults(), SIZES);
    assert!(v.deadline.is_none());
    assert!(Arc::ptr_eq(v.cancellation.as_ref().expect("a flag"), &outer));
    let only_inner = ComputeLimits { cancel: Some(inner.clone()), ..ComputeLimits::default() };
    let v = verifier_limits(10, 10, 2, &only_inner, &verifier_defaults(), SIZES);
    assert!(Arc::ptr_eq(v.cancellation.as_ref().expect("a flag"), &inner));
}
