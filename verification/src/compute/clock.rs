//! The clock and the cancellation flags a run reads.
//!
//! Nothing here is a function of its arguments: the clock moves and another
//! thread may set a flag at any time. Verified code reads these values and
//! states what holds whatever they are.

use std::sync::Arc;
use std::sync::atomic::AtomicBool;
use std::time::{Duration, Instant};
use vstd::prelude::*;

verus! {

#[verifier::external_type_specification]
#[verifier::external_body]
pub struct ExInstant(Instant);

/// `Instant::now`: the current instant. Nothing is stated of it.
pub assume_specification[ Instant::now ]() -> Instant;

/// `Instant::checked_add`: the instant `timeout` after `at`, or `None` when
/// the platform cannot represent it. Nothing is stated of the value, which
/// depends on the platform's clock representation.
#[verifier::external_body]
pub fn instant_after(at: Instant, timeout: Duration) -> (r: Option<Instant>) {
    at.checked_add(timeout)
}

/// `Instant >= Instant`: whether `now` is at or after `at`. Nothing is
/// stated of the answer; callers only read it as a stop signal.
#[verifier::external_body]
pub fn reached(now: Instant, at: Instant) -> (r: bool) {
    now >= at
}

/// `Arc::ptr_eq`: whether the two handles share one flag. Identity is an
/// address, so nothing is stated of it.
#[verifier::external_body]
pub fn same_flag(left: &Arc<AtomicBool>, right: &Arc<AtomicBool>) -> (r: bool) {
    Arc::ptr_eq(left, right)
}

/// `Arc::clone`: a second handle to the same allocation, so the flag it
/// reads is the one `flag` reads.
#[verifier::external_body]
pub fn share_flag(flag: &Arc<AtomicBool>) -> (r: Arc<AtomicBool>)
    ensures
        r == *flag,
{
    flag.clone()
}

/// Read a shared flag. Another thread may set it at any time.
pub fn flag_is_set(flag: &Arc<AtomicBool>) -> (r: bool) {
    flag.load(std::sync::atomic::Ordering::Relaxed)
}

/// Set a shared flag.
pub fn set_flag(flag: &Arc<AtomicBool>) {
    flag.store(true, std::sync::atomic::Ordering::Relaxed)
}

/// A fresh flag, unset.
pub fn new_flag() -> Arc<AtomicBool> {
    Arc::new(AtomicBool::new(false))
}

} // verus!
