//! Thin trusted access to the monotonic clock, used to bound how long the
//! subsequence search may run. Nothing is promised about what the clock
//! returns: callers must state what holds of every outcome.

use vstd::prelude::*;

verus! {

/// std's opaque monotonic clock reading.
#[verifier::external_type_specification]
#[verifier::external_body]
pub struct ExInstant(std::time::Instant);

/// Relies on `std::time::Instant::now`: takes an opaque reading of the
/// monotonic clock. No clause is stated: the reading depends on the moment
/// of the call, not on any argument.
#[verifier::external_body]
pub fn instant_now() -> std::time::Instant {
    std::time::Instant::now()
}

/// Relies on `std::time::Instant::elapsed` and `Duration::as_millis`: tells
/// whether more than `limit_ms` milliseconds have passed since `start` was
/// taken. No clause is stated: the answer depends on the moment of the call.
#[verifier::external_body]
pub fn millis_elapsed_exceeds(start: &std::time::Instant, limit_ms: u64) -> bool {
    start.elapsed().as_millis() > limit_ms as u128
}

} // verus!
