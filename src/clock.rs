use vstd::prelude::*;

verus! {

#[verifier::external_type_specification]
#[verifier::external_body]
pub struct ExInstant(std::time::Instant);

/// Relies on std::time::Instant::now: a reading of the monotonic clock.
#[verifier::external_body]
pub(crate) fn clock_now() -> std::time::Instant {
    std::time::Instant::now()
}

/// Relies on std::time::Instant::elapsed: the whole seconds since `start`,
/// whatever the clock says.
#[verifier::external_body]
pub(crate) fn seconds_since(start: &std::time::Instant) -> u64 {
    start.elapsed().as_secs()
}

} // verus!
