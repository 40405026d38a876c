//! Trusted boundary to the wall clock, used only for the restart-boundary
//! timeout. Nothing is assumed of the values, so everything proved about the
//! engine holds whatever the clock reports.

use vstd::prelude::*;

verus! {

#[verifier::external_type_specification]
#[verifier::external_body]
pub struct ExInstant(std::time::Instant);

/// Relies on std::time::Instant::now for a point on the wall clock.
#[verifier::external_body]
pub(crate) fn instant_now() -> std::time::Instant {
    std::time::Instant::now()
}

/// Relies on std::time::Instant::elapsed for the time since `start`.
#[verifier::external_body]
pub(crate) fn elapsed_since(start: &std::time::Instant) -> std::time::Duration {
    start.elapsed()
}

/// Relies on core::time::Duration::as_millis for the whole milliseconds of a
/// duration.
#[verifier::external_body]
pub(crate) fn duration_as_millis(d: &std::time::Duration) -> u128 {
    d.as_millis()
}

} // verus!
