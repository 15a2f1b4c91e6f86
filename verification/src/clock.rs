//! The wall clock, by which the searches keep to their time budgets.

use std::time::{Duration, Instant};
use vstd::prelude::*;

verus! {

/// `std::time::Instant`, a point in time. Nothing is known of what it holds.
#[verifier::external_type_specification]
#[verifier::external_body]
pub struct ExInstant(Instant);

/// `std::time::Instant::now`: the present moment. Nothing is claimed of it.
#[verifier::external_body]
pub(crate) fn clock_start() -> (start: Instant) {
    Instant::now()
}

/// `std::time::Instant::elapsed`: the time that has passed since `start`.
/// Nothing is claimed of it.
#[verifier::external_body]
pub(crate) fn clock_elapsed(start: &Instant) -> (passed: Duration) {
    start.elapsed()
}

/// `std::time::Duration::as_nanos`: the length of `span` in nanoseconds. To
/// Verus a `Duration` holds nothing, so nothing is claimed of the number.
#[verifier::external_body]
pub(crate) fn duration_nanos(span: &Duration) -> (nanos: u128) {
    span.as_nanos()
}

} // verus!
