//! Wall-clock readings, for the timings the pipeline reports.
use vstd::prelude::*;

use std::time::{Duration, Instant};

verus! {

#[verifier::external_type_specification]
#[verifier::external_body]
pub struct ExInstant(Instant);

/// `Instant::now` (std): the current moment. Nothing is claimed of it.
#[verifier::external_body]
pub(crate) fn instant_now() -> (t: Instant) {
    Instant::now()
}

/// `Instant::elapsed` (std): the time since `start`. Nothing is claimed of it.
#[verifier::external_body]
pub(crate) fn instant_elapsed(start: &Instant) -> (d: Duration) {
    start.elapsed()
}

/// `Duration::as_millis` (std): whole milliseconds of `d`. Nothing is claimed
/// of the value, as nothing is known of the duration.
#[verifier::external_body]
pub(crate) fn duration_millis(d: &Duration) -> (ms: u128) {
    d.as_millis()
}

/// Whole milliseconds since `start`.
pub(crate) fn millis_since(start: &Instant) -> (ms: u128) {
    let d = instant_elapsed(start);
    duration_millis(&d)
}

} // verus!
