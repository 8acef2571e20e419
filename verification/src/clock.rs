//! Readings of the monotonic clock. Nothing is stated of the values:
//! callers that decide on time take the reading as an argument.
use vstd::prelude::*;

use std::time::{Duration, Instant};

verus! {

/// `std::time::Instant`, a reading of the monotonic clock.
#[verifier::external_type_specification]
#[verifier::external_body]
pub struct ExInstant(Instant);

/// `Instant::now`: the current reading of the monotonic clock.
#[verifier::external_body]
pub(crate) fn clock_now() -> (r: Instant) {
    Instant::now()
}

/// `Instant::elapsed`: the time since `origin`.
#[verifier::external_body]
pub(crate) fn elapsed_since(origin: &Instant) -> (r: Duration) {
    origin.elapsed()
}

/// `Duration::as_nanos`: the whole nanoseconds of `d`.
#[verifier::external_body]
pub(crate) fn duration_nanos(d: &Duration) -> (r: u128) {
    d.as_nanos()
}

/// Whole nanoseconds since `origin`, saturated to `u64::MAX`.
pub(crate) fn nanos_since(origin: &Instant) -> (r: u64) {
    let n = duration_nanos(&elapsed_since(origin));
    if n > 0xffff_ffff_ffff_ffffu128 {
        0xffff_ffff_ffff_ffffu64
    } else {
        n as u64
    }
}

} // verus!
