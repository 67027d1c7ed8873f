//! How long a search has been running.

use std::time::Instant;
use vstd::prelude::*;

verus! {

/// `std::time::Instant`, a point in time. Nothing is known of it.
#[verifier::external_type_specification]
#[verifier::external_body]
pub struct ExInstant(Instant);

/// Calls `Instant::now`: the time at which it is called. Nothing is claimed of it.
#[verifier::external_body]
pub(crate) fn now() -> (r: Instant) {
    Instant::now()
}

/// Calls `Instant::elapsed`, and gives the duration in nanoseconds. Nothing is claimed of it.
#[verifier::external_body]
pub(crate) fn nanos_since(start: &Instant) -> (r: u128) {
    start.elapsed().as_nanos()
}

/// So many nanoseconds may be read off the clock after `start`.
pub closed spec fn is_reading(start: Instant, nanos: u128) -> bool {
    call_ensures(nanos_since, (&start,), nanos)
}

/// Reads the clock.
pub(crate) fn elapsed(start: &Instant) -> (r: u128)
    ensures
        is_reading(*start, r),
{
    nanos_since(start)
}

} // verus!
