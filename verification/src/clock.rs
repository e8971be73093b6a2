use vstd::prelude::*;
use std::time::Duration;
use std::time::Instant;

verus! {

/// `std::time::Instant`: a reading of the monotonic clock. Nothing is known of
/// what it holds.
#[verifier::external_type_specification]
#[verifier::external_body]
pub struct ExInstant(Instant);

/// `Instant::clone`, which copies a reading. An `Instant` is opaque here, so
/// nothing is stated of the copy.
pub assume_specification[ <Instant as Clone>::clone ](instant: &Instant) -> (copy: Instant);

/// `Instant::now`, which reads the clock. The reading differs from call to
/// call, so nothing is stated of it.
#[verifier::external_body]
pub(crate) fn now() -> Instant {
    Instant::now()
}

/// `Instant::elapsed`, the time that has passed since the reading was taken.
/// It depends on the clock, so nothing is stated of it.
#[verifier::external_body]
pub(crate) fn elapsed(since: &Instant) -> Duration {
    since.elapsed()
}

/// `Duration::subsec_nanos`, the part of the duration below one second, in
/// nanoseconds: always less than a thousand million.
#[verifier::external_body]
pub(crate) fn subsec_nanos(duration: &Duration) -> (nanos: u32)
    ensures
        nanos < 1_000_000_000,
{
    duration.subsec_nanos()
}

} // verus!
