//! Monotonic time, read as whole nanoseconds since a fixed origin.
use std::time::{Duration, Instant};
use vstd::prelude::*;

verus! {

/// `std::time::Instant`, carried through as an opaque value.
#[verifier::external_type_specification]
#[verifier::external_body]
pub struct ExInstant(Instant);

/// The largest number of nanoseconds a `Duration` can hold:
/// `u64::MAX` whole seconds plus 999_999_999 nanoseconds.
pub const MAX_DURATION_NANOS: u128 = 18_446_744_073_709_551_615_999_999_999u128;

/// Calls `Instant::now`. Nothing is stated of the result: it is the clock's reading.
#[verifier::external_body]
pub(crate) fn instant_now() -> Instant {
    Instant::now()
}

/// Calls `Instant::elapsed` on `origin`. Nothing is stated of the result: it depends on
/// the clock's reading at the moment of the call. `origin` is always a reading taken
/// earlier, so the call does not meet the case in which std currently saturates to zero
/// (and, as its documentation warns, a later version of std may panic).
#[verifier::external_body]
pub(crate) fn instant_elapsed(origin: &Instant) -> Duration {
    origin.elapsed()
}

/// The total number of whole nanoseconds in a duration.
pub uninterp spec fn duration_nanos(d: Duration) -> u128;

/// Calls `Duration::as_nanos`, which returns the total number of whole nanoseconds in the
/// duration: a function of the duration alone, named `duration_nanos` here. That number is
/// no greater than the largest duration, `Duration::MAX`, expressed in nanoseconds.
#[verifier::external_body]
pub(crate) fn duration_as_nanos(d: &Duration) -> (r: u128)
    ensures
        r == duration_nanos(*d),
        r <= MAX_DURATION_NANOS,
{
    d.as_nanos()
}

} // verus!
