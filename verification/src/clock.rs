//! Readings of the system clock. What they return depends on the machine and
//! the moment, so nothing is promised of their values; the functions that use
//! them have counterparts that take the reading as an argument.
use vstd::prelude::*;

verus! {

/// Whole seconds since the Unix epoch, read from `std::time::SystemTime::now`.
/// A clock set before the epoch reads 0. No property of the value is claimed.
#[verifier::external_body]
pub(crate) fn unix_now_secs() -> u64 {
    match std::time::SystemTime::now().duration_since(std::time::UNIX_EPOCH) {
        Ok(d) => d.as_secs(),
        Err(_) => 0,
    }
}

/// Nanoseconds since the Unix epoch, read from `std::time::SystemTime::now`.
/// A clock set before the epoch reads 0. No property of the value is claimed.
#[verifier::external_body]
pub(crate) fn unix_now_nanos() -> u128 {
    match std::time::SystemTime::now().duration_since(std::time::UNIX_EPOCH) {
        Ok(d) => d.as_nanos(),
        Err(_) => 0,
    }
}

/// A span of time given in nanoseconds, as `std::time::Duration::from_nanos` makes it.
pub uninterp spec fn duration_of_nanos(nanos: u64) -> std::time::Duration;

/// `std::time::Duration::from_nanos(nanos)`; the result is claimed to be the
/// named function `duration_of_nanos` of the count.
#[verifier::external_body]
pub(crate) fn duration_from_nanos(nanos: u64) -> (r: std::time::Duration)
    ensures
        r == duration_of_nanos(nanos),
{
    std::time::Duration::from_nanos(nanos)
}

} // verus!
