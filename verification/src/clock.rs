//! The wall clock.

use vstd::prelude::*;

verus! {

/// The earliest instant that the clock reports, in microseconds since the
/// Unix epoch: the start of the year -9999, moved later by the widest
/// offset that a time zone may have.
pub const EARLIEST: i64 = -377_705_023_201_000_000;

/// The latest instant that the clock reports: the last microsecond of the
/// year 9999, moved earlier by the widest offset that a time zone may have.
pub const LATEST: i64 = 253_402_207_200_999_999;

/// Reads the system clock through `jiff::Timestamp`, by its conversion from
/// `std::time::SystemTime`, and gives the instant in whole microseconds
/// since the Unix epoch, as `jiff::Timestamp::as_microsecond` does.
///
/// Not proved: that an instant which jiff accepts lies between `EARLIEST`
/// and `LATEST`, the bounds of its `Timestamp`. Nothing is claimed of which
/// instant comes back, nor that one does: jiff refuses a system time outside
/// of those bounds.
#[verifier::external_body]
pub(crate) fn read_clock() -> (instant: Option<i64>)
    ensures
        instant matches Some(at) ==> EARLIEST <= at <= LATEST,
{
    match jiff::Timestamp::try_from(std::time::SystemTime::now()) {
        Ok(timestamp) => Some(timestamp.as_microsecond()),
        Err(_) => None,
    }
}

} // verus!
