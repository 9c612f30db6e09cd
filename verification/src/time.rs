//! Timestamps: 100-nanosecond ticks since the start of the year 1601.

use std::time::{Duration, SystemTime, SystemTimeError, UNIX_EPOCH};
use vstd::prelude::*;

verus! {

/// The timestamp of the start of 1970.
pub const UNIX_EPOCH_TIMESTAMP: u64 = 116_444_736_000_000_000;

/// The timestamp of the moment `secs` seconds and `nanos` nanoseconds after
/// the start of 1970, before it is cut to 64 bits: there are 11644473600
/// seconds between the start of 1601 and that of 1970, and ten million ticks
/// in a second.
pub open spec fn ticks(secs: u64, nanos: u32) -> int {
    (secs + 11_644_473_600) * 10_000_000 + nanos / 100
}

/// The timestamp of the moment `secs` seconds and `nanos` nanoseconds after
/// the start of 1970; the largest timestamp where 64 bits cannot hold it.
pub open spec fn timestamp_at(secs: u64, nanos: u32) -> u64 {
    if ticks(secs, nanos) <= u64::MAX {
        ticks(secs, nanos) as u64
    } else {
        u64::MAX
    }
}

/// Computes the timestamp of a moment that is given in seconds and
/// nanoseconds after the start of 1970.
pub fn timestamp_from_unix_time(secs: u64, nanos: u32) -> (r: u64)
    ensures
        r == timestamp_at(secs, nanos),
{
    let whole: u128 = (secs as u128 + 11_644_473_600u128) * 10_000_000u128;
    let all: u128 = whole + (nanos / 100) as u128;
    if all <= u64::MAX as u128 {
        all as u64
    } else {
        u64::MAX
    }
}

/// The timestamp of the moment `secs` seconds and `nanos` nanoseconds
/// before the start of 1970; the start of 1601 for any moment before it.
pub open spec fn timestamp_before(secs: u64, nanos: u32) -> u64 {
    if secs * 10_000_000 + nanos / 100 <= UNIX_EPOCH_TIMESTAMP {
        (UNIX_EPOCH_TIMESTAMP - (secs * 10_000_000 + nanos / 100)) as u64
    } else {
        0
    }
}

/// Computes the timestamp of a moment that is given in seconds and
/// nanoseconds before the start of 1970.
pub fn timestamp_before_unix_time(secs: u64, nanos: u32) -> (r: u64)
    ensures
        r == timestamp_before(secs, nanos),
{
    let back: u128 = (secs as u128) * 10_000_000u128 + (nanos / 100) as u128;
    if back <= UNIX_EPOCH_TIMESTAMP as u128 {
        UNIX_EPOCH_TIMESTAMP - back as u64
    } else {
        0
    }
}

/// Splits a timestamp into the seconds and nanoseconds between it and the
/// start of 1970, and tells whether it lies before that.
pub fn unix_time_from_timestamp(timestamp: u64) -> (r: (bool, u64, u32))
    ensures
        r.0 == (timestamp < UNIX_EPOCH_TIMESTAMP),
        r.2 < 1_000_000_000,
        r.2 % 100 == 0,
        !r.0 ==> timestamp == UNIX_EPOCH_TIMESTAMP + r.1 * 10_000_000 + r.2 / 100,
        r.0 ==> timestamp == UNIX_EPOCH_TIMESTAMP - (r.1 * 10_000_000 + r.2 / 100),
        !r.0 ==> timestamp_at(r.1, r.2) == timestamp,
        r.0 ==> timestamp_before(r.1, r.2) == timestamp,
{
    let before: bool = timestamp < UNIX_EPOCH_TIMESTAMP;
    let delta: u64 = if before {
        UNIX_EPOCH_TIMESTAMP - timestamp
    } else {
        timestamp - UNIX_EPOCH_TIMESTAMP
    };
    let secs: u64 = delta / 10_000_000;
    let nanos: u32 = ((delta % 10_000_000) * 100) as u32;
    (before, secs, nanos)
}

/// `std::time::SystemTime`: a moment of the system clock.  Nothing is
/// known of a value of it.
#[verifier::external_type_specification]
#[verifier::external_body]
pub struct ExSystemTime(std::time::SystemTime);

/// `std::time::SystemTimeError`: the failure of `duration_since`, for a
/// moment that lies before the one it is measured from.
#[verifier::external_type_specification]
#[verifier::external_body]
pub struct ExSystemTimeError(std::time::SystemTimeError);

/// `SystemTime::now`: the present moment of the system clock.  The clock
/// decides what comes back; nothing is claimed of it.
#[verifier::external_body]
pub(crate) fn system_now() -> SystemTime {
    SystemTime::now()
}

/// `SystemTime::duration_since`, measured from `UNIX_EPOCH`: the time that
/// has passed since the start of 1970, or the failure that holds the time
/// still to pass until then.  Nothing is claimed of either.
#[verifier::external_body]
pub(crate) fn since_unix_epoch(time: &SystemTime) -> Result<Duration, SystemTimeError> {
    time.duration_since(UNIX_EPOCH)
}

/// `SystemTimeError::duration`: how far the moment lies before the one it
/// was measured from.  Nothing is claimed of it.
#[verifier::external_body]
pub(crate) fn until_unix_epoch(err: &SystemTimeError) -> Duration {
    err.duration()
}

/// `Duration::as_secs`: the whole seconds of a span of time.  Nothing is
/// claimed of their number.
#[verifier::external_body]
pub(crate) fn whole_secs(span: &Duration) -> u64 {
    span.as_secs()
}

/// `Duration::subsec_nanos`: the part of a span of time below a second, in
/// nanoseconds, which is less than a thousand million.
#[verifier::external_body]
pub(crate) fn subsec_nanos(span: &Duration) -> (r: u32)
    ensures
        r < 1_000_000_000,
{
    span.subsec_nanos()
}

/// The timestamp of the present moment.
pub fn current_timestamp() -> u64 {
    let now: SystemTime = system_now();
    match since_unix_epoch(&now) {
        Ok(since) => timestamp_from_unix_time(whole_secs(&since), subsec_nanos(&since)),
        Err(err) => {
            let before: Duration = until_unix_epoch(&err);
            timestamp_before_unix_time(whole_secs(&before), subsec_nanos(&before))
        },
    }
}

} // verus!
