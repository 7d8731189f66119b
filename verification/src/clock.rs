//! The wall clock: the system time, read through std, validated and
//! converted to a Unix timestamp by chrono (as `chrono::Utc::now` does, but
//! answering `None` where `Utc::now` would panic).
use vstd::prelude::*;
use std::time::SystemTime;
use core::time::Duration;
use chrono::NaiveDateTime;

verus! {

/// A bound on Unix times in seconds that chrono can represent: its dates run
/// from the year -262143 to the year 262142, under 10^13 seconds either way
/// of the epoch.
pub const MAX_TIMESTAMP: i64 = 10_000_000_000_000;

#[verifier::external_type_specification]
#[verifier::external_body]
pub struct ExSystemTime(SystemTime);

/// `std::time::SystemTime::now`: the current system time. Nothing is known
/// of the value.
#[verifier::external_body]
fn system_time_now() -> SystemTime {
    SystemTime::now()
}

/// `SystemTime::duration_since(UNIX_EPOCH)`: the time since the Unix epoch,
/// `None` for a time before it. Nothing is stated of the duration.
#[verifier::external_body]
fn since_epoch(t: &SystemTime) -> Option<Duration> {
    t.duration_since(std::time::UNIX_EPOCH).ok()
}

/// `Duration::as_secs`: the whole seconds of a duration. Nothing is stated
/// of the value.
#[verifier::external_body]
fn duration_secs(d: &Duration) -> u64 {
    d.as_secs()
}

/// `Duration::subsec_nanos`: the fractional part of a duration in
/// nanoseconds, which std documents as less than one billion.
#[verifier::external_body]
fn duration_subsec_nanos(d: &Duration) -> (r: u32)
    ensures
        r < 1_000_000_000,
{
    d.subsec_nanos()
}

/// `chrono::NaiveDateTime::from_timestamp_opt` on seconds and nanoseconds
/// since the Unix epoch, read back with `NaiveDateTime::timestamp` and
/// `NaiveDateTime::timestamp_millis`. chrono answers `None` outside its range
/// of dates (about 262,000 years either way; the bounds are not stated here)
/// and for nanoseconds of two seconds or more; its dates lie between the
/// years -262143 and 262142 (`MIN_YEAR`, `MAX_YEAR`), so a timestamp it
/// accepts is under `MAX_TIMESTAMP` either way. Its documentation promises
/// that the date round-trips with the timestamp: the seconds read back are
/// the seconds given, and the milliseconds are those seconds times a
/// thousand plus the whole milliseconds of the nanoseconds.
#[verifier::external_body]
#[allow(deprecated)]
fn utc_timestamps(secs: i64, nsecs: u32) -> (r: Option<(i64, i64)>)
    requires
        nsecs < 1_000_000_000,
    ensures
        r matches Some(x) ==> x.0 == secs && x.1 == secs * 1000 + nsecs / 1_000_000
            && -MAX_TIMESTAMP < secs < MAX_TIMESTAMP,
{
    match NaiveDateTime::from_timestamp_opt(secs, nsecs) {
        Some(d) => Some((d.timestamp(), d.timestamp_millis())),
        None => None,
    }
}

/// Whole seconds since the Unix epoch as a timestamp: `None` beyond the
/// largest 64-bit timestamp.
pub fn epoch_secs(secs: u64) -> (r: Option<i64>)
    ensures
        r == (if secs <= i64::MAX as u64 { Some(secs as i64) } else { None::<i64> }),
{
    if secs > i64::MAX as u64 {
        None
    } else {
        Some(secs as i64)
    }
}

/// The Unix timestamp, in whole seconds, of a time `secs` seconds and
/// `nsecs` nanoseconds after the epoch, as chrono computes it; `None`
/// beyond the largest 64-bit timestamp or beyond chrono's range of dates.
pub fn timestamp_of(secs: u64, nsecs: u32) -> (r: Option<i64>)
    requires
        nsecs < 1_000_000_000,
    ensures
        r matches Some(x) ==> x == secs && x < MAX_TIMESTAMP,
        secs > i64::MAX ==> r is None,
{
    match epoch_secs(secs) {
        Some(s) => match utc_timestamps(s, nsecs) {
            Some(t) => Some(t.0),
            None => None,
        },
        None => None,
    }
}

/// The Unix timestamp, in milliseconds, of a time `secs` seconds and
/// `nsecs` nanoseconds after the epoch, as chrono computes it; `None`
/// beyond the largest 64-bit timestamp or beyond chrono's range of dates.
pub fn timestamp_millis_of(secs: u64, nsecs: u32) -> (r: Option<i64>)
    requires
        nsecs < 1_000_000_000,
    ensures
        r matches Some(x) ==> x == secs * 1000 + nsecs / 1_000_000 && secs < MAX_TIMESTAMP,
        secs > i64::MAX ==> r is None,
{
    match epoch_secs(secs) {
        Some(s) => match utc_timestamps(s, nsecs) {
            Some(t) => Some(t.1),
            None => None,
        },
        None => None,
    }
}

/// The current time in whole seconds since the Unix epoch
/// (`Utc::now().timestamp()`); `None` when the system clock is before the
/// epoch or beyond chrono's range of dates (where `Utc::now` panics).
pub fn now() -> (r: Option<i64>)
    ensures
        r matches Some(x) ==> 0 <= x < MAX_TIMESTAMP,
{
    match since_epoch(&system_time_now()) {
        Some(d) => timestamp_of(duration_secs(&d), duration_subsec_nanos(&d)),
        None => None,
    }
}

/// The current time in milliseconds since the Unix epoch
/// (`Utc::now().timestamp_millis()`); `None` when the system clock is
/// before the epoch or beyond chrono's range of dates.
pub fn now_millis() -> (r: Option<i64>)
    ensures
        r matches Some(x) ==> 0 <= x < MAX_TIMESTAMP * 1000,
{
    match since_epoch(&system_time_now()) {
        Some(d) => timestamp_millis_of(duration_secs(&d), duration_subsec_nanos(&d)),
        None => None,
    }
}

} // verus!
