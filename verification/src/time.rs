//! Instants on the UTC time line, and the reads of the clock and calendar
//! that the services make.

use chrono::TimeZone;
use vstd::prelude::*;

verus! {

/// An instant in UTC: whole non-leap seconds since 1970-01-01 00:00:00 UTC and
/// the nanoseconds past that second (above 999_999_999 only inside a leap
/// second). Instants are ordered by `secs` first and `nanos` second.
#[derive(Clone, Copy, PartialEq, Eq, Structural, Debug)]
pub struct Timestamp {
    pub secs: i64,
    pub nanos: u32,
}

impl Timestamp {
    /// `self` lies strictly before `other`.
    pub open spec fn precedes(self, other: Timestamp) -> bool {
        self.secs < other.secs || (self.secs == other.secs && self.nanos < other.nanos)
    }

    /// The Unix epoch, 1970-01-01 00:00:00 UTC.
    pub open spec fn epoch() -> Timestamp {
        Timestamp { secs: 0, nanos: 0 }
    }

    /// Whether `self` lies strictly before `other`.
    pub fn is_before(&self, other: &Timestamp) -> (r: bool)
        ensures
            r == self.precedes(*other),
    {
        self.secs < other.secs || (self.secs == other.secs && self.nanos < other.nanos)
    }
}

/// Instants are ordered as the time line orders them: by seconds, then by
/// nanoseconds. The order is strict and total: no instant precedes itself,
/// of two instants at most one precedes the other, it is transitive, and of
/// two different instants one precedes the other, however close they are.
pub proof fn law_timestamp_order(a: Timestamp, b: Timestamp, c: Timestamp)
    ensures
        a.precedes(b) <==> (a.secs < b.secs || (a.secs == b.secs && a.nanos < b.nanos)),
        !a.precedes(a),
        a.precedes(b) ==> !b.precedes(a),
        a.precedes(b) && b.precedes(c) ==> a.precedes(c),
        a != b ==> a.precedes(b) || b.precedes(a),
{
}

impl Default for Timestamp {
    /// The Unix epoch, as for a defaulted `DateTime<Utc>`.
    fn default() -> (r: Timestamp)
        ensures
            r == Timestamp::epoch(),
    {
        Timestamp { secs: 0, nanos: 0 }
    }
}

/// What `chrono` gives for the UTC date and time of day with the given fields:
/// the Unix seconds and the nanoseconds of that instant, or `None` where the
/// fields name no valid instant.
pub uninterp spec fn utc_civil_instant(
    year: i32,
    month: u32,
    day: u32,
    hour: u32,
    min: u32,
    sec: u32,
) -> Option<(i64, u32)>;

/// Calls `chrono::Utc.with_ymd_and_hms(..)` and keeps its single result, if any.
/// The contract claims that the result is determined by the six arguments
/// (named `utc_civil_instant`), and, from chrono's documentation of
/// `DateTime::timestamp` (seconds since 1970-01-01 00:00:00 UTC), that the
/// start of 1970-01-01 is the instant with 0 seconds and 0 nanoseconds.
#[verifier::external_body]
pub(crate) fn utc_with_ymd_and_hms(
    year: i32,
    month: u32,
    day: u32,
    hour: u32,
    min: u32,
    sec: u32,
) -> (r: Option<Timestamp>)
    ensures
        r == (match utc_civil_instant(year, month, day, hour, min, sec) {
            Some((s, n)) => Some(Timestamp { secs: s, nanos: n }),
            None => None,
        }),
        (year == 1970 && month == 1 && day == 1 && hour == 0 && min == 0 && sec == 0) ==> r
            == Some(Timestamp::epoch()),
{
    match chrono::Utc.with_ymd_and_hms(year, month, day, hour, min, sec).single() {
        Some(dt) => Some(Timestamp { secs: dt.timestamp(), nanos: dt.timestamp_subsec_nanos() }),
        None => None,
    }
}

/// The system clock's readings, as `std` gives them.
#[verifier::external_type_specification]
#[verifier::external_body]
pub struct ExSystemTime(std::time::SystemTime);

/// Calls `std::time::SystemTime::now()`: a reading of the system clock.
/// Nothing is claimed of it.
#[verifier::external_body]
fn system_time_now() -> std::time::SystemTime {
    std::time::SystemTime::now()
}

/// Calls `SystemTime::duration_since(UNIX_EPOCH)` on `reading`: the whole
/// seconds and the nanoseconds by which the reading lies after the Unix epoch,
/// or `None` where it lies before it (the call's error). The contract claims
/// only what `Duration` documents of every value: its sub-second nanoseconds
/// stay below one second. Which duration comes back depends on the clock
/// reading, which the library cannot see into.
#[verifier::external_body]
fn since_unix_epoch(reading: &std::time::SystemTime) -> (r: Option<(u64, u32)>)
    ensures
        r matches Some((_, nanos)) ==> nanos < 1_000_000_000,
{
    match reading.duration_since(std::time::UNIX_EPOCH) {
        Ok(d) => Some((d.as_secs(), d.subsec_nanos())),
        Err(_) => None,
    }
}

/// Whether `chrono` can represent the instant `secs` seconds and `nanos`
/// nanoseconds after the Unix epoch as a `DateTime<Utc>`.
pub uninterp spec fn utc_timestamp_in_range(secs: i64, nanos: u32) -> bool;

/// Calls `chrono::DateTime::from_timestamp(secs, nanos)`. The contract claims
/// that whether it succeeds is determined by the two arguments (named
/// `utc_timestamp_in_range`), and, from chrono's documentation ("guaranteed to
/// round-trip with `timestamp` and `timestamp_subsec_nanos`"), that on success
/// the instant has exactly these seconds and nanoseconds.
#[verifier::external_body]
fn utc_from_timestamp(secs: i64, nanos: u32) -> (r: Option<Timestamp>)
    ensures
        r == (if utc_timestamp_in_range(secs, nanos) {
            Some(Timestamp { secs, nanos })
        } else {
            None
        }),
{
    match chrono::DateTime::from_timestamp(secs, nanos) {
        Some(dt) => Some(Timestamp { secs: dt.timestamp(), nanos: dt.timestamp_subsec_nanos() }),
        None => None,
    }
}

/// The UTC instant that lies `since` (whole seconds, nanoseconds) after the
/// Unix epoch, where `since` is a clock reading that lay after the epoch:
/// `None` where there is no reading, where the seconds do not fit in an
/// `i64`, or where `chrono` cannot represent the instant.
pub fn instant_since_epoch(since: Option<(u64, u32)>) -> (t: Option<Timestamp>)
    ensures
        t == (match since {
            Some((secs, nanos)) => if secs <= i64::MAX && utc_timestamp_in_range(secs as i64, nanos) {
                Some(Timestamp { secs: secs as i64, nanos })
            } else {
                None
            },
            None => None,
        }),
{
    match since {
        Some((secs, nanos)) => {
            if secs <= i64::MAX as u64 {
                utc_from_timestamp(secs as i64, nanos)
            } else {
                None
            }
        },
        None => None,
    }
}

/// The current instant in UTC, read from the system clock as
/// `chrono::Utc::now()` reads it, or `None` where the clock reads a time
/// before the Unix epoch or one that `chrono` cannot represent.
pub(crate) fn utc_now() -> (t: Option<Timestamp>)
    ensures
        t matches Some(now) ==> now.secs >= 0 && now.nanos < 1_000_000_000 && utc_timestamp_in_range(
            now.secs,
            now.nanos,
        ),
{
    let reading = system_time_now();
    instant_since_epoch(since_unix_epoch(&reading))
}

} // verus!
