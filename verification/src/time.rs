//! Points in time, read from the system clock and rendered by `chrono`.

use vstd::prelude::*;
use chrono::{DateTime, SecondsFormat, Utc};

verus! {

/// A point in time: whole seconds since the Unix epoch (UTC) and the
/// nanoseconds past that second.
#[derive(Clone, Copy, Debug, PartialEq, Eq, Structural)]
pub struct Timestamp {
    pub secs: i64,
    pub nanos: u32,
}

impl Timestamp {
    /// The Unix epoch, 1970-01-01T00:00:00Z (`DateTime<Utc>`'s default).
    pub fn epoch() -> (t: Timestamp)
        ensures
            t.secs == 0,
            t.nanos == 0,
    {
        Timestamp { secs: 0, nanos: 0 }
    }
}

/// The RFC 3339 rendering of a time in UTC with milliseconds and a `Z` suffix
/// (`2024-01-01T00:00:00.000Z`), as `chrono`'s `DateTime::to_rfc3339_opts(SecondsFormat::Millis,
/// true)` gives it, or `None` where `DateTime::from_timestamp` rejects the pair.
pub uninterp spec fn rfc3339_text(secs: i64, nanos: u32) -> Option<Seq<char>>;

/// The compact ISO 8601 basic rendering `YYYYMMDDTHHMMSSZ` that `chrono`'s
/// `format("%Y%m%dT%H%M%SZ")` gives, or `None` where `DateTime::from_timestamp` rejects the pair.
pub uninterp spec fn amz_date_text(secs: i64, nanos: u32) -> Option<Seq<char>>;

/// The view of an optional string.
pub open spec fn opt_view(s: Option<String>) -> Option<Seq<char>> {
    match s {
        Some(x) => Some(x@),
        None => None,
    }
}

/// `Utc::now` from `chrono`, read as seconds and sub-second nanoseconds.
/// Claimed only what holds of every reading: the nanoseconds stay below
/// 2,000,000,000 (`chrono` documents values above 999,999,999 for leap seconds).
/// Which time comes back depends on the clock and is not stated.
#[verifier::external_body]
pub(crate) fn now() -> (t: Timestamp)
    ensures
        t.nanos < 2_000_000_000,
{
    let d = Utc::now();
    Timestamp { secs: d.timestamp(), nanos: d.timestamp_subsec_nanos() }
}

/// `DateTime::from_timestamp` then `to_rfc3339_opts(SecondsFormat::Millis, true)` from
/// `chrono`: claimed to return the named rendering of the time, or `None` where `chrono`
/// rejects it.
#[verifier::external_body]
pub(crate) fn rfc3339(t: Timestamp) -> (r: Option<String>)
    ensures
        opt_view(r) == rfc3339_text(t.secs, t.nanos),
{
    match DateTime::<Utc>::from_timestamp(t.secs, t.nanos) {
        Some(d) => Some(d.to_rfc3339_opts(SecondsFormat::Millis, true)),
        None => None,
    }
}

/// `DateTime::from_timestamp` then `format("%Y%m%dT%H%M%SZ")` from `chrono`: claimed to
/// return the named rendering of the time, or `None` where `chrono` rejects it.
#[verifier::external_body]
pub(crate) fn amz_date(t: Timestamp) -> (r: Option<String>)
    ensures
        opt_view(r) == amz_date_text(t.secs, t.nanos),
{
    match DateTime::<Utc>::from_timestamp(t.secs, t.nanos) {
        Some(d) => Some(d.format("%Y%m%dT%H%M%SZ").to_string()),
        None => None,
    }
}

/// The RFC 3339 rendering of `t`, or the empty string where there is none.
pub fn rfc3339_or_empty(t: Timestamp) -> (s: String)
    ensures
        s@ == (match rfc3339_text(t.secs, t.nanos) {
            Some(x) => x,
            None => Seq::empty(),
        }),
{
    match rfc3339(t) {
        Some(s) => s,
        None => String::new(),
    }
}

/// The RFC 2822 rendering of a time as `chrono`'s `DateTime::to_rfc2822` gives it,
/// or `None` where `DateTime::from_timestamp` rejects the pair.
pub uninterp spec fn rfc2822_text(secs: i64, nanos: u32) -> Option<Seq<char>>;

/// The first second of year 0 and of year 10000, in seconds since the Unix epoch: the
/// years that the RFC 2822 rendering can write lie between them.
pub open spec fn rfc2822_year_range(secs: i64) -> bool {
    -62167219200 <= secs && secs < 253402300800
}

/// `DateTime::from_timestamp` then `to_rfc2822` from `chrono`: claimed to return the named
/// rendering of the time, or `None` where `chrono` rejects it. `to_rfc2822` panics for
/// years below 0 or above 9999, which `requires` leaves out.
#[verifier::external_body]
pub(crate) fn rfc2822(t: Timestamp) -> (r: Option<String>)
    requires
        rfc2822_year_range(t.secs),
    ensures
        opt_view(r) == rfc2822_text(t.secs, t.nanos),
{
    match DateTime::<Utc>::from_timestamp(t.secs, t.nanos) {
        Some(d) => Some(d.to_rfc2822()),
        None => None,
    }
}

} // verus!
