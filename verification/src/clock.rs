//! Points in time: what the outside calendar makes of a text or a timestamp.

use crate::text::opt_text;
use vstd::prelude::*;

verus! {

/// The instant that `DateTime::parse_from_rfc3339` reads a text as: seconds
/// since the epoch, and nanoseconds within the second (a leap second counts on
/// past one billion). `None` where it rejects the text.
pub uninterp spec fn rfc3339_instant(text: Seq<char>) -> Option<(i64, u32)>;

/// Calls `chrono::DateTime::parse_from_rfc3339` and hands out what `timestamp`
/// and `timestamp_subsec_nanos` say of the instant. A year has four digits and
/// an offset is less than a day, which bounds the seconds.
#[verifier::external_body]
pub(crate) fn read_rfc3339(text: &str) -> (out: Option<(i64, u32)>)
    ensures
        out == rfc3339_instant(text@),
        out matches Some(t) ==> -62_167_305_600 <= t.0 <= 253_402_387_199 && t.1 < 2_000_000_000,
{
    chrono::DateTime::parse_from_rfc3339(text).ok().map(
        |t| (t.timestamp(), t.timestamp_subsec_nanos()),
    )
}

/// Milliseconds since the epoch.
pub open spec fn millis(t: (i64, u32)) -> int {
    t.0 * 1000 + t.1 as int / 1_000_000
}

/// The pattern of a calendar date.
pub open spec fn date_pattern() -> Seq<char> {
    "%Y-%m-%d"@
}

/// The pattern of a date with hours and minutes.
pub open spec fn minute_pattern() -> Seq<char> {
    "%Y-%m-%d %H:%M UTC"@
}

/// How `DateTime::<Utc>::from_timestamp(ts, 0)` is written by `format` with a
/// pattern; `None` where the timestamp is beyond the calendar.
pub uninterp spec fn utc_formatted(ts: i64, pattern: Seq<char>) -> Option<Seq<char>>;

/// Calls `chrono::DateTime::from_timestamp` and `format`. The calendar counts
/// its days in 32 bits, which bounds the timestamps that it takes.
#[verifier::external_body]
pub(crate) fn format_utc(ts: i64, pattern: &str) -> (out: Option<String>)
    requires
        pattern@ == date_pattern() || pattern@ == minute_pattern(),
    ensures
        opt_text(out) == utc_formatted(ts, pattern@),
        out is Some ==> -200_000_000_000_000 <= ts <= 200_000_000_000_000,
{
    chrono::DateTime::from_timestamp(ts, 0).map(|t| t.format(pattern).to_string())
}

/// Calls `chrono::Utc::now`: the seconds since the epoch on the machine's
/// clock. It counts from the epoch, and what it returns is within the calendar.
/// (It stops the program on a machine whose clock stands before the epoch.)
#[verifier::external_body]
pub(crate) fn now() -> (out: i64)
    ensures
        0 <= out <= 200_000_000_000_000,
{
    chrono::Utc::now().timestamp()
}

} // verus!
