//! Timestamps.  Snapshots and patch records carry their creation time as a
//! text field; the engine orders them by the instant that text denotes.
//! Parsing and formatting are done by an outside date-time library behind
//! trusted wrappers; the engine itself only compares the resulting instants.

use vstd::prelude::*;

verus! {

/// The format in which all persisted timestamps are written: date, time with
/// nine fractional digits, and a numeric offset.
pub open spec fn full_format() -> Seq<char> {
    "%Y-%m-%d %H:%M:%S%.9f %z"@
}

/// The coarser format used when a snapshot is shown for selection.
pub open spec fn display_format() -> Seq<char> {
    "%Y-%m-%d %H:%M:%S %z"@
}

/// The instant a timestamp string denotes under a given format, as
/// nanoseconds from the epoch, or nothing when the text does not parse.
pub uninterp spec fn ts_instant_of(s: Seq<char>, fmt: Seq<char>) -> Option<int>;

/// The selection-display form of a timestamp string written in the full
/// format.
pub uninterp spec fn ts_display_of(s: Seq<char>) -> Seq<char>;

/// Relies on `chrono::DateTime::parse_from_str` and
/// `DateTime::timestamp_nanos_opt`: parsing is a function of the text and
/// the format alone, and the nanosecond count denotes the parsed instant,
/// so that two parsed timestamps compare as their instants do.
#[verifier::external_body]
pub fn parse_ts(s: &str, fmt: &str) -> (r: Option<i64>)
    ensures
        r matches Some(n) ==> ts_instant_of(s@, fmt@) == Some(n as int),
        r is None ==> ts_instant_of(s@, fmt@) is None,
{
    match chrono::DateTime::parse_from_str(s, fmt) {
        Ok(dt) => dt.timestamp_nanos_opt(),
        Err(_) => None,
    }
}

/// Relies on `chrono::DateTime::parse_from_str` and `DateTime::format`:
/// re-rendering a full-format timestamp in the display format is a function
/// of the text alone, and succeeds exactly when the text parses.
#[verifier::external_body]
pub fn display_ts(s: &str) -> (r: Option<String>)
    ensures
        r matches Some(d) ==> d@ == ts_display_of(s@) && ts_instant_of(s@, full_format()) is Some,
        r is None ==> ts_instant_of(s@, full_format()) is None,
{
    match chrono::DateTime::parse_from_str(s, "%Y-%m-%d %H:%M:%S%.9f %z") {
        Ok(dt) => match dt.timestamp_nanos_opt() {
            Some(_) => Some(dt.format("%Y-%m-%d %H:%M:%S %z").to_string()),
            None => None,
        },
        Err(_) => None,
    }
}

/// Relies on `chrono::Local::now` and `DateTime::format`: the current time
/// rendered in the full format parses back under that same format.  Nothing
/// else is assumed of the clock.
#[verifier::external_body]
pub fn now_stamp() -> (r: String)
    ensures
        ts_instant_of(r@, full_format()) is Some,
{
    loop {
        let now = chrono::Local::now();
        let text = now.format("%Y-%m-%d %H:%M:%S%.9f %z").to_string();
        let round = chrono::DateTime::parse_from_str(&text, "%Y-%m-%d %H:%M:%S%.9f %z");
        if round.is_ok() && now.timestamp_nanos_opt().is_some() {
            return text;
        }
    }
}

} // verus!
