//! Clock access and timestamp rendering.

use vstd::prelude::*;

verus! {

/// The text that the calendar rendering produces for a Unix timestamp,
/// in the fixed pattern `year-month-day hour:minute:second` (UTC).
pub uninterp spec fn time_text_of(ts: int) -> Seq<char>;

/// Seconds since the Unix epoch.
///
/// Relies on std::time::SystemTime::now: its documentation promises a
/// measurement of the system clock; `duration_since(UNIX_EPOCH)` errs only
/// when the clock reads before the epoch, in which case 0 is returned, so
/// the result is never negative.
#[verifier::external_body]
pub fn current_timestamp() -> (t: i64)
    ensures
        t >= 0,
{
    match std::time::SystemTime::now().duration_since(std::time::UNIX_EPOCH) {
        Ok(d) => i64::try_from(d.as_secs()).unwrap_or(i64::MAX),
        Err(_) => 0,
    }
}

/// Calendar text of a Unix timestamp.
///
/// Relies on chrono::DateTime::<Utc>::from_timestamp and chrono's `format`
/// with the pattern `%Y-%m-%d %H:%M:%S`: both are documented as functions
/// of the timestamp alone (UTC, no locale, no time zone lookup). A
/// timestamp outside chrono's representable range yields the empty string.
#[verifier::external_body]
pub fn format_timestamp(ts: i64) -> (r: String)
    ensures
        r@ == time_text_of(ts as int),
{
    match chrono::DateTime::<chrono::Utc>::from_timestamp(ts, 0) {
        Some(dt) => dt.format("%Y-%m-%d %H:%M:%S").to_string(),
        None => String::new(),
    }
}

} // verus!
