//! Timestamps for status records and broadcast payloads: unix seconds
//! from the clock, and their RFC 3339 rendering.

use vstd::prelude::*;

use crate::codec::json_string_ok;

verus! {

/// The RFC 3339 rendering of a unix-seconds instant; a function of the
/// instant alone.
pub uninterp spec fn rfc3339_chars(secs: int) -> Seq<char>;

/// Relies on chrono's `Utc::now` for the current unix time; nothing is
/// assumed of the value. `Utc::now` itself aborts on a system clock that
/// reads before the Unix epoch, so this call assumes a clock at or after
/// it, as the surrounding system does throughout.
#[verifier::external_body]
pub fn now_unix() -> (r: i64) {
    chrono::Utc::now().timestamp()
}

/// Relies on chrono's `DateTime::from_timestamp` and `to_rfc3339`: the
/// rendering depends on the instant alone, holds only date, time and
/// offset characters (so it embeds in a JSON text verbatim), and exists
/// for every instant up to the year 9999.
#[verifier::external_body]
pub fn format_rfc3339(secs: i64) -> (r: Option<String>)
    ensures
        (r matches Some(s) ==> s@ == rfc3339_chars(secs as int) && json_string_ok(s@)
            && s@.len() > 0),
        0 <= secs <= 253_402_300_799i64 ==> r is Some,
{
    match chrono::DateTime::from_timestamp(secs, 0) {
        Some(dt) => Some(dt.to_rfc3339()),
        None => None,
    }
}

} // verus!
