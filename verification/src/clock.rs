//! Calendar arithmetic and rendering, done by `chrono`.
use chrono::TimeZone;
use vstd::prelude::*;

use crate::text::is_digit;

verus! {

/// What `chrono::DateTime::parse_from_rfc3339` makes of `text`: the instant's
/// milliseconds since the Unix epoch and its UTC rendering with milliseconds and a `Z`.
pub uninterp spec fn rfc3339_reading(text: Seq<char>) -> Option<(i64, Seq<char>)>;

/// The UTC rendering with milliseconds and a `Z` that `chrono` gives of the instant
/// `ms` milliseconds after the Unix epoch, when that instant is in its range.
pub uninterp spec fn millis_rendering(ms: i64) -> Option<Seq<char>>;

/// Calls `chrono::DateTime::parse_from_rfc3339`. On success it converts the instant to
/// UTC and returns `timestamp_millis` and `to_rfc3339_opts(SecondsFormat::Millis, true)`;
/// the contract names that pair and says nothing more of it.
#[verifier::external_body]
pub(crate) fn read_rfc3339(text: &str) -> (r: Option<(i64, String)>)
    ensures
        match r {
            Some((ms, shown)) => rfc3339_reading(text@) == Some((ms, shown@)),
            None => rfc3339_reading(text@) is None,
        },
{
    match chrono::DateTime::parse_from_rfc3339(text) {
        Ok(parsed) => {
            let utc = parsed.with_timezone(&chrono::Utc);
            Some((utc.timestamp_millis(), utc.to_rfc3339_opts(chrono::SecondsFormat::Millis, true)))
        },
        Err(_) => None,
    }
}

/// Calls `chrono::Utc.timestamp_millis_opt(ms).single()` and renders the instant with
/// `to_rfc3339_opts(SecondsFormat::Millis, true)`; `None` when chrono has no such instant.
#[verifier::external_body]
pub(crate) fn render_millis(ms: i64) -> (r: Option<String>)
    ensures
        match r {
            Some(shown) => millis_rendering(ms) == Some(shown@),
            None => millis_rendering(ms) is None,
        },
{
    match chrono::Utc.timestamp_millis_opt(ms).single() {
        Some(ts) => Some(ts.to_rfc3339_opts(chrono::SecondsFormat::Millis, true)),
        None => None,
    }
}

/// Whether `t` has the form in which `to_rfc3339_opts(SecondsFormat::Millis, true)`
/// writes a UTC instant: a year of at least four characters followed by
/// `-MM-DDTHH:MM:SS.mmmZ`, with digits where the letters stand.
pub open spec fn utc_millis_text(t: Seq<char>) -> bool {
    let n = t.len() as int;
    &&& n >= 24
    &&& t[n - 20] == '-'
    &&& t[n - 17] == '-'
    &&& t[n - 14] == 'T'
    &&& t[n - 11] == ':'
    &&& t[n - 8] == ':'
    &&& t[n - 5] == '.'
    &&& t[n - 1] == 'Z'
    &&& forall|j: int| n - 20 < j < n - 1 && j != n - 17 && j != n - 14 && j != n - 11 && j != n - 8 && j != n - 5
        ==> is_digit(#[trigger] t[j])
}

/// The current time as `chrono::Utc::now()` renders it with `to_rfc3339_opts` with
/// milliseconds and a `Z`. Which instant it is depends on the clock; the contract states
/// only the form every rendering has.
#[verifier::external_body]
pub fn now_iso() -> (r: String)
    ensures
        utc_millis_text(r@),
{
    chrono::Utc::now().to_rfc3339_opts(chrono::SecondsFormat::Millis, true)
}

} // verus!
