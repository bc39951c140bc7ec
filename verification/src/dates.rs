//! Date codec: anchor strings are either `%Y-%m-%dT%H:%M:%S` (exact) or
//! `%Y-%m-%d` (taken as 23:59:59 on that date); timestamps are whole seconds
//! from the epoch. Parsing and formatting call into chrono behind trusted
//! wrappers; everything around them is verified.

use vstd::prelude::*;
use vstd::string::StringExecFns;

verus! {

/// A timestamp parsed from a calendar string never lies this many seconds or
/// more from the epoch: chrono's calendar spans years -262143 to 262142, which
/// is under 8.3e12 seconds either way.
pub const TIMESTAMP_LIMIT: i64 = 10_000_000_000_000;

/// Every timestamp within this many seconds of the epoch renders as a
/// calendar string (it lies safely inside chrono's representable years).
pub const RENDER_SAFE_LIMIT: i64 = 8_000_000_000_000;

/// What chrono's `NaiveDateTime::parse_from_str` with `%Y-%m-%dT%H:%M:%S`
/// yields for a string, taken to seconds from the epoch; `None` when the
/// string does not have that shape.
pub uninterp spec fn datetime_seconds(s: Seq<char>) -> Option<int>;

/// What chrono's `NaiveDate::parse_from_str` with `%Y-%m-%d` yields for a
/// string, at 23:59:59 on that date, taken to seconds from the epoch; `None`
/// when the string does not have that shape.
pub uninterp spec fn date_end_of_day_seconds(s: Seq<char>) -> Option<int>;

/// What chrono renders, `%Y-%m-%dT%H:%M:%S`, for a whole-second timestamp;
/// `None` when the timestamp lies outside the representable years.
pub uninterp spec fn rendered_datetime(t: int) -> Option<Seq<char>>;

/// Relies on chrono's `NaiveDateTime::parse_from_str` with format
/// `%Y-%m-%dT%H:%M:%S`, converted to seconds with `and_utc().timestamp()`.
/// The result depends on the characters alone; any parsed value names a
/// representable calendar date, hence lies within `TIMESTAMP_LIMIT`.
#[verifier::external_body]
pub(crate) fn parse_datetime_seconds(s: &str) -> (r: Option<i64>)
    ensures
        r is Some <==> datetime_seconds(s@) is Some,
        r is Some ==> r->0 as int == datetime_seconds(s@)->0,
        r is Some ==> -TIMESTAMP_LIMIT < r->0 < TIMESTAMP_LIMIT,
{
    chrono::NaiveDateTime::parse_from_str(s, "%Y-%m-%dT%H:%M:%S")
        .ok()
        .map(|dt| dt.and_utc().timestamp())
}

/// Relies on chrono's `NaiveDate::parse_from_str` with format `%Y-%m-%d`,
/// taken to 23:59:59 with `and_hms_opt` (always valid for that time of day)
/// and converted to seconds with `and_utc().timestamp()`. The result depends
/// on the characters alone and lies within `TIMESTAMP_LIMIT`.
#[verifier::external_body]
fn parse_date_end_of_day_seconds(s: &str) -> (r: Option<i64>)
    ensures
        r is Some <==> date_end_of_day_seconds(s@) is Some,
        r is Some ==> r->0 as int == date_end_of_day_seconds(s@)->0,
        r is Some ==> -TIMESTAMP_LIMIT < r->0 < TIMESTAMP_LIMIT,
{
    chrono::NaiveDate::parse_from_str(s, "%Y-%m-%d")
        .ok()
        .and_then(|d| d.and_hms_opt(23, 59, 59))
        .map(|dt| dt.and_utc().timestamp())
}

/// Relies on chrono's `DateTime::from_timestamp`, which returns `None`
/// exactly when the seconds fall outside the representable years (so always
/// `Some` within `RENDER_SAFE_LIMIT`), and on formatting the resulting
/// `NaiveDateTime` with `%Y-%m-%dT%H:%M:%S`. The result depends on the
/// timestamp alone.
#[verifier::external_body]
fn format_datetime_seconds(t: i64) -> (r: Option<String>)
    ensures
        r is Some <==> rendered_datetime(t as int) is Some,
        r is Some ==> r->0@ == rendered_datetime(t as int)->0,
        -RENDER_SAFE_LIMIT <= t <= RENDER_SAFE_LIMIT ==> r is Some,
{
    chrono::DateTime::from_timestamp(t, 0)
        .map(|dt| dt.naive_utc().format("%Y-%m-%dT%H:%M:%S").to_string())
}

/// The two anchor shapes, tried in order: full datetime first, then a bare
/// date at end of day.
pub open spec fn anchor_seconds(s: Seq<char>) -> Option<int> {
    if datetime_seconds(s) is Some {
        datetime_seconds(s)
    } else {
        date_end_of_day_seconds(s)
    }
}

/// Parse an anchor string into seconds from the epoch.
pub fn parse_anchor_seconds(s: &str) -> (r: Option<i64>)
    ensures
        r is Some <==> anchor_seconds(s@) is Some,
        r is Some ==> r->0 as int == anchor_seconds(s@)->0,
        r is Some ==> -TIMESTAMP_LIMIT < r->0 < TIMESTAMP_LIMIT,
{
    match parse_datetime_seconds(s) {
        Some(t) => Some(t),
        None => parse_date_end_of_day_seconds(s),
    }
}

/// What `render_datetime_seconds` returns: the rendered calendar string, or
/// the empty string for a timestamp outside the representable years.
pub open spec fn rendered_or_empty(t: int) -> Seq<char> {
    match rendered_datetime(t) {
        Some(cs) => cs,
        None => Seq::empty(),
    }
}

/// Render a timestamp as `%Y-%m-%dT%H:%M:%S`.
pub fn render_datetime_seconds(t: i64) -> (r: String)
    ensures
        r@ == rendered_or_empty(t as int),
{
    match format_datetime_seconds(t) {
        Some(s) => s,
        None => String::new(),
    }
}

/// What chrono renders, `%Y-%m-%d %H:%M`, for a whole-second timestamp;
/// `None` when the timestamp lies outside the representable years.
pub uninterp spec fn rendered_minute(t: int) -> Option<Seq<char>>;

/// Relies on chrono's `DateTime::from_timestamp` (`None` exactly outside the
/// representable years, always `Some` within `RENDER_SAFE_LIMIT`) and on
/// formatting the resulting `NaiveDateTime` with `%Y-%m-%d %H:%M`. The
/// result depends on the timestamp alone.
#[verifier::external_body]
fn format_minute_seconds(t: i64) -> (r: Option<String>)
    ensures
        r is Some <==> rendered_minute(t as int) is Some,
        r is Some ==> r->0@ == rendered_minute(t as int)->0,
        -RENDER_SAFE_LIMIT <= t <= RENDER_SAFE_LIMIT ==> r is Some,
{
    chrono::DateTime::from_timestamp(t, 0)
        .map(|dt| dt.naive_utc().format("%Y-%m-%d %H:%M").to_string())
}

/// What `render_minute_seconds` returns: the rendered minute-precision
/// string, or the empty string for a timestamp outside the representable
/// years.
pub open spec fn rendered_minute_or_empty(t: int) -> Seq<char> {
    match rendered_minute(t) {
        Some(cs) => cs,
        None => Seq::empty(),
    }
}

/// Render a timestamp as `%Y-%m-%d %H:%M`.
pub fn render_minute_seconds(t: i64) -> (r: String)
    ensures
        r@ == rendered_minute_or_empty(t as int),
{
    match format_minute_seconds(t) {
        Some(s) => s,
        None => String::new(),
    }
}

/// The diagnostic text carried by an invalid anchor date.
pub open spec fn parse_error_details_spec(s: Seq<char>) -> Seq<char> {
    "Could not parse date '"@ + s + "', expected %Y-%m-%dT%H:%M:%S or %Y-%m-%d"@
}

/// Build the diagnostic text for an anchor string that matches neither shape.
pub fn parse_error_details(s: &str) -> (r: String)
    ensures
        r@ == parse_error_details_spec(s@),
{
    let mut r = String::from_str("Could not parse date '");
    r.append(s);
    r.append("', expected %Y-%m-%dT%H:%M:%S or %Y-%m-%d");
    r
}

} // verus!
