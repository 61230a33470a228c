//! Times in UTC, as text and as seconds.

use vstd::prelude::*;
use chrono::{TimeZone, Utc};

verus! {

/// What chrono says of a text that is not a time.
#[verifier::external_type_specification]
#[verifier::external_body]
pub struct ExParseError(chrono::ParseError);

/// The seconds from the beginning of 1970 to the time that a text stands for, or `None` where
/// chrono does not take the text for a time.
pub uninterp spec fn utc_seconds(text: Seq<char>) -> Option<i64>;

/// The form in which times are written, such as `2025-01-31T23:59:59Z`.
pub const TIME_FORMAT: &'static str = "%Y-%m-%dT%H:%M:%SZ";

/// The time so many seconds after the beginning of 1970, in a given form, or `None` where it is
/// out of the range of chrono.
pub uninterp spec fn formatted_utc(seconds: i64, format: Seq<char>) -> Option<Seq<char>>;

/// The time so many seconds after the beginning of 1970, in the form in which times are written.
pub open spec fn utc_text(seconds: i64) -> Option<Seq<char>> {
    formatted_utc(seconds, TIME_FORMAT@)
}

/// Parses a text with `str::parse` as a `chrono::DateTime<Utc>` and takes its
/// `DateTime::timestamp`. The result depends on the text alone and is named. A time that was parsed
/// is in the range of chrono, so it can also be written. No more is claimed of the forms of a time
/// that chrono knows.
#[verifier::external_body]
pub(crate) fn parse_utc(text: &str) -> (r: Result<i64, chrono::ParseError>)
    ensures
        match r {
            Ok(seconds) => utc_seconds(text@) == Some(seconds) && utc_text(seconds) is Some,
            Err(_) => utc_seconds(text@) is None,
        },
{
    let time: chrono::DateTime<Utc> = text.parse()?;
    Ok(time.timestamp())
}

/// Makes a time with `chrono::TimeZone::timestamp_opt` and writes it with `DateTime::format`. The
/// result depends on the seconds and the form alone and is named; no more is claimed of the
/// calendar. Forms that chrono does not know make it panic, so only the one in use is taken.
#[verifier::external_body]
pub(crate) fn format_utc(seconds: i64, format: &str) -> (r: Option<String>)
    requires
        format@ == TIME_FORMAT@,
    ensures
        match r {
            Some(text) => formatted_utc(seconds, format@) == Some(text@),
            None => formatted_utc(seconds, format@) is None,
        },
{
    let time: chrono::DateTime<Utc> = Utc.timestamp_opt(seconds, 0).single()?;
    Some(time.format(format).to_string())
}

} // verus!
