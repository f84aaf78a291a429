//! Dates on the wire, as `2026-01-15T17:30:00.000Z`.
//!
//! Inside the library a date is milliseconds since the Unix epoch. Always three
//! fractional digits and a literal `Z` outside it.
use vstd::prelude::*;

use crate::text;

verus! {

/// The milliseconds a calendar date can be made of: the years -262143 to
/// 262142, which is what `chrono::DateTime<Utc>` spans.
pub open spec fn in_calendar(millis: int) -> bool {
    -8_334_601_228_800_000 <= millis <= 8_210_266_876_799_999
}

/// The milliseconds of the years 0 to 9999, which four digits can spell.
pub open spec fn four_digit_year(millis: int) -> bool {
    -62_167_219_200_000 <= millis <= 253_402_300_799_999
}

/// What `chrono::DateTime::parse_from_rfc3339` reads a text as, in
/// milliseconds since the Unix epoch.
pub uninterp spec fn rfc3339(text: Seq<char>) -> Option<i64>;

/// `chrono::DateTime::parse_from_rfc3339`, then `timestamp_millis`: the instant
/// a text names, or nothing where it is not an RFC 3339 date. A function of the
/// text alone.
#[verifier::external_body]
pub(crate) fn read_rfc3339(text: &str) -> (out: Option<i64>)
    ensures
        out == rfc3339(text@),
{
    chrono::DateTime::parse_from_rfc3339(text).ok().map(|date| date.timestamp_millis())
}

/// What `chrono::DateTime::to_rfc3339_opts` writes for an instant in UTC, to
/// the millisecond and with a `Z`.
pub uninterp spec fn zulu(millis: i64) -> Seq<char>;

/// `chrono::DateTime::to_rfc3339_opts` with `SecondsFormat::Millis` and a `Z`.
/// A function of the instant alone, and for a year of four digits one that
/// `parse_from_rfc3339` reads back as the same instant.
#[verifier::external_body]
pub(crate) fn write_rfc3339(millis: i64) -> (out: String)
    requires
        in_calendar(millis as int),
    ensures
        out@ == zulu(millis),
        four_digit_year(millis as int) ==> rfc3339(out@) == Some(millis),
{
    chrono::DateTime::from_timestamp_millis(millis).unwrap_or_default().to_rfc3339_opts(
        chrono::SecondsFormat::Millis,
        true,
    )
}

/// A date as the wire carries it, or nothing for a message without one.
pub open spec fn on_the_wire(date: Option<i64>) -> Option<Seq<char>> {
    match date {
        Some(millis) if in_calendar(millis as int) => Some(zulu(millis)),
        _ => None,
    }
}

/// The text the wire carries for a date. A date outside the calendar is no date.
pub fn serialize(date: Option<i64>) -> (out: Option<String>)
    ensures
        text::maybe(out) == on_the_wire(date),
        date is Some && four_digit_year(date->0 as int) ==> out is Some && rfc3339(out->0@) == date,
{
    match date {
        Some(millis) if -8_334_601_228_800_000 <= millis && millis <= 8_210_266_876_799_999 => Some(
            write_rfc3339(millis),
        ),
        _ => None,
    }
}

/// The date a text from the wire stands for. One that cannot be read is no date
/// rather than an error.
pub fn deserialize(raw: Option<&str>) -> (out: Option<i64>)
    ensures
        out == (match raw {
            Some(text) => rfc3339(text@),
            None => None,
        }),
{
    match raw {
        Some(text) => read_rfc3339(text),
        None => None,
    }
}

} // verus!
