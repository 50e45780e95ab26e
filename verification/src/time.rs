//! Instants and calendar days.
//!
//! An instant is a count of whole seconds since 1970-01-01T00:00:00Z; a
//! calendar day is a day number, 0 being 1970-01-01; a time of day is a count
//! of seconds since midnight. The bounds below are those of the calendar
//! that chrono supports (years -262143 to 262142).
use vstd::prelude::*;

verus! {

/// Seconds in one day.
pub const SECONDS_PER_DAY: i64 = 86_400;

/// Seconds in one minute.
pub const SECONDS_PER_MINUTE: i64 = 60;

/// Day number of the first supported day.
pub const MIN_DAY: i64 = -96_465_292;

/// Day number of the last supported day.
pub const MAX_DAY: i64 = 95_026_236;

/// First supported instant.
pub const MIN_TIMESTAMP: i64 = -8_334_601_228_800;

/// Last supported instant.
pub const MAX_TIMESTAMP: i64 = 8_210_266_876_799;

/// Largest number of minutes that a duration can hold (a duration holds at
/// most `i64::MAX` milliseconds).
pub const MAX_DURATION_MINUTES: i64 = 153_722_867_280_912;

/// Largest number of seconds that a duration can hold.
pub const MAX_DURATION_SECONDS: i64 = 9_223_372_036_854_775;

pub open spec fn valid_day(day: int) -> bool {
    MIN_DAY <= day <= MAX_DAY
}

pub open spec fn valid_timestamp(t: int) -> bool {
    MIN_TIMESTAMP <= t <= MAX_TIMESTAMP
}

pub open spec fn valid_time_of_day(secs: int) -> bool {
    0 <= secs < SECONDS_PER_DAY
}

/// The instant at which `day` reaches the time of day `secs` (UTC).
pub open spec fn spec_at_time(day: int, secs: int) -> int {
    day * SECONDS_PER_DAY + secs
}

/// The calendar day (UTC) on which the instant `t` falls.
pub open spec fn spec_day_of(t: int) -> int {
    t / SECONDS_PER_DAY as int
}

/// The instant at which `day` reaches the time of day `secs`, in UTC.
pub fn at_time(day: i64, secs: u32) -> (t: i64)
    requires
        valid_day(day as int),
        valid_time_of_day(secs as int),
    ensures
        t == spec_at_time(day as int, secs as int),
{
    day * SECONDS_PER_DAY + secs as i64
}

/// The calendar day (UTC) on which the instant `t` falls; days start at
/// midnight, so instants before the epoch round down.
pub fn day_of(t: i64) -> (day: i64)
    ensures
        day == spec_day_of(t as int),
{
    if t >= 0 {
        t / SECONDS_PER_DAY
    } else {
        let back: i64 = -(t + 1);
        let d = -(back / SECONDS_PER_DAY) - 1;
        assert(d == (t as int) / 86400) by (nonlinear_arith)
            requires
                t < 0,
                back == -(t + 1),
                d == -(back / 86400) - 1,
        ;
        d
    }
}

/// The current instant, from the system clock.
///
/// Calls `chrono::Utc::now` and takes its `timestamp`. chrono's source panics
/// on a clock set before the epoch and on one beyond its calendar, so what
/// comes back lies in between; which instant it is depends on the clock.
#[verifier::external_body]
pub(crate) fn current_timestamp() -> (t: i64)
    ensures
        0 <= t <= MAX_TIMESTAMP,
{
    chrono::Utc::now().timestamp()
}

/// First instant of year 0 (0000-01-01T00:00:00Z).
pub const FIRST_FOUR_DIGIT_INSTANT: i64 = -62_167_219_200;

/// Last instant of year 9999 (9999-12-31T23:59:59Z).
pub const LAST_FOUR_DIGIT_INSTANT: i64 = 253_402_300_799;

/// Day number of 0000-01-01.
pub const FIRST_FOUR_DIGIT_DAY: i64 = -719_528;

/// Day number of 9999-12-31.
pub const LAST_FOUR_DIGIT_DAY: i64 = 2_932_896;

/// The instant falls in a year written with four digits (0 to 9999).
pub open spec fn four_digit_year_instant(t: int) -> bool {
    FIRST_FOUR_DIGIT_INSTANT <= t <= LAST_FOUR_DIGIT_INSTANT
}

/// The day falls in a year written with four digits (0 to 9999).
pub open spec fn four_digit_year_day(day: int) -> bool {
    FIRST_FOUR_DIGIT_DAY <= day <= LAST_FOUR_DIGIT_DAY
}

/// The text that `chrono::DateTime::<Utc>::to_rfc3339` writes for an instant.
pub uninterp spec fn spec_format_rfc3339(t: i64) -> Seq<char>;

/// Writes an instant as RFC 3339 text in UTC, such as
/// `2026-02-17T09:00:00+00:00`.
///
/// Calls `chrono::DateTime::from_timestamp` (which gives a value on every
/// instant of chrono's calendar) and `to_rfc3339`. The contract names the
/// text and states what chrono's source shows of it: in a year of four
/// digits the text is `YYYY-MM-DDTHH:MM:SS+00:00`, which
/// `DateTime::parse_from_rfc3339` reads back as the same instant. Other years
/// are written with a sign, which that parser refuses.
#[verifier::external_body]
pub(crate) fn format_rfc3339(t: i64) -> (s: String)
    requires
        valid_timestamp(t as int),
    ensures
        s@ == spec_format_rfc3339(t),
        four_digit_year_instant(t as int) ==> spec_parse_rfc3339(s@) == Some(t),
{
    chrono::DateTime::from_timestamp(t, 0).expect("instant within chrono's calendar").to_rfc3339()
}

/// What `chrono::DateTime::parse_from_rfc3339` makes of a text: the instant it
/// denotes, or `None` when the text is no RFC 3339 date and time.
pub uninterp spec fn spec_parse_rfc3339(text: Seq<char>) -> Option<i64>;

/// Parses an RFC 3339 date and time, such as `2026-02-17T09:00:00+09:00`,
/// into the instant it denotes (fractions of a second dropped).
///
/// Calls `chrono::DateTime::parse_from_rfc3339` and takes the `timestamp` of
/// the result. The contract names the outcome and states that a parsed
/// instant lies in chrono's calendar, as every `DateTime` does.
#[verifier::external_body]
pub(crate) fn parse_rfc3339(text: &str) -> (r: Option<i64>)
    ensures
        r == spec_parse_rfc3339(text@),
        r matches Some(t) ==> valid_timestamp(t as int),
{
    chrono::DateTime::parse_from_rfc3339(text).ok().map(|dt| dt.timestamp())
}

} // verus!

verus! {

/// What `chrono::NaiveDate::parse_from_str` makes of a text in a format: the
/// day number of the date, or `None` when the text does not match.
pub uninterp spec fn spec_parse_date(text: Seq<char>, format: Seq<char>) -> Option<i64>;

/// Parses a calendar date written in `format` (chrono's strftime syntax) into
/// its day number.
///
/// Calls `chrono::NaiveDate::parse_from_str`, then counts the days from
/// `NaiveDate::default()`, which chrono documents as 1970-01-01. The contract
/// names the outcome and states that a parsed day lies in chrono's calendar,
/// as every `NaiveDate` does.
#[verifier::external_body]
pub(crate) fn parse_date(text: &str, format: &str) -> (r: Option<i64>)
    ensures
        r == spec_parse_date(text@, format@),
        r matches Some(d) ==> valid_day(d as int),
{
    chrono::NaiveDate::parse_from_str(text, format).ok().map(
        |d| d.signed_duration_since(chrono::NaiveDate::default()).num_days(),
    )
}

/// The text that `chrono::NaiveDate`'s `Display` writes for a day.
pub uninterp spec fn spec_format_date(day: i64) -> Seq<char>;

/// Writes a day as `YYYY-MM-DD`.
///
/// Calls `chrono::NaiveDate::from_epoch_days` (which gives a value on every
/// day of chrono's calendar) and formats the date with `to_string`. The
/// contract names the text and states what chrono documents of it: `Display`
/// writes the `%Y-%m-%d` format that parsing reads, and in a year of four
/// digits the source writes exactly four year digits, so `parse_from_str`
/// with `%Y-%m-%d` reads the text back as the same day.
#[verifier::external_body]
pub(crate) fn format_date(day: i64) -> (s: String)
    requires
        valid_day(day as int),
    ensures
        s@ == spec_format_date(day),
        four_digit_year_day(day as int) ==> spec_parse_date(s@, "%Y-%m-%d"@) == Some(day),
{
    chrono::NaiveDate::from_epoch_days(day as i32).expect("day within chrono's calendar").to_string()
}

/// The first and the last second of the day `date`.
pub fn day_bounds(date: i64) -> (r: (i64, i64))
    requires
        valid_day(date as int),
    ensures
        r.0 == spec_at_time(date as int, 0),
        r.1 == spec_at_time(date as int, SECONDS_PER_DAY - 1),
{
    (at_time(date, 0), at_time(date, 86_399))
}

} // verus!
