//! Date-times read by chrono: an offset date-time in RFC 3339, a local
//! date-time, a local date and a local time, each kept as the library's
//! `Datetime`.

use vstd::prelude::*;

use chrono::{Datelike, Timelike};

use crate::datetime::{Date, Datetime, Offset, Time};
use crate::parser::errors::TomlError;

verus! {

/// What `chrono::DateTime::parse_from_rfc3339` gives for a text: the year,
/// month, day, hour, minute, second and nanosecond, and the offset in seconds
/// east of UTC; or the text of its error.
pub uninterp spec fn rfc3339_fields(s: Seq<char>) -> Result<
    (i32, u32, u32, u32, u32, u32, u32, i32),
    Seq<char>,
>;

/// What `chrono::NaiveDateTime::parse_from_str` gives for a text and a
/// format: the year, month, day, hour, minute, second and nanosecond; or the
/// text of its error.
pub uninterp spec fn naive_datetime_fields(s: Seq<char>, fmt: Seq<char>) -> Result<
    (i32, u32, u32, u32, u32, u32, u32),
    Seq<char>,
>;

/// What chrono's `NaiveDate::from_str` gives for a text: the year, month and
/// day; or the text of its error.
pub uninterp spec fn naive_date_fields(s: Seq<char>) -> Result<(i32, u32, u32), Seq<char>>;

/// What chrono's `NaiveTime::from_str` gives for a text: the hour, minute,
/// second and nanosecond; or the text of its error.
pub uninterp spec fn naive_time_fields(s: Seq<char>) -> Result<(u32, u32, u32, u32), Seq<char>>;

/// Reads an RFC 3339 date-time with `chrono::DateTime::parse_from_rfc3339`.
/// The contract claims only that the result, fields or error text, is the
/// one `rfc3339_fields` names for the text.
#[verifier::external_body]
fn parse_rfc3339(s: &str) -> (r: Result<(i32, u32, u32, u32, u32, u32, u32, i32), String>)
    ensures
        match r {
            Ok(f) => rfc3339_fields(s@) == Ok::<_, Seq<char>>(f),
            Err(e) => rfc3339_fields(s@) == Err::<(i32, u32, u32, u32, u32, u32, u32, i32), _>(e@),
        },
{
    match chrono::DateTime::parse_from_rfc3339(s) {
        Ok(d) => Ok((
            d.year(),
            d.month(),
            d.day(),
            d.hour(),
            d.minute(),
            d.second(),
            d.nanosecond(),
            d.offset().local_minus_utc(),
        )),
        Err(e) => Err(e.to_string()),
    }
}

/// Reads a date-time without offset with
/// `chrono::NaiveDateTime::parse_from_str`. The contract claims only that
/// the result is the one `naive_datetime_fields` names for the text and the
/// format.
#[verifier::external_body]
fn parse_naive_datetime(s: &str, fmt: &str) -> (r: Result<(i32, u32, u32, u32, u32, u32, u32), String>)
    ensures
        match r {
            Ok(f) => naive_datetime_fields(s@, fmt@) == Ok::<_, Seq<char>>(f),
            Err(e) => naive_datetime_fields(s@, fmt@) == Err::<(i32, u32, u32, u32, u32, u32, u32), _>(
                e@,
            ),
        },
{
    match chrono::NaiveDateTime::parse_from_str(s, fmt) {
        Ok(d) => Ok((d.year(), d.month(), d.day(), d.hour(), d.minute(), d.second(), d.nanosecond())),
        Err(e) => Err(e.to_string()),
    }
}

/// Reads a date with chrono's `NaiveDate::from_str`. The contract claims only
/// that the result is the one `naive_date_fields` names for the text.
#[verifier::external_body]
fn parse_naive_date(s: &str) -> (r: Result<(i32, u32, u32), String>)
    ensures
        match r {
            Ok(f) => naive_date_fields(s@) == Ok::<_, Seq<char>>(f),
            Err(e) => naive_date_fields(s@) == Err::<(i32, u32, u32), _>(e@),
        },
{
    match s.parse::<chrono::NaiveDate>() {
        Ok(d) => Ok((d.year(), d.month(), d.day())),
        Err(e) => Err(e.to_string()),
    }
}

/// Reads a time with chrono's `NaiveTime::from_str`. The contract claims only
/// that the result is the one `naive_time_fields` names for the text.
#[verifier::external_body]
fn parse_naive_time(s: &str) -> (r: Result<(u32, u32, u32, u32), String>)
    ensures
        match r {
            Ok(f) => naive_time_fields(s@) == Ok::<_, Seq<char>>(f),
            Err(e) => naive_time_fields(s@) == Err::<(u32, u32, u32, u32), _>(e@),
        },
{
    match s.parse::<chrono::NaiveTime>() {
        Ok(t) => Ok((t.hour(), t.minute(), t.second(), t.nanosecond())),
        Err(e) => Err(e.to_string()),
    }
}

/// A date from a year, month and day, where they fit.
pub open spec fn date_of(y: i32, mo: u32, d: u32) -> Option<Date> {
    if 0 <= y <= 65535 && 1 <= mo <= 12 && 1 <= d <= 31 {
        Some(Date { year: y as u16, month: mo as u8, day: d as u8 })
    } else {
        None
    }
}

/// A time from an hour, minute, second and nanosecond, where they fit; a
/// leap second (nanoseconds from one second up) is second 60.
pub open spec fn time_of(h: u32, mi: u32, sec: u32, ns: u32) -> Option<Time> {
    if h <= 23 && mi <= 59 && sec <= 59 && ns < 2_000_000_000 {
        if ns >= 1_000_000_000 {
            Some(Time { hour: h as u8, minute: mi as u8, second: (sec + 1) as u8, nanosecond: (ns - 1_000_000_000) as u32 })
        } else {
            Some(Time { hour: h as u8, minute: mi as u8, second: sec as u8, nanosecond: ns })
        }
    } else {
        None
    }
}

/// An offset from its seconds east of UTC, where it is whole minutes of at
/// most 23 hours 59 minutes and is not a negative offset of less than an hour
/// (which hours and minutes with the sign on the hours cannot hold).
pub open spec fn offset_of(secs: i32) -> Option<Offset> {
    let a = if secs < 0 {
        -secs
    } else {
        secs as int
    };
    if a < 86400 && a % 60 == 0 && !(secs < 0 && a < 3600) {
        Some(
            Offset::Custom {
                hours: (if secs < 0 {
                    -(a / 3600)
                } else {
                    a / 3600
                }) as i8,
                minutes: ((a % 3600) / 60) as u8,
            },
        )
    } else {
        None
    }
}

fn date_from(y: i32, mo: u32, d: u32) -> (r: Option<Date>)
    ensures
        r == date_of(y, mo, d),
{
    if 0 <= y && y <= 65535 && 1 <= mo && mo <= 12 && 1 <= d && d <= 31 {
        Some(Date { year: y as u16, month: mo as u8, day: d as u8 })
    } else {
        None
    }
}

fn time_from(h: u32, mi: u32, sec: u32, ns: u32) -> (r: Option<Time>)
    ensures
        r == time_of(h, mi, sec, ns),
{
    if h <= 23 && mi <= 59 && sec <= 59 && ns < 2_000_000_000 {
        if ns >= 1_000_000_000 {
            Some(Time { hour: h as u8, minute: mi as u8, second: (sec + 1) as u8, nanosecond: ns - 1_000_000_000 })
        } else {
            Some(Time { hour: h as u8, minute: mi as u8, second: sec as u8, nanosecond: ns })
        }
    } else {
        None
    }
}

fn offset_from(secs: i32) -> (r: Option<Offset>)
    ensures
        r == offset_of(secs),
{
    if secs <= -86400 || secs >= 86400 {
        return None;
    }
    let a: i32 = if secs < 0 {
        -secs
    } else {
        secs
    };
    if a % 60 == 0 && !(secs < 0 && a < 3600) {
        let h: i32 = a / 3600;
        let hours: i8 = if secs < 0 {
            -(h as i8)
        } else {
            h as i8
        };
        Some(Offset::Custom { hours, minutes: ((a % 3600) / 60) as u8 })
    } else {
        None
    }
}

/// The message given where chrono reads a date-time the library cannot hold.
fn out_of_range() -> (e: TomlError)
    ensures
        e.message_view() == "date-time out of range"@,
{
    TomlError::custom(String::from_str("date-time out of range"))
}

/// An RFC 3339 date-time with offset.
#[derive(Clone, Copy, Debug, PartialEq, Eq)]
pub struct OffsetDateTime {
    pub datetime: Datetime,
}

/// A date-time without offset.
#[derive(Clone, Copy, Debug, PartialEq, Eq)]
pub struct LocalDateTime {
    pub datetime: Datetime,
}

/// A date.
#[derive(Clone, Copy, Debug, PartialEq, Eq)]
pub struct LocalDate {
    pub date: Date,
}

/// A time of day.
#[derive(Clone, Copy, Debug, PartialEq, Eq)]
pub struct LocalTime {
    pub time: Time,
}

/// The offset date-time chrono's RFC 3339 fields stand for, where the
/// library can hold it.
pub open spec fn offset_datetime_of(f: (i32, u32, u32, u32, u32, u32, u32, i32)) -> Option<OffsetDateTime> {
    match (date_of(f.0, f.1, f.2), time_of(f.3, f.4, f.5, f.6), offset_of(f.7)) {
        (Some(d), Some(t), Some(o)) => Some(
            OffsetDateTime { datetime: Datetime { date: Some(d), time: Some(t), offset: Some(o) } },
        ),
        _ => None,
    }
}

/// The local date-time chrono's fields stand for, where the library can
/// hold it.
pub open spec fn local_datetime_of(f: (i32, u32, u32, u32, u32, u32, u32)) -> Option<LocalDateTime> {
    match (date_of(f.0, f.1, f.2), time_of(f.3, f.4, f.5, f.6)) {
        (Some(d), Some(t)) => Some(
            LocalDateTime { datetime: Datetime { date: Some(d), time: Some(t), offset: None } },
        ),
        _ => None,
    }
}

impl OffsetDateTime {
    /// Reads an RFC 3339 date-time with offset, as chrono reads it. An error
    /// of chrono's gives its text; fields the library cannot hold give
    /// "date-time out of range".
    pub fn from_str(s: &str) -> (r: Result<OffsetDateTime, TomlError>)
        ensures
            r is Ok <==> (rfc3339_fields(s@) matches Ok(f) && offset_datetime_of(f) is Some),
            r matches Ok(d) ==> rfc3339_fields(s@) matches Ok(f) && offset_datetime_of(f) == Some(d),
            r matches Err(e) ==> match rfc3339_fields(s@) {
                Err(m) => e.message_view() == m,
                Ok(_) => e.message_view() == "date-time out of range"@,
            },
    {
        match parse_rfc3339(s) {
            Ok(f) => match (date_from(f.0, f.1, f.2), time_from(f.3, f.4, f.5, f.6), offset_from(f.7)) {
                (Some(d), Some(t), Some(o)) => Ok(
                    OffsetDateTime {
                        datetime: Datetime { date: Some(d), time: Some(t), offset: Some(o) },
                    },
                ),
                _ => Err(out_of_range()),
            },
            Err(m) => Err(TomlError::custom(m)),
        }
    }
}

impl LocalDateTime {
    /// Reads a date-time without offset in the form
    /// `%Y-%m-%dT%H:%M:%S%.f`, as chrono reads it. An error of chrono's gives
    /// its text; fields the library cannot hold give "date-time out of
    /// range".
    pub fn from_str(s: &str) -> (r: Result<LocalDateTime, TomlError>)
        ensures
            r is Ok <==> (naive_datetime_fields(s@, "%Y-%m-%dT%H:%M:%S%.f"@) matches Ok(f)
                && local_datetime_of(f) is Some),
            r matches Ok(d) ==> naive_datetime_fields(s@, "%Y-%m-%dT%H:%M:%S%.f"@) matches Ok(f)
                && local_datetime_of(f) == Some(d),
            r matches Err(e) ==> match naive_datetime_fields(s@, "%Y-%m-%dT%H:%M:%S%.f"@) {
                Err(m) => e.message_view() == m,
                Ok(_) => e.message_view() == "date-time out of range"@,
            },
    {
        match parse_naive_datetime(s, "%Y-%m-%dT%H:%M:%S%.f") {
            Ok(f) => match (date_from(f.0, f.1, f.2), time_from(f.3, f.4, f.5, f.6)) {
                (Some(d), Some(t)) => Ok(
                    LocalDateTime { datetime: Datetime { date: Some(d), time: Some(t), offset: None } },
                ),
                _ => Err(out_of_range()),
            },
            Err(m) => Err(TomlError::custom(m)),
        }
    }
}

impl LocalDate {
    /// Reads a date, as chrono reads it. An error of chrono's gives its text;
    /// a date the library cannot hold gives "date-time out of range".
    pub fn from_str(s: &str) -> (r: Result<LocalDate, TomlError>)
        ensures
            r is Ok <==> (naive_date_fields(s@) matches Ok(f) && date_of(f.0, f.1, f.2) is Some),
            r matches Ok(d) ==> naive_date_fields(s@) matches Ok(f) && date_of(f.0, f.1, f.2) == Some(
                d.date,
            ),
            r matches Err(e) ==> match naive_date_fields(s@) {
                Err(m) => e.message_view() == m,
                Ok(_) => e.message_view() == "date-time out of range"@,
            },
    {
        match parse_naive_date(s) {
            Ok(f) => match date_from(f.0, f.1, f.2) {
                Some(d) => Ok(LocalDate { date: d }),
                None => Err(out_of_range()),
            },
            Err(m) => Err(TomlError::custom(m)),
        }
    }
}

impl LocalTime {
    /// Reads a time, as chrono reads it. An error of chrono's gives its text;
    /// a time the library cannot hold gives "date-time out of range".
    pub fn from_str(s: &str) -> (r: Result<LocalTime, TomlError>)
        ensures
            r is Ok <==> (naive_time_fields(s@) matches Ok(f) && time_of(f.0, f.1, f.2, f.3) is Some),
            r matches Ok(t) ==> naive_time_fields(s@) matches Ok(f) && time_of(f.0, f.1, f.2, f.3)
                == Some(t.time),
            r matches Err(e) ==> match naive_time_fields(s@) {
                Err(m) => e.message_view() == m,
                Ok(_) => e.message_view() == "date-time out of range"@,
            },
    {
        match parse_naive_time(s) {
            Ok(f) => match time_from(f.0, f.1, f.2, f.3) {
                Some(t) => Ok(LocalTime { time: t }),
                None => Err(out_of_range()),
            },
            Err(m) => Err(TomlError::custom(m)),
        }
    }
}

} // verus!
