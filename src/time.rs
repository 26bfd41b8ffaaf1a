use vstd::prelude::*;

use chrono::TimeZone;

use crate::der::{Reader, Tag};
use crate::error::{Error, ErrorKind, Result};

verus! {

/// A UTC calendar timestamp read from a UTCTime or GeneralizedTime value.
#[derive(Clone, Copy, Debug, PartialEq, Eq, Structural)]
pub struct Time {
    pub year: u32,
    pub month: u32,
    pub day: u32,
    pub hour: u32,
    pub minute: u32,
    pub second: u32,
}

/// Gregorian leap years.
pub open spec fn is_leap_year(y: int) -> bool {
    y % 4 == 0 && (y % 100 != 0 || y % 400 == 0)
}

/// The number of days of a month (1 to 12) of the Gregorian calendar.
pub open spec fn days_in_month(y: int, m: int) -> int {
    if m == 2 {
        if is_leap_year(y) {
            29
        } else {
            28
        }
    } else if m == 4 || m == 6 || m == 9 || m == 11 {
        30
    } else {
        31
    }
}

/// A calendar date that exists.
pub open spec fn is_valid_date(y: int, m: int, d: int) -> bool {
    1 <= m <= 12 && 1 <= d <= days_in_month(y, m)
}

/// How a civil time maps to instants of a time zone.
#[derive(Clone, Copy, Debug, PartialEq, Eq, Structural)]
pub enum LocalOutcome {
    Missing,
    Single,
    Ambiguous,
}

/// Relies on chrono's `NaiveDate::from_ymd_opt`: it gives a date exactly for
/// the year, month and day of the proleptic Gregorian calendar that exist.
#[verifier::external_body]
fn date_exists(year: i32, month: u32, day: u32) -> (r: bool)
    requires
        0 <= year <= 9999,
    ensures
        r == is_valid_date(year as int, month as int, day as int),
{
    chrono::NaiveDate::from_ymd_opt(year, month, day).is_some()
}

/// Relies on chrono's `TimeZone::with_ymd_and_hms` for `Utc`: a valid date
/// with hour, minute and second in range is a single instant, anything else none.
#[verifier::external_body]
fn utc_outcome(year: i32, month: u32, day: u32, hour: u32, minute: u32, second: u32) -> (r: LocalOutcome)
    requires
        0 <= year <= 9999,
    ensures
        r == (if is_valid_date(year as int, month as int, day as int) && hour < 24 && minute < 60
            && second < 60 {
            LocalOutcome::Single
        } else {
            LocalOutcome::Missing
        }),
{
    match chrono::Utc.with_ymd_and_hms(year, month, day, hour, minute, second) {
        chrono::offset::LocalResult::None => LocalOutcome::Missing,
        chrono::offset::LocalResult::Single(_) => LocalOutcome::Single,
        chrono::offset::LocalResult::Ambiguous(_, _) => LocalOutcome::Ambiguous,
    }
}

/// The number of days of `month` in `year`, found by asking the calendar
/// which of the last possible days exist.
pub fn month_length(year: u32, month: u32) -> (r: u32)
    requires
        year <= 9999,
        1 <= month <= 12,
    ensures
        r == days_in_month(year as int, month as int),
{
    let mut d: u32 = 31;
    while d > 28 && !date_exists(year as i32, month, d)
        invariant
            28 <= d <= 31,
            year <= 9999,
            1 <= month <= 12,
            d <= 30 ==> !is_valid_date(year as int, month as int, d as int + 1),
            d >= days_in_month(year as int, month as int),
        decreases d,
    {
        d = d - 1;
    }
    d
}

/// Two ASCII digits at `pos` read as a number in `min..=max`.
pub open spec fn two_digits(s: Seq<u8>, pos: int, min: int, max: int) -> core::result::Result<int, ErrorKind> {
    if pos >= s.len() {
        Err(ErrorKind::EndOfInput)
    } else if !(48 <= s[pos] <= 57) {
        Err(ErrorKind::InvalidDigit)
    } else if pos + 1 >= s.len() {
        Err(ErrorKind::EndOfInput)
    } else if !(48 <= s[pos + 1] <= 57) {
        Err(ErrorKind::InvalidDigit)
    } else {
        let v = (s[pos] - 48) * 10 + (s[pos + 1] - 48);
        if v < min || v > max {
            Err(ErrorKind::DigitOutOfRange)
        } else {
            Ok(v)
        }
    }
}

/// The year field: two digits with the century chosen by the pivot 50 for
/// UTCTime, four digits for GeneralizedTime. Gives the year and its width.
pub open spec fn year_field(utc: bool, s: Seq<u8>) -> core::result::Result<(int, int), ErrorKind> {
    if utc {
        match two_digits(s, 0, 0, 99) {
            Err(k) => Err(k),
            Ok(lo) => Ok((if lo >= 50 { 1900 + lo } else { 2000 + lo }, 2)),
        }
    } else {
        match two_digits(s, 0, 0, 99) {
            Err(k) => Err(k),
            Ok(hi) => match two_digits(s, 2, 0, 99) {
                Err(k) => Err(k),
                Ok(lo) => Ok((hi * 100 + lo, 4)),
            },
        }
    }
}

/// The rest of a time value after the year `y`, starting at `p`.
pub open spec fn time_after_year(s: Seq<u8>, y: int, p: int) -> core::result::Result<Time, ErrorKind> {
    match two_digits(s, p, 1, 12) {
        Err(k) => Err(k),
        Ok(mo) => match two_digits(s, p + 2, 1, days_in_month(y, mo)) {
            Err(k) => Err(k),
            Ok(d) => match two_digits(s, p + 4, 0, 23) {
                Err(k) => Err(k),
                Ok(h) => match two_digits(s, p + 6, 0, 59) {
                    Err(k) => Err(k),
                    Ok(mi) => match two_digits(s, p + 8, 0, 59) {
                        Err(k) => Err(k),
                        Ok(se) => if p + 10 >= s.len() {
                            Err(ErrorKind::EndOfInput)
                        } else if s[p + 10] != 90 {
                            Err(ErrorKind::UnsupportedTimezone)
                        } else {
                            Ok(
                                Time {
                                    year: y as u32,
                                    month: mo as u32,
                                    day: d as u32,
                                    hour: h as u32,
                                    minute: mi as u32,
                                    second: se as u32,
                                },
                            )
                        },
                    },
                },
            },
        },
    }
}

/// The timestamp that the content `s` of a UTCTime (`utc`) or
/// GeneralizedTime value gives, or why it gives none.
pub open spec fn time_of(utc: bool, s: Seq<u8>) -> core::result::Result<Time, ErrorKind> {
    match year_field(utc, s) {
        Err(k) => Err(k),
        Ok((y, p)) => time_after_year(s, y, p),
    }
}

fn read_digit(inner: &mut Reader) -> (r: Result<u32>)
    requires
        old(inner).wf(),
    ensures
        final(inner).wf(),
        final(inner).data() == old(inner).data(),
        match r {
            Ok(v) => old(inner).pos() < old(inner).data().len() && 48 <= old(inner).data()[old(
                inner,
            ).pos()] <= 57 && v == old(inner).data()[old(inner).pos()] - 48 && final(inner).pos()
                == old(inner).pos() + 1,
            Err(e) => if old(inner).pos() >= old(inner).data().len() {
                e == Error(ErrorKind::EndOfInput)
            } else {
                !(48 <= old(inner).data()[old(inner).pos()] <= 57) && e == Error(ErrorKind::InvalidDigit)
            },
        },
{
    let byte = inner.read_byte()?;
    if 48 <= byte && byte <= 57 {
        Ok((byte - 48) as u32)
    } else {
        Err(Error(ErrorKind::InvalidDigit))
    }
}

fn read_two_digits(inner: &mut Reader, min: u32, max: u32) -> (r: Result<u32>)
    requires
        old(inner).wf(),
    ensures
        final(inner).wf(),
        final(inner).data() == old(inner).data(),
        match two_digits(old(inner).data(), old(inner).pos(), min as int, max as int) {
            Ok(v) => r == Ok::<u32, Error>(v as u32) && final(inner).pos() == old(inner).pos() + 2,
            Err(k) => r == Err::<u32, Error>(Error(k)),
        },
{
    let hi = read_digit(inner)?;
    let lo = read_digit(inner)?;
    let value = (hi * 10) + lo;
    if value < min || value > max {
        return Err(Error(ErrorKind::DigitOutOfRange));
    }
    Ok(value)
}

/// Reads the content of a UTCTime (`tag` is `UTCTime`) or GeneralizedTime
/// value: fixed-width digit fields for year, month, day, hour, minute and
/// second, then `Z`.
pub fn interpret_time(tag: Tag, content: &[u8]) -> (r: Result<Time>)
    ensures
        match time_of(tag == Tag::UTCTime, content@) {
            Ok(t) => r == Ok::<Time, Error>(t),
            Err(k) => r == Err::<Time, Error>(Error(k)),
        },
{
    let mut reader = Reader::new(content);
    let year: u32 = if tag == Tag::UTCTime {
        let lo = read_two_digits(&mut reader, 0, 99)?;
        if lo >= 50 {
            1900 + lo
        } else {
            2000 + lo
        }
    } else {
        let hi = read_two_digits(&mut reader, 0, 99)?;
        let lo = read_two_digits(&mut reader, 0, 99)?;
        hi * 100 + lo
    };
    let ghost p = reader.pos();
    assert(year_field(tag == Tag::UTCTime, content@) == Ok::<(int, int), ErrorKind>((year as int, p)));
    let month = read_two_digits(&mut reader, 1, 12)?;
    let days = month_length(year, month);
    let day = read_two_digits(&mut reader, 1, days)?;
    let hour = read_two_digits(&mut reader, 0, 23)?;
    let minute = read_two_digits(&mut reader, 0, 59)?;
    let second = read_two_digits(&mut reader, 0, 59)?;
    if reader.read_byte()? != 90 {
        return Err(Error(ErrorKind::UnsupportedTimezone));
    }
    match utc_outcome(year as i32, month, day, hour, minute, second) {
        LocalOutcome::Missing => Err(Error(ErrorKind::InvalidTime)),
        LocalOutcome::Ambiguous => Err(Error(ErrorKind::AmbiguousTime)),
        LocalOutcome::Single => Ok(Time { year, month, day, hour, minute, second }),
    }
}

} // verus!
