//! Calendar dates and the due-date normalizer.
//!
//! [`format_date`] turns a loosely written date expression into a canonical
//! `YYYY-MM-DD` string, relative to a caller-supplied "today":
//! - an explicit year below 100 is taken as `2000 + year`;
//! - a month-day expression gets today's year, or next year if that month
//!   and day have already passed;
//! - a day-only expression gets today's month, or the next month (rolling
//!   into January) if that day of the month has already passed.
//!
//! The resolved triple must be a real calendar date (leap years counted)
//! with a four-digit year, or a distinct error is returned.

use vstd::prelude::*;
use crate::parse::{ParseFail, PartialDate, PartialDateError, clean_spec, partial_of};
use crate::text::string_of;

verus! {

/// A calendar date with a four-digit year; `Date` values are used as the
/// reference "today" for normalization.
#[derive(Debug, Clone, Copy, PartialEq, Eq, Structural)]
pub struct Date {
    pub year: u32,
    pub month: u32,
    pub day: u32,
}

pub open spec fn is_leap_year(y: int) -> bool {
    (y % 4 == 0 && y % 100 != 0) || y % 400 == 0
}

pub open spec fn days_in_month(y: int, m: int) -> int {
    if m == 2 {
        if is_leap_year(y) {
            29
        } else {
            28
        }
    } else if m == 4 || m == 6 || m == 9 || m == 11 {
        30
    } else {
        31
    }
}

/// A real calendar date that fits the fixed-width `YYYY-MM-DD` form.
pub open spec fn valid_ymd(y: int, m: int, d: int) -> bool {
    0 <= y <= 9999 && 1 <= m <= 12 && 1 <= d <= days_in_month(y, m)
}

pub open spec fn date_valid(t: Date) -> bool {
    valid_ymd(t.year as int, t.month as int, t.day as int)
}

/// The year, month and day that a partial date resolves to, relative to
/// `today`: fields that were not given are inferred forward-rolling.
pub open spec fn resolve_spec(pd: PartialDate, today: Date) -> (int, int, int) {
    match pd {
        PartialDate::YearMonthDay { year, month, day } => (
            if year < 100 {
                year + 2000
            } else {
                year as int
            },
            month as int,
            day as int,
        ),
        PartialDate::MonthDay { month, day } => (
            if month > today.month || (month == today.month && day >= today.day) {
                today.year as int
            } else {
                today.year + 1
            },
            month as int,
            day as int,
        ),
        PartialDate::Day { day } => {
            if day >= today.day {
                (today.year as int, today.month as int, day as int)
            } else if today.month == 12 {
                (today.year + 1, 1int, day as int)
            } else {
                (today.year as int, today.month + 1, day as int)
            }
        },
    }
}

pub open spec fn digit_char(d: int) -> char {
    if d == 0 {
        '0'
    } else if d == 1 {
        '1'
    } else if d == 2 {
        '2'
    } else if d == 3 {
        '3'
    } else if d == 4 {
        '4'
    } else if d == 5 {
        '5'
    } else if d == 6 {
        '6'
    } else if d == 7 {
        '7'
    } else if d == 8 {
        '8'
    } else {
        '9'
    }
}

/// The `w` least significant decimal digits of `n`, zero-padded.
pub open spec fn fmt_num(n: int, w: nat) -> Seq<char>
    decreases w,
{
    if w == 0 {
        Seq::empty()
    } else {
        fmt_num(n / 10, (w - 1) as nat).push(digit_char(n % 10))
    }
}

/// The canonical `YYYY-MM-DD` character sequence of a date triple.
pub open spec fn date_chars(y: int, m: int, d: int) -> Seq<char> {
    fmt_num(y, 4) + seq!['-'] + fmt_num(m, 2) + seq!['-'] + fmt_num(d, 2)
}

/// The mathematical counterpart of [`FormatDateError`].
pub enum NormFail {
    Parse(ParseFail),
    Invalid { year: int, month: int, day: int },
}

/// Why normalization failed: the expression could not be read, or the
/// resolved triple is not a real calendar date with a four-digit year.
#[derive(Debug, PartialEq)]
pub enum FormatDateError {
    Parse(PartialDateError),
    InvalidDate { year: u32, month: u32, day: u32 },
}

impl View for FormatDateError {
    type V = NormFail;

    open spec fn view(&self) -> NormFail {
        match self {
            FormatDateError::Parse(e) => NormFail::Parse(e@),
            FormatDateError::InvalidDate { year, month, day } => NormFail::Invalid {
                year: *year as int,
                month: *month as int,
                day: *day as int,
            },
        }
    }
}

/// What normalizing `s` against `today` yields: the canonical form of the
/// resolved date, or the first error on the way there.
pub open spec fn normalize_spec(s: Seq<char>, today: Date) -> Result<Seq<char>, NormFail> {
    match partial_of(clean_spec(s)) {
        Err(e) => Err(NormFail::Parse(e)),
        Ok(pd) => {
            let r = resolve_spec(pd, today);
            if valid_ymd(r.0, r.1, r.2) {
                Ok(date_chars(r.0, r.1, r.2))
            } else {
                Err(NormFail::Invalid { year: r.0, month: r.1, day: r.2 })
            }
        },
    }
}

impl Date {
    /// Whether this is a real calendar date with a four-digit year.
    pub fn is_valid(&self) -> (r: bool)
        ensures
            r == date_valid(*self),
    {
        self.year <= 9999 && 1 <= self.month && self.month <= 12 && 1 <= self.day && self.day
            <= days_in(self.year, self.month)
    }
}

/// Whether `y` is a leap year in the Gregorian calendar.
pub fn is_leap(y: u32) -> (r: bool)
    ensures
        r == is_leap_year(y as int),
{
    (y % 4 == 0 && y % 100 != 0) || y % 400 == 0
}

/// Number of days in month `m` of year `y`.
pub fn days_in(y: u32, m: u32) -> (r: u32)
    ensures
        r == days_in_month(y as int, m as int),
{
    if m == 2 {
        if is_leap(y) {
            29
        } else {
            28
        }
    } else if m == 4 || m == 6 || m == 9 || m == 11 {
        30
    } else {
        31
    }
}

fn digit_of(d: u32) -> (r: char)
    requires
        d < 10,
    ensures
        r == digit_char(d as int),
{
    if d == 0 {
        '0'
    } else if d == 1 {
        '1'
    } else if d == 2 {
        '2'
    } else if d == 3 {
        '3'
    } else if d == 4 {
        '4'
    } else if d == 5 {
        '5'
    } else if d == 6 {
        '6'
    } else if d == 7 {
        '7'
    } else if d == 8 {
        '8'
    } else {
        '9'
    }
}

/// The canonical `YYYY-MM-DD` string of a valid date triple.
fn date_string(y: u32, m: u32, d: u32) -> (r: String)
    requires
        valid_ymd(y as int, m as int, d as int),
    ensures
        r@ == date_chars(y as int, m as int, d as int),
{
    let mut v: Vec<char> = Vec::new();
    let y1 = y / 10;
    let y2 = y1 / 10;
    let y3 = y2 / 10;
    v.push(digit_of(y3 % 10));
    v.push(digit_of(y2 % 10));
    v.push(digit_of(y1 % 10));
    v.push(digit_of(y % 10));
    v.push('-');
    let m1 = m / 10;
    v.push(digit_of(m1 % 10));
    v.push(digit_of(m % 10));
    v.push('-');
    let d1 = d / 10;
    v.push(digit_of(d1 % 10));
    v.push(digit_of(d % 10));
    proof {
        reveal_with_fuel(fmt_num, 5);
        assert(y3 / 10 == 0int);
        assert(m / 10 / 10 == 0int);
        assert(d / 10 / 10 == 0int);
        assert(v@ =~= date_chars(y as int, m as int, d as int));
    }
    string_of(&v)
}

/// Normalizes the raw date expression `date` against `today` into a
/// canonical `YYYY-MM-DD` string, or reports the first error: a field that
/// is not a number, a wrong number of parts, or a resolved triple that is
/// not a real calendar date.
pub fn format_date(date: &str, today: &Date) -> (r: Result<String, FormatDateError>)
    requires
        date_valid(*today),
    ensures
        (r matches Ok(s) ==> normalize_spec(date@, *today) == Ok::<Seq<char>, NormFail>(s@)),
        (r matches Err(e) ==> normalize_spec(date@, *today) == Err::<Seq<char>, NormFail>(e@)),
{
    let pd = match PartialDate::build(date) {
        Ok(pd) => pd,
        Err(e) => {
            return Err(FormatDateError::Parse(e));
        },
    };
    let resolved: (u32, u32, u32) = match pd {
        PartialDate::YearMonthDay { year, month, day } => {
            let yy = if year < 100 {
                year + 2000
            } else {
                year
            };
            (yy, month, day)
        },
        PartialDate::MonthDay { month, day } => {
            let yy = if month > today.month || (month == today.month && day >= today.day) {
                today.year
            } else {
                today.year + 1
            };
            (yy, month, day)
        },
        PartialDate::Day { day } => {
            if day >= today.day {
                (today.year, today.month, day)
            } else if today.month == 12 {
                (today.year + 1, 1, day)
            } else {
                (today.year, today.month + 1, day)
            }
        },
    };
    let (y, m, d) = resolved;
    if !(y <= 9999 && 1 <= m && m <= 12) {
        return Err(FormatDateError::InvalidDate { year: y, month: m, day: d });
    }
    let dim = days_in(y, m);
    if !(1 <= d && d <= dim) {
        return Err(FormatDateError::InvalidDate { year: y, month: m, day: d });
    }
    Ok(date_string(y, m, d))
}

} // verus!
