//! Calendar dates: which texts are dates, and which dates exist.

use vstd::prelude::*;
use crate::error::{Fault, ParseError, ParseErrorKind};
use crate::text::{digit_value, is_digit};

verus! {

/// Leap years of the proleptic Gregorian calendar.
pub open spec fn is_leap_year(year: int) -> bool {
    year % 4 == 0 && (year % 100 != 0 || year % 400 == 0)
}

/// The number of days of a month, for `month` from 1 to 12.
pub open spec fn days_in_month(year: int, month: int) -> int {
    if month == 2 {
        if is_leap_year(year) {
            29
        } else {
            28
        }
    } else if month == 4 || month == 6 || month == 9 || month == 11 {
        30
    } else {
        31
    }
}

/// The day exists: the month is one of the twelve and has such a day in that year.
pub open spec fn is_calendar_date(year: int, month: int, day: int) -> bool {
    1 <= month <= 12 && 1 <= day <= days_in_month(year, month)
}

/// `text` is written as `yyyy-mm-dd`: four digits, two digits, two digits, with a
/// hyphen between them and nothing else.
pub open spec fn is_iso_shaped(text: Seq<char>) -> bool {
    &&& text.len() == 10
    &&& is_digit(text[0]) && is_digit(text[1]) && is_digit(text[2]) && is_digit(text[3])
    &&& text[4] == '-'
    &&& is_digit(text[5]) && is_digit(text[6])
    &&& text[7] == '-'
    &&& is_digit(text[8]) && is_digit(text[9])
}

/// The year that a text of the shape `yyyy-mm-dd` writes.
pub open spec fn iso_year(text: Seq<char>) -> int {
    1000 * digit_value(text[0]) + 100 * digit_value(text[1]) + 10 * digit_value(text[2])
        + digit_value(text[3])
}

/// The month that a text of the shape `yyyy-mm-dd` writes.
pub open spec fn iso_month(text: Seq<char>) -> int {
    10 * digit_value(text[5]) + digit_value(text[6])
}

/// The day that a text of the shape `yyyy-mm-dd` writes.
pub open spec fn iso_day(text: Seq<char>) -> int {
    10 * digit_value(text[8]) + digit_value(text[9])
}

/// `text` is a day that exists, written as `yyyy-mm-dd`.
pub open spec fn is_iso_date(text: Seq<char>) -> bool {
    is_iso_shaped(text) && is_calendar_date(iso_year(text), iso_month(text), iso_day(text))
}

/// Whether chrono's `NaiveDate::parse_from_str` reads `text` as a date under the
/// format `%Y-%m-%d`.
pub uninterp spec fn chrono_reads_date(text: Seq<char>) -> bool;

/// Whether `text` is taken as a date. A text of the shape `yyyy-mm-dd` is one
/// exactly where that day exists; of any other text chrono decides.
pub open spec fn date_accepted(text: Seq<char>) -> bool {
    if is_iso_shaped(text) {
        is_iso_date(text)
    } else {
        chrono_reads_date(text)
    }
}

/// Asks chrono's `NaiveDate::parse_from_str` whether `text` is a date under the
/// format `%Y-%m-%d`. Trusted, not proved: the answer depends on `text` alone,
/// and for a text of the shape `yyyy-mm-dd` it is yes exactly where the month is
/// 01 to 12 and the day is one of that month in that year.
#[verifier::external_body]
fn chrono_reads(text: &str) -> (ok: bool)
    ensures
        ok == chrono_reads_date(text@),
        is_iso_shaped(text@) ==> ok == is_iso_date(text@),
{
    chrono::naive::NaiveDate::parse_from_str(text, "%Y-%m-%d").is_ok()
}

/// Whether `text` is taken as a date.
pub fn is_date(text: &str) -> (ok: bool)
    ensures
        ok == date_accepted(text@),
{
    chrono_reads(text)
}

/// Turns the verdict on a candidate date into the date or the fault: an accepted
/// text is handed back, a refused one is reported as no date of the calendar.
pub fn date_or_fault(date: String, accepted: bool) -> (out: Result<String, ParseError>)
    ensures
        match out {
            Ok(kept) => accepted && kept@ == date@,
            Err(e) => !accepted && e@ == (Fault {
                kind: ParseErrorKind::InvalidCalendarDate,
                text: date@,
            }),
        },
{
    if accepted {
        Ok(date)
    } else {
        Err(ParseError { kind: ParseErrorKind::InvalidCalendarDate, text: date })
    }
}

} // verus!
