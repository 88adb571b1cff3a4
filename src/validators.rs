//! Checks on the date and period strings that commands take.
use vstd::prelude::*;
use chrono::Datelike;

verus! {

/// The calendar date that chrono reads from `s` in the format `%Y-%m-%d`,
/// as (year, month, day), or `None` where `s` holds no such date.
pub uninterp spec fn iso_date_of(s: Seq<char>) -> Option<(i32, u32, u32)>;

/// Relies on chrono's `NaiveDate::parse_from_str` with the format `%Y-%m-%d`,
/// and on `Datelike::{year, month, day}` of the date it returns: months run
/// from 1 to 12 and days from 1 to 31.
#[verifier::external_body]
fn parse_iso_date(s: &str) -> (r: Option<(i32, u32, u32)>)
    ensures
        r == iso_date_of(s@),
        r matches Some((_, m, d)) ==> 1 <= m <= 12 && 1 <= d <= 31,
{
    match chrono::NaiveDate::parse_from_str(s, "%Y-%m-%d") {
        Ok(date) => Some((date.year(), date.month(), date.day())),
        Err(_) => None,
    }
}

/// The message of a rejected month.
pub open spec fn month_message() -> Seq<char> {
    "Date must be in the format YYYY-MM"@
}

/// The message of a rejected date.
pub open spec fn date_message() -> Seq<char> {
    "Date must be in the format YYYY-MM-DD"@
}

/// Accepts the month `s` when its first day, `parsed`, is a date.
pub fn check_month_parse(s: &str, parsed: Option<(i32, u32, u32)>) -> (r: Result<String, String>)
    ensures
        match r {
            Ok(v) => parsed matches Some((_, _, d)) && d == 1 && v@ == s@,
            Err(m) => !(parsed matches Some((_, _, d)) && d == 1) && m@ == month_message(),
        },
{
    match parsed {
        Some((_, _, day)) if day == 1 => Ok(String::from_str(s)),
        _ => Err(String::from_str("Date must be in the format YYYY-MM")),
    }
}

/// Accepts the date `s` when `parsed` is a date.
pub fn check_date_parse(s: &str, parsed: Option<(i32, u32, u32)>) -> (r: Result<String, String>)
    ensures
        match r {
            Ok(v) => parsed is Some && v@ == s@,
            Err(m) => parsed is None && m@ == date_message(),
        },
{
    match parsed {
        Some(_) => Ok(String::from_str(s)),
        None => Err(String::from_str("Date must be in the format YYYY-MM-DD")),
    }
}

/// Accepts `s` when it names a month as `YYYY-MM`: when `s` followed by `-01`
/// is a date.
pub fn validate_month_date_format(s: &str) -> (r: Result<String, String>)
    ensures
        match r {
            Ok(v) => iso_date_of(s@ + "-01"@) matches Some((_, _, d)) && d == 1 && v@ == s@,
            Err(m) => !(iso_date_of(s@ + "-01"@) matches Some((_, _, d)) && d == 1) && m@
                == month_message(),
        },
{
    let mut first_day = String::from_str(s);
    first_day.append("-01");
    let parsed = parse_iso_date(first_day.as_str());
    check_month_parse(s, parsed)
}

/// Accepts `s` when it is a date as `YYYY-MM-DD`.
pub fn validate_date_format(s: &str) -> (r: Result<String, String>)
    ensures
        match r {
            Ok(v) => iso_date_of(s@) is Some && v@ == s@,
            Err(m) => iso_date_of(s@) is None && m@ == date_message(),
        },
{
    check_date_parse(s, parse_iso_date(s))
}

} // verus!
