use chrono::Datelike;
use vstd::prelude::*;

verus! {

/// A calendar date as a plain (day, month, year) triple.
///
/// The type stores whatever it is given: no calendar validation happens at
/// construction. Validity matters only when a date is converted to a day
/// number for discounting, and an impossible triple surfaces there as a
/// `DateConversionError`.
#[derive(Clone, Copy, PartialEq, Eq, Structural, Debug)]
pub struct Date {
    pub day: u8,
    pub month: u8,
    pub year: i32,
}

/// The single error of the library: a (day, month, year) triple that does not
/// name a proleptic-Gregorian calendar day, reported at conversion time.
#[derive(Clone, Copy, PartialEq, Eq, Structural, Debug)]
pub struct DateConversionError {
    pub date: Date,
}

/// A proleptic-Gregorian leap year.
pub open spec fn is_leap_year(y: int) -> bool {
    y % 4 == 0 && (y % 100 != 0 || y % 400 == 0)
}

/// How many days the given month of the given year has.
pub open spec fn days_in_month(m: int, y: int) -> int {
    if m == 2 {
        if is_leap_year(y) {
            29
        } else {
            28
        }
    } else if m == 4 || m == 6 || m == 9 || m == 11 {
        30
    } else {
        31
    }
}

/// Whether the triple names a real proleptic-Gregorian day that the calendar
/// backend can convert: a real month and day, with the year inside the
/// backend's supported range.
pub open spec fn date_convertible(d: Date) -> bool {
    &&& 1 <= d.month <= 12
    &&& 1 <= d.day <= days_in_month(d.month as int, d.year as int)
    &&& -262143 <= d.year <= 262142
}

/// The day number of a convertible calendar date, counting January 1 of year
/// 1 as day 1. A function of the triple alone.
pub uninterp spec fn day_number(day: int, month: int, year: int) -> int;

/// The day number of a date value.
pub open spec fn date_day_number(d: Date) -> int {
    day_number(d.day as int, d.month as int, d.year as int)
}

/// Relies on `chrono::NaiveDate::from_ymd_opt`, which returns `Some` exactly
/// for triples naming a real proleptic-Gregorian day with the year between
/// -262143 and 262142, and on `chrono::Datelike::num_days_from_ce`, whose
/// `i32` result counts days from January 1 of year 1 (as day 1) and depends
/// on the calendar day alone.
#[verifier::external_body]
fn chrono_day_number(d: &Date) -> (r: Option<i64>)
    ensures
        r is Some <==> date_convertible(*d),
        r matches Some(n) ==> n == day_number(d.day as int, d.month as int, d.year as int),
        r matches Some(n) ==> -0x8000_0000 <= n <= 0x7fff_ffff,
{
    match chrono::NaiveDate::from_ymd_opt(d.year, d.month as u32, d.day as u32) {
        Some(nd) => Some(nd.num_days_from_ce() as i64),
        None => None,
    }
}

/// The signed day count from `as_of` to `date`: negative when `date` precedes
/// `as_of`. Fails with the first inconvertible date, `date` before `as_of`.
pub fn days_between(date: &Date, as_of: &Date) -> (r: Result<i64, DateConversionError>)
    ensures
        r is Ok <==> date_convertible(*date) && date_convertible(*as_of),
        r matches Ok(n) ==> n == date_day_number(*date) - date_day_number(*as_of),
        r matches Err(e) ==> !date_convertible(e.date) && e.date == (
        if !date_convertible(*date) {
            *date
        } else {
            *as_of
        }),
        *date == *as_of && date_convertible(*date) ==> (r matches Ok(n) && n == 0),
{
    let d1 = match chrono_day_number(date) {
        Some(n) => n,
        None => {
            return Err(DateConversionError { date: *date });
        },
    };
    let d2 = match chrono_day_number(as_of) {
        Some(n) => n,
        None => {
            return Err(DateConversionError { date: *as_of });
        },
    };
    Ok(d1 - d2)
}

impl Date {
    /// Builds the triple as given; nothing is validated here.
    pub fn new(day: u8, month: u8, year: i32) -> (r: Date)
        ensures
            r == (Date { day, month, year }),
    {
        Date { day, month, year }
    }
}

} // verus!
