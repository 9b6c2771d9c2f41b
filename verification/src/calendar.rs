//! Calendar dates as day numbers.
//!
//! A [`Date`] is the number of a day in the proleptic Gregorian calendar, with
//! 1 January of year 1 as day 1. All date arithmetic of the crate is integer
//! arithmetic on that number; the calendar itself (which year, month and day a
//! number stands for) is left to `chrono`.

use vstd::prelude::*;

verus! {

/// A calendar day, held as its day number.
#[derive(Clone, Copy, Debug, PartialEq, Eq, Structural, PartialOrd, Ord, Hash)]
pub struct Date {
    pub days: i32,
}

/// Day number of the date that `chrono` builds from a year, a month and a day
/// of the month, or `None` where it builds none.
pub uninterp spec fn civil_day_number(year: i32, month: u32, day: u32) -> Option<i32>;

/// Day number of the date that `chrono` reads from a text in the form
/// `YYYY-MM-DD`, or the words in which it rejects the text.
pub uninterp spec fn iso_day_number(text: Seq<char>) -> Result<i32, Seq<char>>;

/// The date with the given day number, if there is a number.
pub open spec fn date_of(number: Option<i32>) -> Option<Date> {
    match number {
        Some(days) => Some(Date { days }),
        None => None,
    }
}

/// An outcome of reading a day number, with the words of a rejection taken
/// as a sequence.
pub open spec fn read_as(outcome: Result<i32, String>) -> Result<i32, Seq<char>> {
    match outcome {
        Ok(days) => Ok(days),
        Err(reason) => Err(reason@),
    }
}

/// The date that a text in the form `YYYY-MM-DD` stands for, or the words in
/// which the text is rejected.
pub open spec fn date_in(text: Seq<char>) -> Result<Date, Seq<char>> {
    match iso_day_number(text) {
        Ok(days) => Ok(Date { days }),
        Err(reason) => Err(reason),
    }
}

/// Calls `chrono::NaiveDate::from_ymd_opt` and hands back the day number of
/// the date it made. The contract only gives that number its name: the same
/// year, month and day always give the same answer.
#[verifier::external_body]
fn day_number_from_ymd(year: i32, month: u32, day: u32) -> (number: Option<i32>)
    ensures
        number == civil_day_number(year, month, day),
{
    match chrono::NaiveDate::from_ymd_opt(year, month, day) {
        Some(date) => Some(chrono::Datelike::num_days_from_ce(&date)),
        None => None,
    }
}

/// Calls `chrono::NaiveDate::parse_from_str` with the format `%Y-%m-%d` and
/// hands back the day number of the date it read, or its error in words. The
/// contract only gives that outcome its name: the same text always gives the
/// same answer.
#[verifier::external_body]
fn day_number_from_text(text: &str) -> (number: Result<i32, String>)
    ensures
        read_as(number) == iso_day_number(text@),
{
    match chrono::NaiveDate::parse_from_str(text, "%Y-%m-%d") {
        Ok(date) => Ok(chrono::Datelike::num_days_from_ce(&date)),
        Err(e) => Err(e.to_string()),
    }
}

/// Calls `chrono::Local::now` and hands back the day number of the current
/// local date. Nothing is promised of it: it changes with the clock.
#[verifier::external_body]
fn day_number_of_today() -> (number: i32)
{
    chrono::Datelike::num_days_from_ce(&chrono::Local::now().date_naive())
}

impl Date {
    /// The date of a year, a month and a day of the month.
    pub fn from_ymd(year: i32, month: u32, day: u32) -> (date: Option<Date>)
        ensures
            date == date_of(civil_day_number(year, month, day)),
    {
        match day_number_from_ymd(year, month, day) {
            Some(days) => Some(Date { days }),
            None => None,
        }
    }

    /// The date written as `YYYY-MM-DD`, or the words in which such a text
    /// is rejected.
    pub fn read(text: &str) -> (date: Result<Date, String>)
        ensures
            date matches Ok(day) ==> date_in(text@) == Ok::<Date, Seq<char>>(day),
            date matches Err(reason) ==> date_in(text@) == Err::<Date, Seq<char>>(reason@),
    {
        match day_number_from_text(text) {
            Ok(days) => Ok(Date { days }),
            Err(reason) => Err(reason),
        }
    }

    /// The date written as `YYYY-MM-DD`, if the text is one.
    pub fn parse(text: &str) -> (date: Option<Date>)
        ensures
            match date_in(text@) {
                Ok(day) => date == Some(day),
                Err(_) => date is None,
            },
    {
        match Date::read(text) {
            Ok(day) => Some(day),
            Err(_) => None,
        }
    }

    /// The current local date.
    pub fn today() -> Date {
        Date { days: day_number_of_today() }
    }

    /// Whole days from `earlier` to `self`; negative where `self` comes first.
    pub fn days_since(self, earlier: Date) -> (gap: i64)
        ensures
            gap == self.days - earlier.days,
    {
        self.days as i64 - earlier.days as i64
    }

    /// The date `offset` days after `self`, or `None` where its day number
    /// does not fit the type.
    pub fn plus_days(self, offset: i64) -> (date: Option<Date>)
        ensures
            date is Some <==> i32::MIN <= self.days + offset <= i32::MAX,
            date matches Some(d) ==> d.days == self.days + offset,
    {
        match (self.days as i64).checked_add(offset) {
            Some(sum) => {
                if sum >= i32::MIN as i64 && sum <= i32::MAX as i64 {
                    Some(Date { days: sum as i32 })
                } else {
                    None
                }
            },
            None => None,
        }
    }
}

} // verus!
