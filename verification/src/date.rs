//! Calendar dates: validity, chronological order, and reading a date from text.

use crate::amount::digit_char;
use crate::error::Error;
use vstd::prelude::*;

verus! {

/// A day of the proleptic Gregorian calendar, without a time of day.
#[derive(Clone, Copy, Debug, PartialEq, Eq, Structural)]
pub struct Date {
    pub year: i32,
    pub month: u8,
    pub day: u8,
}

/// The earliest year a date may lie in.
pub const MIN_YEAR: i32 = -9999;

/// The latest year a date may lie in.
pub const MAX_YEAR: i32 = 9999;

pub open spec fn is_leap_year(year: int) -> bool {
    year % 4 == 0 && (year % 100 != 0 || year % 400 == 0)
}

pub open spec fn days_in_month(year: int, month: int) -> int {
    if month == 2 {
        if is_leap_year(year) {
            29
        } else {
            28
        }
    } else if month == 4 || month == 6 || month == 9 || month == 11 {
        30
    } else {
        31
    }
}

/// Whether `year`, `month` and `day` name a day that exists.
pub open spec fn valid_calendar_date(year: int, month: int, day: int) -> bool {
    &&& MIN_YEAR <= year <= MAX_YEAR
    &&& 1 <= month <= 12
    &&& 1 <= day <= days_in_month(year, month)
}

/// The calendar date that a text in the form year-month-day denotes, as the
/// `time` crate reads it under the format `[year]-[month]-[day]`; `None`
/// where it rejects the text.
pub uninterp spec fn calendar_date_of(text: Seq<char>) -> Option<(i32, u8, u8)>;

/// Calls `time::Date::parse` with the format description that
/// `time::format_description::parse_borrowed` makes of `[year]-[month]-[day]`,
/// and hands back the year, the month number and the day of the date it
/// read; `None` where the text is rejected. The contract only gives that
/// outcome its name: the same text is always read the same way. Whether the
/// parts name a day that exists is checked by the caller.
#[verifier::external_body]
fn parse_calendar_date(text: &str) -> (parts: Option<(i32, u8, u8)>)
    ensures
        parts == calendar_date_of(text@),
{
    let format = time::format_description::parse_borrowed::<1>("[year]-[month]-[day]").ok()?;
    let date = time::Date::parse(text, &format).ok()?;
    Some((date.year(), u8::from(date.month()), date.day()))
}

/// The two decimal digits of a number below 100, with a leading zero.
pub open spec fn two_digits(n: int) -> Seq<char> {
    seq![digit_char(n / 10), digit_char(n % 10)]
}

/// The four decimal digits of a number below 10000, with leading zeros.
pub open spec fn four_digits(n: int) -> Seq<char> {
    seq![
        digit_char(n / 1000),
        digit_char(n / 100 % 10),
        digit_char(n / 10 % 10),
        digit_char(n % 10),
    ]
}

/// The text of a calendar date: a minus sign where the year is negative,
/// the four digits of the year, a hyphen, the two digits of the month, a
/// hyphen, and the two digits of the day, as in `2024-01-15`.
pub open spec fn date_text(year: int, month: int, day: int) -> Seq<char> {
    let sign = if year < 0 {
        seq!['-']
    } else {
        Seq::empty()
    };
    let magnitude = if year < 0 {
        -year
    } else {
        year
    };
    sign + four_digits(magnitude) + seq!['-'] + two_digits(month) + seq!['-'] + two_digits(day)
}

/// Makes the `time::Date` of the given parts with
/// `time::Date::from_calendar_date` and calls `to_string` on it. The parts
/// must name a day that exists, which is when the date can be made. The
/// contract states the text that `time` writes for a date whose year has
/// at most four digits: sign, year, month and day as `date_text` has them.
#[verifier::external_body]
fn calendar_date_text(year: i32, month: u8, day: u8) -> (text: String)
    requires
        valid_calendar_date(year as int, month as int, day as int),
    ensures
        text@ == date_text(year as int, month as int, day as int),
{
    let month = time::Month::try_from(month).expect("a month from 1 to 12");
    time::Date::from_calendar_date(year, month, day).expect("a day that exists").to_string()
}

impl Date {
    pub open spec fn valid(self) -> bool {
        valid_calendar_date(self.year as int, self.month as int, self.day as int)
    }

    /// `self` is the same day as `other` or an earlier one.
    pub open spec fn on_or_before(self, other: Date) -> bool {
        ||| self.year < other.year
        ||| self.year == other.year && self.month < other.month
        ||| self.year == other.year && self.month == other.month && self.day <= other.day
    }

    /// `self` is an earlier day than `other`.
    pub open spec fn before(self, other: Date) -> bool {
        self.on_or_before(other) && self != other
    }

    /// The text of the date, year first.
    pub open spec fn text_spec(self) -> Seq<char> {
        date_text(self.year as int, self.month as int, self.day as int)
    }

    /// What reading a date yields, given the parts the text was taken apart into.
    pub open spec fn from_parts_result(parts: Option<(i32, u8, u8)>) -> Result<Date, Error> {
        match parts {
            Some((year, month, day)) => if valid_calendar_date(
                year as int,
                month as int,
                day as int,
            ) {
                Ok(Date { year, month, day })
            } else {
                Err(Error::InvalidInput)
            },
            None => Err(Error::InvalidInput),
        }
    }

    /// The date with these parts, or `InvalidInput` where no such day exists.
    pub fn new(year: i32, month: u8, day: u8) -> (made: Result<Date, Error>)
        ensures
            made == Date::from_parts_result(Some((year, month, day))),
    {
        let date = Date { year, month, day };
        if date.is_valid() {
            Ok(date)
        } else {
            Err(Error::InvalidInput)
        }
    }

    /// The date for the parts of a text already taken apart; `None` stands
    /// for a text that could not be.
    pub fn from_parts(parts: Option<(i32, u8, u8)>) -> (made: Result<Date, Error>)
        ensures
            made == Date::from_parts_result(parts),
    {
        match parts {
            Some((year, month, day)) => Date::new(year, month, day),
            None => Err(Error::InvalidInput),
        }
    }

    pub fn is_valid(&self) -> (ok: bool)
        ensures
            ok == self.valid(),
    {
        if self.year < MIN_YEAR || self.year > MAX_YEAR {
            return false;
        }
        if self.month < 1 || self.month > 12 || self.day < 1 {
            return false;
        }
        // Shifted by a multiple of 400, so that the remainders are taken of a
        // positive number.
        let shifted: u32 = (self.year + 10000) as u32;
        assert(shifted as int == self.year + 10000);
        let leap = shifted % 4 == 0 && (shifted % 100 != 0 || shifted % 400 == 0);
        assert(leap == is_leap_year(self.year as int));
        let last: u8 = if self.month == 2 {
            if leap {
                29
            } else {
                28
            }
        } else if self.month == 4 || self.month == 6 || self.month == 9 || self.month == 11 {
            30
        } else {
            31
        };
        self.day <= last
    }

    /// The date as text, year first, as in `2024-01-15`. The text is written
    /// by the `time` crate; a day that does not exist has none and is
    /// refused with `InvalidInput`.
    pub fn text(&self) -> (written: Result<String, Error>)
        ensures
            match written {
                Ok(text) => self.valid() && text@ == self.text_spec(),
                Err(e) => !self.valid() && e == Error::InvalidInput,
            },
    {
        if self.is_valid() {
            Ok(calendar_date_text(self.year, self.month, self.day))
        } else {
            Err(Error::InvalidInput)
        }
    }

    pub fn is_on_or_before(&self, other: &Date) -> (ok: bool)
        ensures
            ok == self.on_or_before(*other),
    {
        if self.year != other.year {
            self.year < other.year
        } else if self.month != other.month {
            self.month < other.month
        } else {
            self.day <= other.day
        }
    }
}

/// Reads a date written as year-month-day, such as `2024-01-15`.
/// The text is taken apart by the `time` crate; whatever it hands back is
/// then checked to be a day that exists.
pub fn parse_date(text: &str) -> (read: Result<Date, Error>)
    ensures
        read == Date::from_parts_result(calendar_date_of(text@)),
{
    Date::from_parts(parse_calendar_date(text))
}

/// The order of dates is total: of two dates one is on or before the other.
pub proof fn lemma_date_order_total(a: Date, b: Date)
    ensures
        a.on_or_before(b) || b.on_or_before(a),
        a.on_or_before(b) && b.on_or_before(a) ==> a == b,
{
}

/// The order of dates is transitive.
pub proof fn lemma_date_order_transitive(a: Date, b: Date, c: Date)
    requires
        a.on_or_before(b),
        b.on_or_before(c),
    ensures
        a.on_or_before(c),
{
}

} // verus!
