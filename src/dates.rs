use vstd::prelude::*;

use chrono::Datelike;

use crate::errors::Error;

verus! {

/// Earliest year that a date can have.
pub const MIN_YEAR: i32 = -262143;

/// Latest year that a date can have.
pub const MAX_YEAR: i32 = 262142;

/// Day number of the earliest date, January 1 of `MIN_YEAR`.
pub const FIRST_DAY: i32 = -95746129;

/// Day number of the latest date, December 31 of `MAX_YEAR`.
pub const LAST_DAY: i32 = 95745399;

/// Leap years of the proleptic Gregorian calendar.
pub open spec fn is_leap_year(year: int) -> bool {
    (year % 4 == 0 && year % 100 != 0) || year % 400 == 0
}

/// Number of days in a month (1 to 12) of a year.
pub open spec fn days_in_month(year: int, month: int) -> int {
    if month == 2 {
        if is_leap_year(year) { 29 } else { 28 }
    } else if month == 4 || month == 6 || month == 9 || month == 11 {
        30
    } else {
        31
    }
}

/// Number of days of a year that come before the first of a month (1 to 12).
pub open spec fn days_before_month(year: int, month: int) -> int
    decreases month,
{
    if month <= 1 {
        0
    } else {
        days_before_month(year, month - 1) + days_in_month(year, month - 1)
    }
}

/// Whether year, month and day name a date that can be represented.
pub open spec fn valid_ymd(year: int, month: int, day: int) -> bool {
    MIN_YEAR <= year <= MAX_YEAR && 1 <= month <= 12 && 1 <= day <= days_in_month(year, month)
}

/// Day number of a date: days since the start of the common era, January 1 of year 1 being day 1.
pub open spec fn day_number_of(year: int, month: int, day: int) -> int {
    let y = year - 1;
    days_before_month(year, month) + day + 365 * y + y / 4 - y / 100 + y / 400
}

/// A day of the week from the Gregorian calendar.
#[derive(Debug, PartialEq, Eq, Structural, Hash, PartialOrd, Ord, Copy, Clone)]
pub enum Weekday {
    Monday,
    Tuesday,
    Wednesday,
    Thursday,
    Friday,
    Saturday,
    Sunday,
}

/// The weekday that comes `k` days (0 to 6) after a Monday.
pub open spec fn weekday_at(k: int) -> Weekday {
    if k == 0 {
        Weekday::Monday
    } else if k == 1 {
        Weekday::Tuesday
    } else if k == 2 {
        Weekday::Wednesday
    } else if k == 3 {
        Weekday::Thursday
    } else if k == 4 {
        Weekday::Friday
    } else if k == 5 {
        Weekday::Saturday
    } else {
        Weekday::Sunday
    }
}

/// Weekday of a day number; day 1, January 1 of year 1, was a Monday.
pub open spec fn weekday_of(n: int) -> Weekday {
    weekday_at((n - 1) % 7)
}

/// Relies on chrono's `NaiveDate::from_ymd_opt`, which accepts exactly the
/// valid dates of its year range, and on `Datelike::num_days_from_ce`, which
/// counts days from January 1 of year 1 as day 1; every such date lies
/// between `NaiveDate::MIN` and `NaiveDate::MAX`.
#[verifier::external_body]
fn day_number_from_ymd(year: i32, month: u32, day: u32) -> (r: Option<i32>)
    ensures
        r.is_some() == valid_ymd(year as int, month as int, day as int),
        r matches Some(n) ==> n == day_number_of(year as int, month as int, day as int),
        r matches Some(n) ==> FIRST_DAY <= n <= LAST_DAY,
{
    match chrono::NaiveDate::from_ymd_opt(year, month, day) {
        Some(date) => Some(date.num_days_from_ce()),
        None => None,
    }
}

/// Relies on chrono's `NaiveDate::from_num_days_from_ce_opt`, which finds the
/// date of a day number in range, and on `Datelike`'s year, month and day.
#[verifier::external_body]
fn ymd_from_day_number(n: i32) -> (r: (i32, u32, u32))
    requires
        FIRST_DAY <= n <= LAST_DAY,
    ensures
        valid_ymd(r.0 as int, r.1 as int, r.2 as int),
        day_number_of(r.0 as int, r.1 as int, r.2 as int) == n,
{
    let date = chrono::NaiveDate::from_num_days_from_ce_opt(n).unwrap();
    (date.year(), date.month(), date.day())
}

/// Relies on chrono's `NaiveDate::from_num_days_from_ce_opt` and
/// `Datelike::weekday`: the weekday of a day number.
#[verifier::external_body]
fn weekday_from_day_number(n: i32) -> (r: Weekday)
    requires
        FIRST_DAY <= n <= LAST_DAY,
    ensures
        r == weekday_of(n as int),
{
    match chrono::NaiveDate::from_num_days_from_ce_opt(n).unwrap().weekday() {
        chrono::Weekday::Mon => Weekday::Monday,
        chrono::Weekday::Tue => Weekday::Tuesday,
        chrono::Weekday::Wed => Weekday::Wednesday,
        chrono::Weekday::Thu => Weekday::Thursday,
        chrono::Weekday::Fri => Weekday::Friday,
        chrono::Weekday::Sat => Weekday::Saturday,
        chrono::Weekday::Sun => Weekday::Sunday,
    }
}

/// Relies on chrono's `Local::now` and `DateTime::date_naive` for the current
/// date in the local time zone; any date in range may come back.
#[verifier::external_body]
fn local_day_number_today() -> (r: i32)
    ensures
        FIRST_DAY <= r <= LAST_DAY,
{
    chrono::Local::now().date_naive().num_days_from_ce()
}

/// A date without time zone information, held as its day number.
#[derive(Debug, PartialEq, Eq, Structural, Hash, PartialOrd, Ord, Copy, Clone)]
pub struct Date {
    days: i32,
}

impl View for Date {
    type V = int;

    /// The day number: January 1 of year 1 is day 1.
    closed spec fn view(&self) -> int {
        self.days as int
    }
}

impl Date {
    #[verifier::type_invariant]
    spec fn in_range(self) -> bool {
        FIRST_DAY <= self.days <= LAST_DAY
    }

    /// Today's date in the local time zone.
    pub fn today() -> (r: Date)
        ensures
            FIRST_DAY <= r@ <= LAST_DAY,
    {
        let days = local_day_number_today();
        Date { days }
    }

    /// The date with a given day number, if it is in range.
    pub fn from_day_number(n: i32) -> (r: Option<Date>)
        ensures
            r.is_some() == (FIRST_DAY <= n <= LAST_DAY),
            r matches Some(d) ==> d@ == n as int,
    {
        if FIRST_DAY <= n && n <= LAST_DAY {
            Some(Date { days: n })
        } else {
            None
        }
    }

    /// Day number of this date: January 1 of year 1 is day 1.
    pub fn day_number(&self) -> (r: i32)
        ensures
            r as int == self@,
            FIRST_DAY <= r <= LAST_DAY,
    {
        proof {
            use_type_invariant(self);
        }
        self.days
    }

    /// Create a date from year, month and day.
    pub fn try_from_components(year: i32, month: u32, day: u32) -> (r: Result<Date, Error>)
        ensures
            r.is_ok() == valid_ymd(year as int, month as int, day as int),
            r matches Ok(d) ==> d@ == day_number_of(year as int, month as int, day as int),
            r matches Err(e) ==> e == Error::InvalidDate,
    {
        match day_number_from_ymd(year, month, day) {
            Some(n) => Ok(Date { days: n }),
            None => Err(Error::InvalidDate),
        }
    }

    /// Year, month and day of this date.
    pub fn into_components(self) -> (r: (i32, u32, u32))
        ensures
            valid_ymd(r.0 as int, r.1 as int, r.2 as int),
            day_number_of(r.0 as int, r.1 as int, r.2 as int) == self@,
    {
        proof {
            use_type_invariant(&self);
        }
        ymd_from_day_number(self.days)
    }

    /// The date's year.
    pub fn year(&self) -> (r: i32)
        ensures
            exists|m: int, d: int| #[trigger] valid_ymd(r as int, m, d) && day_number_of(r as int, m, d) == self@,
    {
        let (y, m, d) = self.into_components();
        y
    }

    /// The date's month, 1 to 12.
    pub fn month(&self) -> (r: u32)
        ensures
            exists|y: int, d: int| #[trigger] valid_ymd(y, r as int, d) && day_number_of(y, r as int, d) == self@,
    {
        let (y, m, d) = self.into_components();
        m
    }

    /// The date's day of the month.
    pub fn day(&self) -> (r: u32)
        ensures
            exists|y: int, m: int| #[trigger] valid_ymd(y, m, r as int) && day_number_of(y, m, r as int) == self@,
    {
        let (y, m, d) = self.into_components();
        d
    }

    /// The date's day of the week.
    pub fn weekday(&self) -> (r: Weekday)
        ensures
            r == weekday_of(self@),
    {
        proof {
            use_type_invariant(self);
        }
        weekday_from_day_number(self.days)
    }

    /// The following date.
    pub fn next_day(&self) -> (r: Date)
        requires
            self@ < LAST_DAY,
        ensures
            r@ == self@ + 1,
            r == date_of(self@ + 1),
    {
        proof {
            use_type_invariant(self);
        }
        Date { days: self.days + 1 }
    }

    /// The preceding date.
    pub fn previous_day(&self) -> (r: Date)
        requires
            self@ > FIRST_DAY,
        ensures
            r@ == self@ - 1,
            r == date_of(self@ - 1),
    {
        proof {
            use_type_invariant(self);
        }
        Date { days: self.days - 1 }
    }
}

/// The date with a given day number; meaningful for day numbers in range.
pub closed spec fn date_of(n: int) -> Date {
    Date { days: n as i32 }
}

/// A date is determined by its day number.
pub proof fn lemma_date_of(d: Date, n: int)
    requires
        FIRST_DAY <= n <= LAST_DAY,
    ensures
        date_of(n)@ == n,
        date_of(d@) == d,
        d@ == n <==> d == date_of(n),
{
}

} // verus!
