use vstd::prelude::*;

use crate::dates::{weekday_of, Date, Weekday};

verus! {

/// Decides whether a date is a work day before bank holidays are considered
/// (typically, but not necessarily, every day but the weekend).
pub trait WorkDays {
    /// Whether `date` is a work day under this policy.
    spec fn spec_is_work_day(&self, date: Date) -> bool;

    /// Whether `date` is a work day under this policy.
    fn is_work_day(&self, date: Date) -> (r: bool)
        ensures
            r == self.spec_is_work_day(date),
    ;
}

/// Typical working week, Monday to Friday.
#[derive(Debug, Copy, Clone)]
pub struct MonToFriWorkDays;

impl WorkDays for MonToFriWorkDays {
    open spec fn spec_is_work_day(&self, date: Date) -> bool {
        weekday_of(date@) != Weekday::Saturday && weekday_of(date@) != Weekday::Sunday
    }

    fn is_work_day(&self, date: Date) -> (r: bool) {
        let weekday = date.weekday();
        weekday != Weekday::Saturday && weekday != Weekday::Sunday
    }
}

} // verus!
