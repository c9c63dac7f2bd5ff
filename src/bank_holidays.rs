use vstd::prelude::*;

use crate::dates::Date;

verus! {

/// Details of a bank holiday.
#[derive(Debug, PartialEq, Eq)]
pub struct BankHoliday {
    /// Date of this bank holiday.
    pub date: Date,
    /// Title of this bank holiday.
    pub title: String,
    /// Notes such as "Substitute day"; typically blank.
    pub notes: String,
    /// Whether the day is marked with bunting.
    pub bunting: bool,
}

impl Clone for BankHoliday {
    fn clone(&self) -> (r: Self)
        ensures
            r == *self,
    {
        BankHoliday {
            date: self.date,
            title: self.title.clone(),
            notes: self.notes.clone(),
            bunting: self.bunting,
        }
    }
}

impl BankHoliday {
    /// New bank holiday with blank notes and no bunting.
    pub fn new(date: Date, title: String) -> (r: BankHoliday)
        ensures
            r.date == date,
            r.title == title,
            r.notes@ == Seq::<char>::empty(),
            !r.bunting,
    {
        let notes = String::new();
        BankHoliday::new_with_notes(date, title, notes)
    }

    /// New bank holiday with notes and no bunting.
    pub fn new_with_notes(date: Date, title: String, notes: String) -> (r: BankHoliday)
        ensures
            r.date == date,
            r.title == title,
            r.notes == notes,
            !r.bunting,
    {
        BankHoliday { date, title, notes, bunting: false }
    }

}

} // verus!
