//! Calendar of UK bank holidays: which dates are holidays or work days in each
//! part of the UK, and traversal over holidays and work days from any date.
//!
//! Holidays differ between the three divisions of the UK. Queries that take an
//! `Option<Division>` consider one division for `Some`, and only the dates
//! common to all divisions present for `None`.

mod bank_holidays;
mod calendar;
pub mod data_source;
mod dates;
mod divisions;
mod errors;
mod source;
mod work_days;

pub use bank_holidays::BankHoliday;
pub use calendar::{BankHolidayCalendar, HolidayIter, WorkDayIter};
pub use data_source::DataSource;
pub use dates::{Date, Weekday, FIRST_DAY, LAST_DAY};
pub use divisions::Division;
pub use errors::Error;
pub use source::{Reqwest, SOURCE_URL};
pub use work_days::{MonToFriWorkDays, WorkDays};
