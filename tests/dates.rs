use std::str::FromStr;

use chrono::Datelike;
use govuk_bank_holidays::{
    Date, Division, Error, MonToFriWorkDays, Reqwest, Weekday, WorkDays, FIRST_DAY, LAST_DAY, SOURCE_URL,
};

#[test]
fn dates() {
    let expected = Date::try_from_components(2023, 2, 3).expect("Date could not be created");
    let naive = chrono::NaiveDate::from_str("2023-02-03").expect("Date could not be parsed");
    let parsed = Date::from_day_number(naive.num_days_from_ce()).expect("Date could not be parsed");
    assert_eq!(parsed, expected);

    let end_of_january = parsed.previous_day().previous_day().previous_day();
    assert_eq!(end_of_january.year(), 2023);
    assert_eq!(end_of_january.month(), 1);
    assert_eq!(end_of_january.day(), 31);
    assert_eq!(end_of_january.weekday(), Weekday::Tuesday);
    assert_eq!(end_of_january.into_components(), (2023, 1, 31));
}

#[test]
fn mon_to_fri() {
    let mut date = Date::try_from_components(2024, 1, 1).expect("date should be valid");
    let weekdays_january_2024 = std::iter::from_fn(move || {
        let is_weekday = WorkDays::is_work_day(&MonToFriWorkDays, date);
        date = date.next_day();
        Some(is_weekday)
    })
    .take(31);
    let expected = [true, true, true, true, true, false, false].iter().copied().cycle().take(31);
    assert!(weekdays_january_2024.eq(expected));
}

#[test]
fn invalid_dates_are_rejected() {
    assert_eq!(Date::try_from_components(2023, 2, 29), Err(Error::InvalidDate));
    assert_eq!(Date::try_from_components(2023, 13, 1), Err(Error::InvalidDate));
    assert_eq!(Date::try_from_components(2023, 4, 31), Err(Error::InvalidDate));
    assert_eq!(Date::try_from_components(2023, 1, 0), Err(Error::InvalidDate));
    assert_eq!(Date::try_from_components(300000, 1, 1), Err(Error::InvalidDate));
    assert!(Date::try_from_components(2024, 2, 29).is_ok());
    assert!(Date::try_from_components(-4, 2, 29).is_ok());
}

#[test]
fn day_numbers_count_from_the_common_era() {
    assert_eq!(Date::try_from_components(1, 1, 1).unwrap().day_number(), 1);
    assert_eq!(Date::try_from_components(1970, 1, 1).unwrap().day_number(), 719_163);
    assert_eq!(Date::try_from_components(0, 1, 1).unwrap().day_number(), -365);
    assert_eq!(Date::try_from_components(-262143, 1, 1).unwrap().day_number(), FIRST_DAY);
    assert_eq!(Date::try_from_components(262142, 12, 31).unwrap().day_number(), LAST_DAY);
    assert!(Date::from_day_number(FIRST_DAY - 1).is_none());
    assert!(Date::from_day_number(LAST_DAY + 1).is_none());
    assert_eq!(Date::from_day_number(1).unwrap().into_components(), (1, 1, 1));
}

#[test]
fn steps_cross_month_and_year() {
    let date = Date::try_from_components(2020, 2, 28).unwrap();
    assert_eq!(date.next_day().into_components(), (2020, 2, 29));
    assert_eq!(date.next_day().next_day().into_components(), (2020, 3, 1));
    let date = Date::try_from_components(2021, 1, 1).unwrap();
    assert_eq!(date.previous_day().into_components(), (2020, 12, 31));
    assert!(date.previous_day() < date);
}

#[test]
fn weekdays_of_known_dates() {
    assert_eq!(Date::try_from_components(1, 1, 1).unwrap().weekday(), Weekday::Monday);
    assert_eq!(Date::try_from_components(2024, 2, 3).unwrap().weekday(), Weekday::Saturday);
    assert_eq!(Date::try_from_components(2024, 2, 4).unwrap().weekday(), Weekday::Sunday);
    assert!(!MonToFriWorkDays.is_work_day(Date::try_from_components(2024, 2, 4).unwrap()));
    assert!(MonToFriWorkDays.is_work_day(Date::try_from_components(2024, 2, 5).unwrap()));
}

#[test]
fn today_is_in_range() {
    let today = Date::today();
    let n = today.day_number();
    assert!(FIRST_DAY <= n && n <= LAST_DAY);
    assert!(today.year() > 2000);
}

#[test]
fn divisions_in_canonical_order() {
    assert_eq!(Division::all(), [Division::EnglandAndWales, Division::Scotland, Division::NorthernIreland]);
    assert_eq!(Division::EnglandAndWales.name(), "England and Wales");
    assert_eq!(Division::Scotland.name(), "Scotland");
    assert_eq!(Division::NorthernIreland.name(), "Northern Ireland");
}

#[test]
fn error_messages() {
    assert_eq!(Error::InvalidDate.message(), "Invalid date");
    assert_eq!(Error::Parsing("bad".to_owned()).message(), "Parsing error");
    assert_eq!(Error::Request("down".to_owned()).message(), "Request error");
    assert_eq!(Error::Generic("custom failure").message(), "custom failure");
}

#[test]
fn request_source_urls() {
    assert_eq!(Reqwest::default().url(), SOURCE_URL);
    assert_eq!(Reqwest::new("http://localhost/holidays.json").url(), "http://localhost/holidays.json");
}
