use govuk_bank_holidays::{
    BankHoliday, BankHolidayCalendar, DataSource, Date, Division, MonToFriWorkDays,
};

const ALL: &str = "ESN";
const EW_NI: &str = "EN";
const SCOT: &str = "S";
const NI: &str = "N";

// (year, month, day, title, notes, divisions: E = England and Wales, S = Scotland, N = Northern Ireland)
const KNOWN: &[(i32, u32, u32, &str, &str, &str)] = &[
    (2012, 1, 2, "New Year’s Day", "Substitute day", ALL),
    (2012, 1, 3, "2nd January", "Substitute day", SCOT),
    (2015, 12, 25, "Christmas Day", "", ALL),
    (2015, 12, 28, "Boxing Day", "Substitute day", ALL),
    (2016, 1, 1, "New Year’s Day", "", ALL),
    (2016, 1, 4, "2nd January", "Substitute day", SCOT),
    (2016, 3, 17, "St Patrick’s Day", "", NI),
    (2016, 3, 25, "Good Friday", "", ALL),
    (2016, 3, 28, "Easter Monday", "", EW_NI),
    (2016, 5, 2, "Early May bank holiday", "", ALL),
    (2016, 5, 30, "Spring bank holiday", "", ALL),
    (2016, 7, 12, "Battle of the Boyne (Orangemen’s Day)", "", NI),
    (2016, 8, 1, "Summer bank holiday", "", SCOT),
    (2016, 8, 29, "Summer bank holiday", "", EW_NI),
    (2016, 11, 30, "St Andrew’s Day", "", SCOT),
    (2016, 12, 26, "Boxing Day", "", ALL),
    (2016, 12, 27, "Christmas Day", "Substitute day", ALL),
    (2017, 1, 2, "New Year’s Day", "Substitute day", ALL),
    (2017, 1, 3, "2nd January", "", SCOT),
    (2017, 3, 17, "St Patrick’s Day", "", NI),
    (2017, 4, 14, "Good Friday", "", ALL),
    (2017, 4, 17, "Easter Monday", "", EW_NI),
    (2017, 5, 1, "Early May bank holiday", "", ALL),
    (2017, 5, 29, "Spring bank holiday", "", ALL),
    (2017, 7, 12, "Battle of the Boyne (Orangemen’s Day)", "", NI),
    (2017, 8, 7, "Summer bank holiday", "", SCOT),
    (2017, 8, 28, "Summer bank holiday", "", EW_NI),
    (2017, 11, 30, "St Andrew’s Day", "", SCOT),
    (2017, 12, 25, "Christmas Day", "", ALL),
    (2017, 12, 26, "Boxing Day", "", ALL),
    (2018, 1, 1, "New Year’s Day", "", ALL),
    (2018, 1, 2, "2nd January", "", SCOT),
    (2018, 3, 19, "St Patrick’s Day", "Substitute day", NI),
    (2018, 3, 30, "Good Friday", "", ALL),
    (2018, 4, 2, "Easter Monday", "", EW_NI),
    (2018, 5, 7, "Early May bank holiday", "", ALL),
    (2018, 5, 28, "Spring bank holiday", "", ALL),
    (2018, 7, 12, "Battle of the Boyne (Orangemen’s Day)", "", NI),
    (2018, 8, 6, "Summer bank holiday", "", SCOT),
    (2018, 8, 27, "Summer bank holiday", "", EW_NI),
    (2018, 11, 30, "St Andrew’s Day", "", SCOT),
    (2018, 12, 25, "Christmas Day", "", ALL),
    (2018, 12, 26, "Boxing Day", "", ALL),
    (2019, 1, 1, "New Year’s Day", "", ALL),
    (2019, 1, 2, "2nd January", "", SCOT),
    (2019, 3, 18, "St Patrick’s Day", "Substitute day", NI),
    (2019, 4, 19, "Good Friday", "", ALL),
    (2019, 4, 22, "Easter Monday", "", EW_NI),
    (2019, 5, 6, "Early May bank holiday", "", ALL),
    (2019, 5, 27, "Spring bank holiday", "", ALL),
    (2019, 7, 12, "Battle of the Boyne (Orangemen’s Day)", "", NI),
    (2019, 8, 5, "Summer bank holiday", "", SCOT),
    (2019, 8, 26, "Summer bank holiday", "", EW_NI),
    (2019, 12, 2, "St Andrew’s Day", "Substitute day", SCOT),
    (2019, 12, 25, "Christmas Day", "", ALL),
    (2019, 12, 26, "Boxing Day", "", ALL),
    (2020, 1, 1, "New Year’s Day", "", ALL),
    (2020, 1, 2, "2nd January", "", SCOT),
    (2020, 3, 17, "St Patrick’s Day", "", NI),
    (2020, 4, 10, "Good Friday", "", ALL),
    (2020, 4, 13, "Easter Monday", "", EW_NI),
    (2020, 5, 8, "Early May bank holiday (VE day)", "", ALL),
    (2020, 5, 25, "Spring bank holiday", "", ALL),
    (2020, 7, 13, "Battle of the Boyne (Orangemen’s Day)", "Substitute day", NI),
    (2020, 8, 3, "Summer bank holiday", "", SCOT),
    (2020, 8, 31, "Summer bank holiday", "", EW_NI),
    (2020, 11, 30, "St Andrew’s Day", "", SCOT),
    (2020, 12, 25, "Christmas Day", "", ALL),
    (2020, 12, 28, "Boxing Day", "Substitute day", ALL),
    (2021, 1, 1, "New Year’s Day", "", ALL),
    (2021, 1, 4, "2nd January", "Substitute day", SCOT),
    (2021, 3, 17, "St Patrick’s Day", "", NI),
    (2021, 4, 2, "Good Friday", "", ALL),
    (2021, 4, 5, "Easter Monday", "", EW_NI),
    (2021, 5, 3, "Early May bank holiday", "", ALL),
    (2021, 5, 31, "Spring bank holiday", "", ALL),
    (2021, 7, 12, "Battle of the Boyne (Orangemen’s Day)", "", NI),
    (2021, 8, 2, "Summer bank holiday", "", SCOT),
    (2021, 8, 30, "Summer bank holiday", "", EW_NI),
    (2021, 11, 30, "St Andrew’s Day", "", SCOT),
    (2021, 12, 27, "Christmas Day", "Substitute day", ALL),
    (2021, 12, 28, "Boxing Day", "Substitute day", ALL),
    (2022, 1, 3, "New Year’s Day", "Substitute day", ALL),
    (2022, 1, 4, "2nd January", "Substitute day", SCOT),
    (2022, 3, 17, "St Patrick’s Day", "", NI),
    (2022, 4, 15, "Good Friday", "", ALL),
    (2022, 4, 18, "Easter Monday", "", EW_NI),
    (2022, 5, 2, "Early May bank holiday", "", ALL),
    (2022, 6, 2, "Spring bank holiday", "", ALL),
    (2022, 6, 3, "Platinum Jubilee bank holiday", "", ALL),
    (2022, 7, 12, "Battle of the Boyne (Orangemen’s Day)", "", NI),
    (2022, 8, 1, "Summer bank holiday", "", SCOT),
    (2022, 8, 29, "Summer bank holiday", "", EW_NI),
    (2022, 9, 19, "Bank Holiday for the State Funeral of Queen Elizabeth II", "", ALL),
    (2022, 11, 30, "St Andrew’s Day", "", SCOT),
    (2022, 12, 26, "Boxing Day", "", ALL),
    (2022, 12, 27, "Christmas Day", "Substitute day", ALL),
];

fn known_data_source() -> DataSource {
    let mut entries = Vec::new();
    for (division, letter) in [
        (Division::EnglandAndWales, 'E'),
        (Division::Scotland, 'S'),
        (Division::NorthernIreland, 'N'),
    ] {
        let holidays: Vec<BankHoliday> = KNOWN
            .iter()
            .filter(|(_, _, _, _, _, divisions)| divisions.contains(letter))
            .map(|&(year, month, day, title, notes, _)| {
                BankHoliday::new_with_notes(
                    Date::try_from_components(year, month, day).unwrap(),
                    title.to_owned(),
                    notes.to_owned(),
                )
            })
            .collect();
        entries.push((division, holidays));
    }
    DataSource::new(entries)
}

fn known_calendar() -> BankHolidayCalendar<MonToFriWorkDays> {
    BankHolidayCalendar::from_data_source(known_data_source())
}

fn ymd(year: i32, month: u32, day: u32) -> Date {
    Date::try_from_components(year, month, day).unwrap()
}

fn in_2018_to_2022(bank_holiday: &BankHoliday) -> bool {
    bank_holiday.date.year() >= 2018 && bank_holiday.date.year() <= 2022
}

#[test]
fn cached() {
    let calendar = known_calendar();
    let date = ymd(2023, 1, 10);
    assert!(calendar.is_work_day(date, None));
    assert!(!calendar.is_holiday(date, None));

    let date = ymd(2022, 1, 1);
    let mut holidays = calendar.iter_holidays_after(date, Some(Division::EnglandAndWales));
    while let Some(bank_holiday) = holidays.next() {
        assert!(bank_holiday.date > date);
    }

    let date = ymd(2022, 1, 7);
    let mut work_days = calendar.iter_work_days_before(date, Some(Division::EnglandAndWales));
    for _ in 0..10 {
        let work_day = work_days.next().unwrap();
        assert!(work_day < date);
        assert!(calendar.is_work_day(work_day, Some(Division::EnglandAndWales)));
    }
}

#[test]
fn next_holiday() {
    let calendar = known_calendar();
    let date = ymd(2016, 1, 2);

    let mut holidays = calendar.iter_holidays_after(date, None);
    assert_eq!(holidays.next().map(|h| h.date.into_components()), Some((2016, 3, 25)));
    assert_eq!(holidays.next().map(|h| h.date.into_components()), Some((2016, 5, 2)));
    assert_eq!(holidays.next().map(|h| h.date.into_components()), Some((2016, 5, 30)));

    let mut holidays = calendar.iter_holidays_after(date, Some(Division::Scotland));
    assert_eq!(holidays.next().map(|h| h.date.into_components()), Some((2016, 1, 4)));
    assert_eq!(holidays.next().map(|h| h.date.into_components()), Some((2016, 3, 25)));
    assert_eq!(holidays.next().map(|h| h.date.into_components()), Some((2016, 5, 2)));
}

#[test]
fn previous_holiday() {
    let calendar = known_calendar();
    let date = ymd(2016, 1, 5);

    let mut holidays = calendar.iter_holidays_before(date, None);
    assert_eq!(holidays.next().map(|h| h.date.into_components()), Some((2016, 1, 1)));
    assert_eq!(holidays.next().map(|h| h.date.into_components()), Some((2015, 12, 28)));
    assert_eq!(holidays.next().map(|h| h.date.into_components()), Some((2015, 12, 25)));

    let mut holidays = calendar.iter_holidays_before(date, Some(Division::Scotland));
    assert_eq!(holidays.next().map(|h| h.date.into_components()), Some((2016, 1, 4)));
    assert_eq!(holidays.next().map(|h| h.date.into_components()), Some((2016, 1, 1)));
    assert_eq!(holidays.next().map(|h| h.date.into_components()), Some((2015, 12, 28)));
}

#[test]
fn holiday_check() {
    let calendar = known_calendar();
    let is_holiday = calendar.is_holiday(ymd(2012, 1, 2), None);
    assert!(is_holiday);
    let is_holiday = calendar.is_holiday(ymd(2016, 1, 4), None);
    assert!(!is_holiday);
    let is_holiday = calendar.is_holiday(ymd(2016, 1, 4), Some(Division::Scotland));
    assert!(is_holiday);
}

#[test]
fn next_work_day() {
    let calendar = known_calendar();

    let mut work_days = calendar.iter_work_days_after(ymd(2017, 12, 19), None);
    assert_eq!(work_days.next().map(Date::into_components), Some((2017, 12, 20)));
    assert_eq!(work_days.next().map(Date::into_components), Some((2017, 12, 21)));
    assert_eq!(work_days.next().map(Date::into_components), Some((2017, 12, 22)));
    assert_eq!(work_days.next().map(Date::into_components), Some((2017, 12, 27)));
    assert_eq!(work_days.next().map(Date::into_components), Some((2017, 12, 28)));
    assert_eq!(work_days.next().map(Date::into_components), Some((2017, 12, 29)));
    assert_eq!(work_days.next().map(Date::into_components), Some((2018, 1, 2)));
    assert_eq!(work_days.next().map(Date::into_components), Some((2018, 1, 3)));

    let mut work_days =
        calendar.iter_work_days_after(ymd(2017, 12, 19), Some(Division::Scotland));
    assert_eq!(work_days.next().map(Date::into_components), Some((2017, 12, 20)));
    assert_eq!(work_days.next().map(Date::into_components), Some((2017, 12, 21)));
    assert_eq!(work_days.next().map(Date::into_components), Some((2017, 12, 22)));
    assert_eq!(work_days.next().map(Date::into_components), Some((2017, 12, 27)));
    assert_eq!(work_days.next().map(Date::into_components), Some((2017, 12, 28)));
    assert_eq!(work_days.next().map(Date::into_components), Some((2017, 12, 29)));
    assert_eq!(work_days.next().map(Date::into_components), Some((2018, 1, 3)));
}

#[test]
fn previous_work_day() {
    let calendar = known_calendar();

    let mut work_days = calendar.iter_work_days_before(ymd(2018, 1, 3), None);
    assert_eq!(work_days.next().map(Date::into_components), Some((2018, 1, 2)));
    assert_eq!(work_days.next().map(Date::into_components), Some((2017, 12, 29)));
    assert_eq!(work_days.next().map(Date::into_components), Some((2017, 12, 28)));
    assert_eq!(work_days.next().map(Date::into_components), Some((2017, 12, 27)));
    assert_eq!(work_days.next().map(Date::into_components), Some((2017, 12, 22)));
    assert_eq!(work_days.next().map(Date::into_components), Some((2017, 12, 21)));
    assert_eq!(work_days.next().map(Date::into_components), Some((2017, 12, 20)));
    assert_eq!(work_days.next().map(Date::into_components), Some((2017, 12, 19)));

    let mut work_days =
        calendar.iter_work_days_before(ymd(2018, 1, 3), Some(Division::Scotland));
    assert_eq!(work_days.next().map(Date::into_components), Some((2017, 12, 29)));
    assert_eq!(work_days.next().map(Date::into_components), Some((2017, 12, 28)));
    assert_eq!(work_days.next().map(Date::into_components), Some((2017, 12, 27)));
    assert_eq!(work_days.next().map(Date::into_components), Some((2017, 12, 22)));
    assert_eq!(work_days.next().map(Date::into_components), Some((2017, 12, 21)));
    assert_eq!(work_days.next().map(Date::into_components), Some((2017, 12, 20)));
    assert_eq!(work_days.next().map(Date::into_components), Some((2017, 12, 19)));
}

#[test]
fn number_of_bank_holidays() {
    let calendar = known_calendar();
    let expectation = [
        (None, 32),
        (Some(Division::EnglandAndWales), 42),
        (Some(Division::Scotland), 47),
        (Some(Division::NorthernIreland), 52),
    ];
    for (division, expected_count) in expectation {
        let holiday_count = calendar
            .holidays(division)
            .into_iter()
            .filter(|holiday| in_2018_to_2022(holiday))
            .count();
        assert_eq!(holiday_count, expected_count, "Unexpected number of bank holidays in {:?}", division);

        let end_of_2017 = ymd(2017, 12, 31);
        let mut holidays = calendar.iter_holidays_after(end_of_2017, division);
        let mut holiday_count = 0;
        while let Some(holiday) = holidays.next() {
            if in_2018_to_2022(holiday) {
                holiday_count += 1;
            }
        }
        assert_eq!(holiday_count, expected_count, "Unexpected number of bank holidays in {:?}", division);

        let start_of_2023 = ymd(2023, 1, 1);
        let mut holidays = calendar.iter_holidays_before(start_of_2023, division);
        let mut holiday_count = 0;
        while let Some(holiday) = holidays.next() {
            if in_2018_to_2022(holiday) {
                holiday_count += 1;
            }
        }
        assert_eq!(holiday_count, expected_count, "Unexpected number of bank holidays in {:?}", division);
    }
}

#[test]
fn bank_holidays_in_divisions() {
    let calendar = known_calendar();
    let expectation = [
        (None, "Christmas Day", true),
        (Some(Division::EnglandAndWales), "Christmas Day", true),
        (Some(Division::Scotland), "Christmas Day", true),
        (Some(Division::NorthernIreland), "Christmas Day", true),
        (None, "St Patrick’s Day", false),
        (Some(Division::EnglandAndWales), "St Patrick’s Day", false),
        (Some(Division::NorthernIreland), "St Patrick’s Day", true),
        (None, "St Andrew’s Day", false),
        (Some(Division::EnglandAndWales), "St Andrew’s Day", false),
        (Some(Division::Scotland), "St Andrew’s Day", true),
    ];
    for (division, title, expect_exists) in expectation {
        let bank_holiday_found = calendar
            .holidays(division)
            .iter()
            .filter(|holiday| in_2018_to_2022(holiday))
            .any(|holiday| holiday.title.as_str() == title);
        assert_eq!(bank_holiday_found, expect_exists, "Expect “{title}” to exist in {:?}: {expect_exists}", division);
    }
}

#[test]
fn holiday_in_one_division_only() {
    let calendar = known_calendar();
    let date = ymd(2016, 1, 4);
    assert!(calendar.is_holiday(date, Some(Division::Scotland)));
    assert!(!calendar.is_holiday(date, Some(Division::EnglandAndWales)));
    assert!(!calendar.is_holiday(date, None));
    assert!(calendar.is_work_day(date, None));
    assert!(!calendar.is_work_day(date, Some(Division::Scotland)));
}

#[test]
fn non_holiday_weekday_is_work_day() {
    let calendar = known_calendar();
    let date = ymd(2016, 1, 6);
    assert!(!calendar.is_holiday(date, None));
    assert!(calendar.is_work_day(date, None));
    // a Saturday is never a work day under the default policy
    assert!(!calendar.is_work_day(ymd(2016, 1, 9), None));
}

#[test]
fn common_holidays_take_default_wording() {
    let calendar = known_calendar();
    let holidays = calendar.holidays(None);
    let christmas_2021 = holidays.iter().find(|h| h.date == ymd(2021, 12, 27)).unwrap();
    assert_eq!(christmas_2021.title, "Christmas Day");
    assert_eq!(christmas_2021.notes, "Substitute day");
    assert!(holidays.iter().all(|h| calendar.is_holiday(h.date, None)));
}

#[test]
fn holiday_iterators_report_length() {
    let calendar = known_calendar();
    let mut holidays = calendar.iter_holidays_after(ymd(2022, 12, 1), Some(Division::Scotland));
    assert_eq!(holidays.len(), 2);
    assert_eq!(holidays.next().map(|h| h.date.into_components()), Some((2022, 12, 26)));
    assert_eq!(holidays.len(), 1);
    assert_eq!(holidays.next().map(|h| h.date.into_components()), Some((2022, 12, 27)));
    assert!(holidays.next().is_none());
    assert_eq!(holidays.len(), 0);

    let holidays = calendar.iter_holidays_before(ymd(2012, 1, 2), None);
    assert_eq!(holidays.len(), 0);
}

#[test]
fn last_common_holidays_then_nothing() {
    let calendar = known_calendar();
    let mut holidays = calendar.iter_holidays_after(ymd(2022, 9, 18), None);
    assert_eq!(holidays.len(), 3);
    assert_eq!(holidays.next().map(|h| h.date.into_components()), Some((2022, 9, 19)));
    assert_eq!(holidays.next().map(|h| h.date.into_components()), Some((2022, 12, 26)));
    assert_eq!(holidays.next().map(|h| h.date.into_components()), Some((2022, 12, 27)));
    assert!(holidays.next().is_none());
    assert!(holidays.next().is_none());
}

#[test]
fn holiday_traversals_go_nearest_first() {
    let calendar = known_calendar();
    let cutoff = ymd(2019, 6, 1);
    for division in [None, Some(Division::EnglandAndWales), Some(Division::Scotland), Some(Division::NorthernIreland)] {
        let mut after = calendar.iter_holidays_after(cutoff, division);
        let mut last = cutoff;
        while let Some(holiday) = after.next() {
            assert!(holiday.date > last);
            last = holiday.date;
        }
        let mut before = calendar.iter_holidays_before(cutoff, division);
        let mut last = cutoff;
        while let Some(holiday) = before.next() {
            assert!(holiday.date < last);
            last = holiday.date;
        }
    }
}

#[test]
fn work_days_strictly_monotonic() {
    let calendar = known_calendar();
    let mut work_days = calendar.iter_work_days_after(ymd(2022, 5, 30), None);
    let mut last = ymd(2022, 5, 30);
    for _ in 0..40 {
        let day = work_days.next().unwrap();
        assert!(day > last);
        assert!(calendar.is_work_day(day, None));
        last = day;
    }
    let mut work_days = calendar.iter_work_days_before(ymd(2022, 6, 10), Some(Division::Scotland));
    let mut last = ymd(2022, 6, 10);
    for _ in 0..40 {
        let day = work_days.next().unwrap();
        assert!(day < last);
        assert!(calendar.is_work_day(day, Some(Division::Scotland)));
        last = day;
    }
}

#[test]
fn empty_calendar_has_no_common_dates() {
    let calendar = BankHolidayCalendar::from_data_source(DataSource::empty());
    let date = ymd(2016, 1, 1);
    assert!(!calendar.is_holiday(date, None));
    assert!(!calendar.is_holiday(date, Some(Division::Scotland)));
    assert!(calendar.holidays(None).is_empty());
    assert!(calendar.holidays(Some(Division::EnglandAndWales)).is_empty());
    assert!(calendar.is_work_day(date, None));
}

#[test]
fn default_wording_falls_back_to_first_present_division() {
    let date = ymd(2020, 11, 30);
    let scottish = vec![BankHoliday::new(date, "St Andrew’s Day".to_owned())];
    let irish = vec![BankHoliday::new(date, "Other title".to_owned())];
    let calendar = BankHolidayCalendar::from_data_source(DataSource::new(vec![
        (Division::NorthernIreland, irish),
        (Division::Scotland, scottish),
    ]));
    let holidays = calendar.holidays(None);
    assert_eq!(holidays.len(), 1);
    assert_eq!(holidays[0].title, "St Andrew’s Day");
    assert!(calendar.is_holiday(date, None));
}

#[test]
fn work_days_end_with_the_range_of_dates() {
    let first = Date::from_day_number(govuk_bank_holidays::FIRST_DAY + 3).unwrap();
    let date = first;
    let calendar = BankHolidayCalendar::from_data_source(DataSource::empty());
    let mut work_days = calendar.iter_work_days_before(date, None);
    let mut count = 0;
    while let Some(day) = work_days.next() {
        assert!(day < date);
        count += 1;
    }
    assert!(count <= 3);
}
