use chrono::{Datelike, Days, NaiveDate, NaiveDateTime, NaiveTime, Timelike};
use shigotolog::calendar::{
    day_number, is_civil_date, is_leap, month_length, next_day, previous_day,
};
use shigotolog::datetime::{TaskTime, TimeDisplay, WorkingDate, MAX_YEAR, MIN_YEAR};

fn sample_years() -> Vec<i32> {
    let mut years = vec![
        -262_143, -262_142, -100_000, -10_000, -9_999, -401, -400, -399, -100, -5, -4, -1, 0, 1,
        4, 99, 100, 400, 999, 1000, 1582, 1600, 1700, 1899, 1900, 1970, 1999, 2000, 2001, 2020,
        2021, 2023, 2024, 2100, 9_999, 10_000, 99_999, 100_000, 262_141, 262_142,
    ];
    years.sort();
    years
}

fn working_date_by_chrono(value: NaiveDateTime) -> NaiveDate {
    let date = value.date();
    if value >= date.and_hms_opt(5, 0, 0).unwrap() {
        date
    } else {
        date.pred_opt().unwrap()
    }
}

#[test]
fn leap_years_and_month_lengths_agree_with_chrono() {
    for year in sample_years() {
        assert_eq!(is_leap(year), NaiveDate::from_ymd_opt(year, 2, 29).is_some());
        for month in 1..=12u32 {
            let last = month_length(year, month);
            assert!(NaiveDate::from_ymd_opt(year, month, last).is_some());
            assert!(NaiveDate::from_ymd_opt(year, month, last + 1).is_none());
        }
        assert_eq!(month_length(year, 0), 0);
        assert_eq!(month_length(year, 13), 0);
    }
    assert!(is_leap(2000));
    assert!(!is_leap(1900));
    assert!(is_leap(2024));
    assert!(!is_leap(2023));
    assert_eq!(month_length(2024, 2), 29);
    assert_eq!(month_length(2023, 2), 28);
}

#[test]
fn civil_dates_are_those_of_chrono() {
    for year in [-4, 0, 1900, 2000, 2021, 2024] {
        for month in 0..=13u32 {
            for day in 0..=32u32 {
                assert_eq!(
                    is_civil_date(year, month, day),
                    NaiveDate::from_ymd_opt(year, month, day).is_some()
                );
            }
        }
    }
}

#[test]
fn day_numbers_agree_with_chrono() {
    assert_eq!(day_number(1, 1, 1), 1);
    assert_eq!(day_number(0, 12, 31), 0);
    assert_eq!(day_number(1970, 1, 1), 719_163);
    assert_eq!(day_number(2021, 1, 1), 737_791);
    for year in sample_years() {
        for month in 1..=12u32 {
            for day in [1, 15, month_length(year, month)] {
                let date = NaiveDate::from_ymd_opt(year, month, day).unwrap();
                assert_eq!(day_number(year, month, day), i64::from(date.num_days_from_ce()));
            }
        }
    }
}

#[test]
fn every_day_of_forty_years_follows_the_one_before() {
    let mut date = NaiveDate::from_ymd_opt(1995, 1, 1).unwrap();
    let end = NaiveDate::from_ymd_opt(2035, 1, 1).unwrap();
    while date < end {
        let next = date.succ_opt().unwrap();
        let (y, m, d) = (date.year(), date.month(), date.day());
        assert_eq!(next_day(y, m, d), (next.year(), next.month(), next.day()));
        assert_eq!(previous_day(next.year(), next.month(), next.day()), (y, m, d));
        assert_eq!(
            day_number(next.year(), next.month(), next.day()),
            day_number(y, m, d) + 1
        );
        date = next;
    }
}

#[test]
fn next_and_previous_day_cross_months_and_years() {
    assert_eq!(next_day(2021, 12, 31), (2022, 1, 1));
    assert_eq!(previous_day(2022, 1, 1), (2021, 12, 31));
    assert_eq!(next_day(2024, 2, 28), (2024, 2, 29));
    assert_eq!(next_day(2024, 2, 29), (2024, 3, 1));
    assert_eq!(next_day(2023, 2, 28), (2023, 3, 1));
    assert_eq!(previous_day(2024, 3, 1), (2024, 2, 29));
    assert_eq!(previous_day(2023, 3, 1), (2023, 2, 28));
    assert_eq!(next_day(-1, 12, 31), (0, 1, 1));
    assert_eq!(previous_day(0, 1, 1), (-1, 12, 31));
}

#[test]
fn texts_agree_with_chrono() {
    for year in sample_years() {
        for (month, day, hour, minute) in [(1, 1, 0, 0), (2, 28, 4, 59), (7, 9, 5, 0), (12, 31, 23, 59)]
        {
            let value = NaiveDate::from_ymd_opt(year, month, day)
                .unwrap()
                .and_hms_opt(hour, minute, 0)
                .unwrap();
            let time = TaskTime::from_ymd_hm_opt(year, month, day, hour, minute).unwrap();
            assert_eq!(
                time.to_full_string(),
                value.format("%Y-%m-%dT%H:%M:%S").to_string()
            );
            assert_eq!(time.to_string_hm(), value.format("%H:%M").to_string());
            let date = WorkingDate::from_ymd_opt(year, month, day).unwrap();
            assert_eq!(
                date.to_string(),
                value.date().format("%Y-%m-%d").to_string()
            );
        }
    }
    let time = TaskTime::from_ymd_hm_opt(-5, 3, 4, 1, 2).unwrap();
    assert_eq!(time.to_full_string(), "-0005-03-04T01:02:00");
    let time = TaskTime::from_ymd_hm_opt(12345, 3, 4, 1, 2).unwrap();
    assert_eq!(time.to_full_string(), "+12345-03-04T01:02:00");
    let time = TaskTime::from_ymd_hm_opt(-12345, 3, 4, 1, 2).unwrap();
    assert_eq!(time.to_full_string(), "-12345-03-04T01:02:00");
    let time = TaskTime::from_ymd_hm_opt(7, 3, 4, 1, 2).unwrap();
    assert_eq!(time.to_full_string(), "0007-03-04T01:02:00");
}

#[test]
fn timestamps_come_back_from_their_text() {
    for year in sample_years() {
        for (month, day, hour, minute) in [(1, 1, 0, 0), (2, 28, 4, 59), (7, 9, 5, 0), (12, 31, 23, 59)]
        {
            let time = TaskTime::from_ymd_hm_opt(year, month, day, hour, minute).unwrap();
            assert_eq!(TaskTime::parse(&time.to_full_string()), Ok(time));
        }
    }
    let first = TaskTime::from_ymd_hm_opt(MIN_YEAR, 1, 1, 5, 0).unwrap();
    assert_eq!(TaskTime::parse(&first.to_full_string()), Ok(first));
    let last = TaskTime::from_ymd_hm_opt(MAX_YEAR + 1, 1, 1, 4, 59).unwrap();
    assert_eq!(last.to_full_string(), "+262144-01-01T04:59:00");
    assert_eq!(TaskTime::parse(&last.to_full_string()), Ok(last));
}

#[test]
fn working_dates_come_back_from_their_text() {
    for year in [0, 1, 999, 2021, 2024, 9999] {
        for (month, day) in [(1, 1), (2, 28), (10, 31), (12, 31)] {
            let date = WorkingDate::from_ymd_opt(year, month, day).unwrap();
            assert_eq!(WorkingDate::parse(&date.to_string()), Ok(date));
            assert_eq!(WorkingDate::parse_in(&date.to_string(), 1234), Ok(date));
        }
    }
}

#[test]
fn differences_agree_with_chrono() {
    let stamps = [
        (2015, 9, 18, 23, 56),
        (2015, 9, 19, 1, 10),
        (2000, 2, 29, 12, 0),
        (1999, 12, 31, 23, 59),
        (2024, 3, 1, 0, 0),
        (-44, 3, 15, 11, 11),
        (262_142, 12, 31, 23, 59),
        (-262_143, 1, 1, 0, 0),
    ];
    for a in stamps {
        for b in stamps {
            let x = TaskTime::from_ymd_hm_opt(a.0, a.1, a.2, a.3, a.4).unwrap();
            let y = TaskTime::from_ymd_hm_opt(b.0, b.1, b.2, b.3, b.4).unwrap();
            let cx = NaiveDate::from_ymd_opt(a.0, a.1, a.2).unwrap().and_hms_opt(a.3, a.4, 0).unwrap();
            let cy = NaiveDate::from_ymd_opt(b.0, b.1, b.2).unwrap().and_hms_opt(b.3, b.4, 0).unwrap();
            let expected = i128::from(
                (i64::from(cx.date().num_days_from_ce()) - i64::from(cy.date().num_days_from_ce()))
                    * 1440
                    + (i64::from(cx.hour()) - i64::from(cy.hour())) * 60
                    + i64::from(cx.minute())
                    - i64::from(cy.minute()),
            );
            assert_eq!(x.since(&y).num_minutes(), expected);
            assert_eq!(x.is_before(&y), cx < cy);
            assert_eq!(x < y, cx < cy);
            assert_eq!(x == y, cx == cy);
            if (cx - cy).num_minutes().abs() < 1_000_000 {
                assert_eq!(x.since(&y).num_minutes(), i128::from((cx - cy).num_minutes()));
            }
        }
    }
}

#[test]
fn working_dates_agree_with_the_cutoff_by_chrono() {
    let mut date = NaiveDate::from_ymd_opt(2023, 12, 28).unwrap();
    let end = NaiveDate::from_ymd_opt(2024, 3, 3).unwrap();
    while date < end {
        for (hour, minute) in [(0, 0), (4, 59), (5, 0), (12, 30), (23, 59)] {
            let value = date.and_hms_opt(hour, minute, 0).unwrap();
            let expected = working_date_by_chrono(value);
            let time =
                TaskTime::from_ymd_hm_opt(date.year(), date.month(), date.day(), hour, minute)
                    .unwrap();
            let working = WorkingDate::from(time);
            assert_eq!(
                (working.year(), working.month(), working.day()),
                (expected.year(), expected.month(), expected.day())
            );
            assert_eq!(WorkingDate::of(&time), working);
            assert_eq!(working.and_hm_opt(hour, minute), Some(time));

            let on = WorkingDate::from_ymd_opt(date.year(), date.month(), date.day()).unwrap();
            let instant = on.and_hm_opt(hour, minute).unwrap();
            let by_chrono = NaiveTime::from_hms_opt(hour, minute, 0).unwrap();
            let day = if by_chrono < NaiveTime::from_hms_opt(5, 0, 0).unwrap() {
                date.checked_add_days(Days::new(1)).unwrap()
            } else {
                date
            };
            assert_eq!(
                (instant.year(), instant.month(), instant.day(), instant.hour(), instant.minute()),
                (day.year(), day.month(), day.day(), hour, minute)
            );
            assert_eq!(WorkingDate::from(instant), on);
        }
        date = date.succ_opt().unwrap();
    }
}

#[test]
fn and_hm_opt_is_undone_by_the_working_date() {
    let date = WorkingDate::from_ymd_opt(2021, 1, 1).unwrap();
    let next = WorkingDate::from_ymd_opt(2021, 1, 2).unwrap();
    let early = date.and_hm_opt(4, 59).unwrap();
    assert_eq!((early.year(), early.month(), early.day()), (next.year(), next.month(), next.day()));
    assert_eq!(WorkingDate::from(early), date);
    let start = date.and_hm_opt(5, 0).unwrap();
    assert_eq!((start.year(), start.month(), start.day()), (2021, 1, 1));
    assert_eq!(WorkingDate::from(start), date);
    assert_eq!(date.and_hm_opt(24, 0), None);
    assert_eq!(date.and_hm_opt(0, 60), None);
    assert_eq!(date.and_hm_opt(23, 59).map(|t| t.hour()), Some(23));
}

#[test]
fn the_range_of_working_dates_has_an_instant_for_every_time() {
    let first = WorkingDate::from_ymd_opt(MIN_YEAR, 1, 1).unwrap();
    let last = WorkingDate::from_ymd_opt(MAX_YEAR, 12, 31).unwrap();
    assert_eq!(WorkingDate::from_ymd_opt(MIN_YEAR - 1, 12, 31), None);
    assert_eq!(WorkingDate::from_ymd_opt(MAX_YEAR + 1, 1, 1), None);
    for (hour, minute) in [(0, 0), (4, 59), (5, 0), (23, 59)] {
        assert_eq!(WorkingDate::from(first.and_hm_opt(hour, minute).unwrap()), first);
        assert_eq!(WorkingDate::from(last.and_hm_opt(hour, minute).unwrap()), last);
    }
    assert_eq!(TaskTime::from_ymd_hm_opt(MIN_YEAR, 1, 1, 4, 59), None);
    assert!(TaskTime::from_ymd_hm_opt(MIN_YEAR, 1, 1, 5, 0).is_some());
    assert!(TaskTime::from_ymd_hm_opt(MAX_YEAR + 1, 1, 1, 4, 59).is_some());
    assert_eq!(TaskTime::from_ymd_hm_opt(MAX_YEAR + 1, 1, 1, 5, 0), None);
    assert_eq!(TaskTime::from_ymd_hm_opt(2021, 2, 29, 5, 0), None);
    assert_eq!(TaskTime::from_ymd_hm_opt(2021, 2, 28, 24, 0), None);
    assert_eq!(TaskTime::from_ymd_hm_opt(2021, 2, 28, 0, 60), None);
    assert!(first.is_before(&last));
    assert!(!last.is_before(&first));
    assert!(!first.is_before(&first));
    assert!(first < last);
}

#[test]
fn the_clock_is_the_clock_of_chrono() {
    let before = chrono::Local::now().naive_local();
    let now = TaskTime::now();
    let after = chrono::Local::now().naive_local();
    let value = NaiveDate::from_ymd_opt(now.year(), now.month(), now.day())
        .unwrap()
        .and_hms_opt(now.hour(), now.minute(), 0)
        .unwrap();
    assert!(value <= after);
    assert!(value + chrono::TimeDelta::minutes(1) > before);
    let today = WorkingDate::today();
    let expected = working_date_by_chrono(value);
    let other = working_date_by_chrono(after);
    let got = NaiveDate::from_ymd_opt(today.year(), today.month(), today.day()).unwrap();
    assert!(got == expected || got == other);
}

#[test]
fn parse_hm_is_of_todays_calendar_date() {
    let before = chrono::Local::now().naive_local().date();
    let time = TaskTime::parse_hm("04:30").unwrap();
    let after = chrono::Local::now().naive_local().date();
    assert_eq!((time.hour(), time.minute()), (4, 30));
    let date = NaiveDate::from_ymd_opt(time.year(), time.month(), time.day()).unwrap();
    assert!(date == before || date == after);
    assert!(TaskTime::parse_hm("2400").is_err());

    let reference = TaskTime::parse("2021-03-04T23:00:00").unwrap();
    assert_eq!(
        TaskTime::parse_hm_at("430", &reference),
        Ok(TaskTime::parse("2021-03-04T04:30:00").unwrap())
    );
    assert_eq!(
        TaskTime::parse_hm_at("4:3", &reference).unwrap_err().input,
        "4:3"
    );
}
