use thunes::date::{parse_date, Date};
use thunes::error::Error;

#[test]
fn new_accepts_days_that_exist() {
    assert_eq!(Date::new(2024, 2, 29), Ok(Date { year: 2024, month: 2, day: 29 }));
    assert_eq!(Date::new(2000, 2, 29), Ok(Date { year: 2000, month: 2, day: 29 }));
    assert_eq!(Date::new(-9999, 1, 1), Ok(Date { year: -9999, month: 1, day: 1 }));
    assert_eq!(Date::new(9999, 12, 31), Ok(Date { year: 9999, month: 12, day: 31 }));
    assert_eq!(Date::new(-4, 2, 29), Ok(Date { year: -4, month: 2, day: 29 }));
}

#[test]
fn new_refuses_days_that_do_not_exist() {
    assert_eq!(Date::new(2023, 2, 29), Err(Error::InvalidInput));
    assert_eq!(Date::new(1900, 2, 29), Err(Error::InvalidInput));
    assert_eq!(Date::new(2024, 4, 31), Err(Error::InvalidInput));
    assert_eq!(Date::new(2024, 0, 1), Err(Error::InvalidInput));
    assert_eq!(Date::new(2024, 13, 1), Err(Error::InvalidInput));
    assert_eq!(Date::new(2024, 1, 0), Err(Error::InvalidInput));
    assert_eq!(Date::new(2024, 1, 32), Err(Error::InvalidInput));
    assert_eq!(Date::new(10000, 1, 1), Err(Error::InvalidInput));
    assert_eq!(Date::new(-10000, 1, 1), Err(Error::InvalidInput));
}

#[test]
fn from_parts_maps_missing_parts_to_invalid_input() {
    assert_eq!(Date::from_parts(None), Err(Error::InvalidInput));
    assert_eq!(Date::from_parts(Some((2024, 2, 30))), Err(Error::InvalidInput));
    assert_eq!(
        Date::from_parts(Some((2024, 1, 15))),
        Ok(Date { year: 2024, month: 1, day: 15 })
    );
}

#[test]
fn order_is_chronological() {
    let a = Date::new(2023, 12, 31).unwrap();
    let b = Date::new(2024, 1, 1).unwrap();
    let c = Date::new(2024, 1, 2).unwrap();
    let d = Date::new(2024, 2, 1).unwrap();
    assert!(a.is_on_or_before(&b));
    assert!(b.is_on_or_before(&c));
    assert!(c.is_on_or_before(&d));
    assert!(b.is_on_or_before(&b));
    assert!(!b.is_on_or_before(&a));
    assert!(!d.is_on_or_before(&c));
}

#[test]
fn parse_date_reads_year_month_day() {
    assert_eq!(parse_date("2024-01-15"), Ok(Date { year: 2024, month: 1, day: 15 }));
    assert_eq!(parse_date("1999-12-31"), Ok(Date { year: 1999, month: 12, day: 31 }));
    assert_eq!(parse_date("2024-02-29"), Ok(Date { year: 2024, month: 2, day: 29 }));
}

#[test]
fn parse_date_refuses_malformed_text() {
    assert_eq!(parse_date(""), Err(Error::InvalidInput));
    assert_eq!(parse_date("yesterday"), Err(Error::InvalidInput));
    assert_eq!(parse_date("2024-13-01"), Err(Error::InvalidInput));
    assert_eq!(parse_date("2023-02-29"), Err(Error::InvalidInput));
    assert_eq!(parse_date("15/01/2024"), Err(Error::InvalidInput));
    assert_eq!(parse_date("2024-01-15 and more"), Err(Error::InvalidInput));
}

#[test]
fn text_writes_year_month_day() {
    assert_eq!(Date::new(2024, 1, 15).unwrap().text(), Ok("2024-01-15".to_string()));
    assert_eq!(Date::new(1999, 12, 31).unwrap().text(), Ok("1999-12-31".to_string()));
    assert_eq!(Date::new(800, 2, 3).unwrap().text(), Ok("0800-02-03".to_string()));
    assert_eq!(Date::new(-44, 3, 15).unwrap().text(), Ok("-0044-03-15".to_string()));
}

#[test]
fn text_refuses_days_that_do_not_exist() {
    assert_eq!(Date { year: 2023, month: 2, day: 29 }.text(), Err(Error::InvalidInput));
    assert_eq!(Date { year: 2024, month: 0, day: 1 }.text(), Err(Error::InvalidInput));
    assert_eq!(Date { year: 12000, month: 1, day: 1 }.text(), Err(Error::InvalidInput));
}

#[test]
fn written_dates_are_read_back() {
    for (year, month, day) in [(2024, 2, 29), (1, 1, 1), (9999, 12, 31), (1970, 1, 1)] {
        let date = Date::new(year, month, day).unwrap();
        assert_eq!(parse_date(&date.text().unwrap()), Ok(date));
    }
}

#[test]
fn leap_days_agree_with_the_time_crate() {
    for year in -9999..=9999 {
        let ours = Date::new(year, 2, 29).is_ok();
        let theirs = time::Date::from_calendar_date(year, time::Month::February, 29).is_ok();
        assert_eq!(ours, theirs, "year {}", year);
    }
}

#[test]
fn every_day_of_some_years_agrees_with_the_time_crate() {
    for year in [-10000i32, -9999, -400, -100, -4, -1, 0, 1, 1900, 2000, 2023, 2024, 9999, 10000] {
        for month in 0..=13u8 {
            for day in 0..=32u8 {
                let ours = Date::new(year, month, day);
                let theirs = time::Month::try_from(month)
                    .ok()
                    .and_then(|m| time::Date::from_calendar_date(year, m, day).ok());
                assert_eq!(ours.is_ok(), theirs.is_some(), "{} {} {}", year, month, day);
                if let (Ok(date), Some(theirs)) = (ours, theirs) {
                    assert_eq!(date.text(), Ok(theirs.to_string()));
                    let sign = if year < 0 { "-" } else { "" };
                    let expected = format!("{}{:04}-{:02}-{:02}", sign, year.abs(), month, day);
                    assert_eq!(date.text(), Ok(expected));
                }
            }
        }
    }
}

#[test]
fn text_of_every_year_has_sign_and_four_digits() {
    for year in -9999..=9999i32 {
        let sign = if year < 0 { "-" } else { "" };
        let expected = format!("{}{:04}-12-31", sign, year.abs());
        assert_eq!(Date::new(year, 12, 31).unwrap().text(), Ok(expected));
    }
}
