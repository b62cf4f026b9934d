use fincapx::{Date, DateError};

#[test]
fn accepts_valid_date() {
    assert!(Date::new(2026, 9, 23).is_ok());
}

// Both ends of the range.
#[test]
fn rejects_invalid_month() {
    assert!(Date::new(2026, 0, 23).is_err());
    assert!(Date::new(2026, 13, 23).is_err());
}

// The 31st of September shows that the month's length is looked up.
#[test]
fn rejects_invalid_day() {
    assert!(Date::new(2026, 1, 0).is_err());
    assert!(Date::new(2026, 9, 31).is_err());
}

// 2000 is a century divisible by 400: a leap year.
#[test]
fn accepts_leap_day() {
    assert!(Date::new(2024, 2, 29).is_ok());
    assert!(Date::new(2000, 2, 29).is_ok());
}

// 1900 is divisible by 4 and is not a leap year.
#[test]
fn rejects_leap_day_in_common_year() {
    assert!(Date::new(1900, 2, 29).is_err());
    assert!(Date::new(2025, 2, 29).is_err());
}

#[test]
fn orders_chronologically() {
    let a = Date::new(2026, 1, 20).unwrap();
    let b = Date::new(2026, 3, 20).unwrap();
    assert!(b > a);
}

#[test]
fn formats_with_leading_zeros() {
    assert_eq!(Date::new(2026, 1, 7).unwrap().to_string(), "2026-01-07");
}

#[test]
fn getters_give_back_the_parts() {
    let d = Date::new(2026, 9, 23).unwrap();
    assert_eq!(d.year(), 2026);
    assert_eq!(d.month(), 9);
    assert_eq!(d.day(), 23);
}

#[test]
fn month_error_names_the_month() {
    assert_eq!(Date::new(2026, 13, 1), Err(DateError::InvalidMonth(13)));
    assert_eq!(Date::new(2026, 0, 1), Err(DateError::InvalidMonth(0)));
}

#[test]
fn day_error_names_the_date() {
    assert_eq!(
        Date::new(2026, 9, 31),
        Err(DateError::InvalidDay { year: 2026, month: 9, day: 31 })
    );
    assert_eq!(
        Date::new(1900, 2, 29),
        Err(DateError::InvalidDay { year: 1900, month: 2, day: 29 })
    );
}

#[test]
fn month_lengths_follow_the_calendar() {
    assert!(Date::new(2026, 4, 30).is_ok());
    assert!(Date::new(2026, 4, 31).is_err());
    assert!(Date::new(2026, 12, 31).is_ok());
    assert!(Date::new(2026, 2, 28).is_ok());
    assert!(Date::new(2100, 2, 29).is_err());
    assert!(Date::new(2400, 2, 29).is_ok());
    assert!(Date::new(-4, 2, 29).is_ok());
}

#[test]
fn date_error_messages() {
    assert_eq!(DateError::InvalidMonth(13).to_string(), "mes fuera de rango: 13");
    assert_eq!(
        DateError::InvalidDay { year: 2026, month: 9, day: 31 }.to_string(),
        "el dia 31 no existe en el mes 9 de 2026"
    );
    assert_eq!(
        DateError::InvalidDay { year: -5, month: 2, day: 30 }.to_string(),
        "el dia 30 no existe en el mes 2 de -5"
    );
}

#[test]
fn formats_years_outside_four_digits_in_expanded_form() {
    assert_eq!(Date::new(5, 12, 31).unwrap().to_string(), "0005-12-31");
    assert_eq!(Date::new(0, 1, 1).unwrap().to_string(), "0000-01-01");
    assert_eq!(Date::new(9999, 12, 31).unwrap().to_string(), "9999-12-31");
    assert_eq!(Date::new(-1, 1, 1).unwrap().to_string(), "-0001-01-01");
    assert_eq!(Date::new(-5, 3, 1).unwrap().to_string(), "-0005-03-01");
    assert_eq!(Date::new(-12345, 3, 1).unwrap().to_string(), "-12345-03-01");
    assert_eq!(Date::new(-32768, 1, 1).unwrap().to_string(), "-32768-01-01");
    assert_eq!(Date::new(10000, 1, 1).unwrap().to_string(), "+10000-01-01");
    assert_eq!(Date::new(32767, 10, 10).unwrap().to_string(), "+32767-10-10");
}

#[test]
fn order_goes_by_year_then_month_then_day() {
    let a = Date::new(2025, 12, 31).unwrap();
    let b = Date::new(2026, 1, 1).unwrap();
    let c = Date::new(2026, 1, 2).unwrap();
    assert!(a < b);
    assert!(b < c);
    assert!(a < c);
    assert!(c > a);
    assert!(b <= b);
    assert_eq!(b.partial_cmp(&b), Some(std::cmp::Ordering::Equal));
    assert_eq!(a.cmp(&b), std::cmp::Ordering::Less);
    // Text order agrees with date order for four-digit years.
    assert!(a.to_string() < b.to_string());
    assert!(Date::new(2026, 2, 1).unwrap().to_string() < Date::new(2026, 10, 1).unwrap().to_string());
}
