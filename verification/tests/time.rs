use adam_core::time::{SimDate, TimeError};

#[test]
fn year_boundary_is_explicit_and_stable() {
    let mut date = SimDate::new(2025, 365).expect("valid date");
    date.advance_one_day().expect("year can advance");
    assert_eq!(date, SimDate::new(2026, 1).expect("valid date"));
}

#[test]
fn monthly_advance_uses_calendar_boundaries_and_clamps() {
    let mut start = SimDate::new(2025, 1).expect("date");
    start.advance_one_month().expect("month");
    assert_eq!(start, SimDate::new(2025, 32).expect("date"));
    assert_eq!(start.month(), 2);
    assert_eq!(start.day_of_month(), 1);

    let mut january_end = SimDate::new(2025, 31).expect("date");
    january_end.advance_one_month().expect("month");
    assert_eq!(january_end, SimDate::new(2025, 59).expect("date"));
    assert_eq!(january_end.day_of_month(), 28);
}

#[test]
fn twelve_months_cross_exactly_one_year() {
    let mut date = SimDate::new(2025, 1).expect("date");
    for _ in 0..12 {
        date.advance_one_month().expect("month");
    }
    assert_eq!(date, SimDate::new(2026, 1).expect("date"));
}

#[test]
fn rejects_invalid_days() {
    assert_eq!(SimDate::new(2025, 0), Err(TimeError::InvalidDayOfYear(0)));
    assert_eq!(
        SimDate::new(2025, 366),
        Err(TimeError::InvalidDayOfYear(366))
    );
}

#[test]
fn december_wraps_into_january_and_year_overflow_is_refused() {
    let mut date = SimDate::new(2025, 365).expect("date");
    assert_eq!(date.month(), 12);
    assert_eq!(date.day_of_month(), 31);
    date.advance_one_month().expect("month");
    assert_eq!(date, SimDate::new(2026, 31).expect("date"));
    let mut last = SimDate::new(i32::MAX, 365).expect("date");
    assert_eq!(last.advance_one_day(), Err(TimeError::YearOverflow));
    let mut years = SimDate::new(2025, 10).expect("date");
    years.advance_years(3).expect("years");
    assert_eq!(years, SimDate::new(2028, 10).expect("date"));
}
