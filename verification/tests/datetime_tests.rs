use array_recipes::dates::{
    add_days, date_difference_days, date_range, filter_business_days, Date, MAX_DAY_NUMBER,
    MAX_YEAR, MIN_DAY_NUMBER, MIN_YEAR,
};

fn ymd(y: i32, m: u32, d: u32) -> Date {
    Date::from_ymd(y, m, d).unwrap()
}

#[test]
fn test_date_range_generation() {
    let start = ymd(2026, 1, 1);
    let dates = date_range(start, 3);

    assert_eq!(dates.len(), 3);
    assert_eq!(dates[0], ymd(2026, 1, 1));
    assert_eq!(dates[1], ymd(2026, 1, 2));
    assert_eq!(dates[2], ymd(2026, 1, 3));
}

#[test]
fn test_date_arithmetic() {
    let start = ymd(2026, 5, 10);
    let dates = date_range(start, 2);
    let shifted = add_days(&dates, 5);

    assert_eq!(shifted[0], ymd(2026, 5, 15));
    assert_eq!(shifted[1], ymd(2026, 5, 16));

    let diffs = date_difference_days(&dates, &shifted);
    assert_eq!(diffs, vec![5, 5]);
}

#[test]
fn test_business_days_filter() {
    // 2026-08-01 is Saturday, 2026-08-02 is Sunday, 2026-08-03 is Monday
    let start = ymd(2026, 8, 1);
    let dates = date_range(start, 3);
    let values = vec![10.0, 20.0, 30.0];

    let (b_dates, b_values) = filter_business_days(&dates, &values);

    assert_eq!(b_dates.len(), 1);
    assert_eq!(b_values.len(), 1);
    assert_eq!(b_dates[0], ymd(2026, 8, 3));
    assert_eq!(b_values[0], 30.0);
}

#[test]
fn from_ymd_rejects_missing_days() {
    assert!(Date::from_ymd(2015, 3, 14).is_some());
    assert!(Date::from_ymd(2015, 0, 14).is_none());
    assert!(Date::from_ymd(2015, 13, 1).is_none());
    assert!(Date::from_ymd(2015, 4, 31).is_none());
    assert!(Date::from_ymd(2015, 2, 29).is_none());
    assert!(Date::from_ymd(2016, 2, 29).is_some());
    assert!(Date::from_ymd(1900, 2, 29).is_none());
    assert!(Date::from_ymd(2000, 2, 29).is_some());
    assert!(Date::from_ymd(-4, 2, 29).is_some());
    assert!(Date::from_ymd(2015, 1, 0).is_none());
    assert!(Date::from_ymd(MAX_YEAR + 1, 1, 1).is_none());
    assert!(Date::from_ymd(MIN_YEAR - 1, 12, 31).is_none());
}

#[test]
fn day_numbers_of_known_dates() {
    assert_eq!(ymd(1, 1, 1).num_days_from_ce(), 1);
    assert_eq!(ymd(0, 12, 31).num_days_from_ce(), 0);
    assert_eq!(ymd(0, 1, 1).num_days_from_ce(), -365);
    assert_eq!(ymd(1999, 9, 3).num_days_from_ce(), 730_000);
    assert_eq!(ymd(2026, 8, 1).num_days_from_ce(), 739_829);
    assert_eq!(ymd(MIN_YEAR, 1, 1).num_days_from_ce(), MIN_DAY_NUMBER);
    assert_eq!(ymd(MAX_YEAR, 12, 31).num_days_from_ce(), MAX_DAY_NUMBER);
}

#[test]
fn ymd_round_trip() {
    for &(y, m, d) in &[(2026, 8, 1), (2024, 2, 29), (-100, 3, 1), (1, 1, 1), (MAX_YEAR, 12, 31)] {
        assert_eq!(ymd(y, m, d).ymd(), (y, m, d));
    }
}

#[test]
fn weekday_matches_day_number_formula() {
    // 2026-08-01 is a Saturday (6), 1999-09-03 a Friday (5), 0001-01-01 a Monday (1)
    assert_eq!(ymd(2026, 8, 1).weekday_from_monday(), 6);
    assert_eq!(ymd(1999, 9, 3).weekday_from_monday(), 5);
    assert_eq!(ymd(1, 1, 1).weekday_from_monday(), 1);
    let start = ymd(-3, 11, 20);
    for d in date_range(start, 400) {
        let n = d.num_days_from_ce() as i64;
        assert_eq!(d.weekday_from_monday() as i64, (n - 1).rem_euclid(7) + 1);
    }
    let low = ymd(MIN_YEAR, 1, 1);
    assert_eq!(low.weekday_from_monday() as i64, (MIN_DAY_NUMBER as i64 - 1).rem_euclid(7) + 1);
}

#[test]
fn shifting_back_and_forth() {
    let dates = vec![ymd(2024, 2, 28), ymd(2023, 12, 31), ymd(-1, 1, 1)];
    let later = add_days(&dates, 400);
    assert_eq!(later[0], ymd(2025, 4, 3));
    let back = add_days(&later, -400);
    assert_eq!(back, dates);
    assert_eq!(date_difference_days(&later, &dates), vec![-400, -400, -400]);
    assert_eq!(add_days(&add_days(&dates, 3), 4), add_days(&dates, 7));
    let edge = vec![ymd(MAX_YEAR, 12, 30)];
    assert_eq!(add_days(&edge, 1)[0], ymd(MAX_YEAR, 12, 31));
}

#[test]
fn difference_uses_common_prefix() {
    let a = date_range(ymd(2020, 1, 1), 3);
    let b = vec![ymd(2021, 1, 1)];
    assert_eq!(date_difference_days(&a, &b), vec![366]);
    assert_eq!(date_range(ymd(2020, 1, 1), 0), vec![]);
}

#[test]
fn full_week_keeps_five_business_days() {
    let week = date_range(ymd(2026, 8, 5), 7);
    let values: Vec<u8> = (0..7).collect();
    let (days, vals) = filter_business_days(&week, &values);
    assert_eq!(days.len(), 5);
    assert_eq!(vals, vec![0, 1, 2, 5, 6]);
    // the values array decides the length when it is shorter
    let (days, vals) = filter_business_days(&week, &values[..4].to_vec());
    assert_eq!(days, vec![ymd(2026, 8, 5), ymd(2026, 8, 6), ymd(2026, 8, 7)]);
    assert_eq!(vals, vec![0, 1, 2]);
}
