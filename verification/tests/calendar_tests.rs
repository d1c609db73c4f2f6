use era_days::calendar::{num_days_from_ce_alt, Date};

fn day_number(year: i32, ordinal: u32) -> i32 {
    num_days_from_ce_alt(&Date { year, ordinal })
}

#[test]
fn era_anchor_is_day_one() {
    assert_eq!(day_number(1, 1), 1);
}

#[test]
fn first_days_of_early_years() {
    // year 1 is not a leap year; year 4 is the first leap year
    assert_eq!(day_number(2, 1), 366);
    assert_eq!(day_number(5, 1), 1462);
    // year 100 is dropped again by the hundred-year rule
    assert_eq!(day_number(101, 1), 36525);
    // year 400 is restored by the four-hundred-year rule
    assert_eq!(day_number(401, 1), 146098);
}

#[test]
fn modern_regression_anchors() {
    assert_eq!(day_number(2000, 1), 730120);
    assert_eq!(day_number(2019, 1), 737060);
}

#[test]
fn consecutive_days_within_a_year() {
    assert_eq!(day_number(2020, 60) - day_number(2020, 59), 1);
    assert_eq!(day_number(3, 200) - day_number(3, 199), 1);
}

#[test]
fn consecutive_days_across_a_year_boundary() {
    assert_eq!(day_number(2020, 1) - day_number(2019, 365), 1);
    assert_eq!(day_number(2021, 1) - day_number(2020, 366), 1);
}

#[test]
fn year_lengths_follow_the_leap_rule() {
    // 2020 is divisible by 4, 1900 is dropped by the hundred-year rule,
    // 2000 is restored by the four-hundred-year rule
    assert_eq!(day_number(2020, 366) - day_number(2020, 1) + 1, 366);
    assert_eq!(day_number(1900, 365) - day_number(1900, 1) + 1, 365);
    assert_eq!(day_number(2000, 366) - day_number(2000, 1) + 1, 366);
    assert_eq!(day_number(2023, 365) - day_number(2023, 1) + 1, 365);
}

#[test]
fn dates_before_the_era() {
    // year 0 is a leap year; its last day is day 0, the eve of the era
    assert_eq!(day_number(0, 366), 0);
    assert_eq!(day_number(0, 1), -365);
    assert_eq!(day_number(-1, 1), -730);
}

#[test]
fn test_datetime_to_string() {
    // The calendar date behind an awkward datetime: -2979-07-06, that is
    // ordinal 187 of the common year -2979. Its day number has to stay
    // stable far before the era.
    assert_eq!(day_number(-2979, 187), -1088236);
}

#[test]
fn extreme_years_still_compute() {
    let far_future = day_number(5_000_000, 366);
    let far_past = day_number(-5_000_000, 1);
    assert!(far_future > 1_825_000_000);
    assert!(far_past < -1_825_000_000);
}
