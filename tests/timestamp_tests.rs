use unix_timestamp::TimeStamp;

fn ts(year: i64, month: i64, day: i64, hour: i64, minute: i64, second: i64) -> TimeStamp {
    TimeStamp { year, month, day, hour, minute, second }
}

fn is_leap(year: i64) -> bool {
    year % 4 == 0 && (year % 100 != 0 || year % 400 == 0)
}

fn month_length(year: i64, month: i64) -> i64 {
    match month {
        2 => {
            if is_leap(year) {
                29
            } else {
                28
            }
        }
        4 | 6 | 9 | 11 => 30,
        _ => 31,
    }
}

/// Days from 1970-01-01 to the given date, by the era-based day-number formula.
fn days_from_civil(year: i64, month: i64, day: i64) -> i64 {
    let y = if month <= 2 { year - 1 } else { year };
    let era = y.div_euclid(400);
    let yoe = y - era * 400;
    let mp = (month + 9) % 12;
    let doy = (153 * mp + 2) / 5 + day - 1;
    let doe = yoe * 365 + yoe / 4 - yoe / 100 + doy;
    era * 146097 + doe - 719468
}

fn assert_valid(t: &TimeStamp) {
    assert!((1..=12).contains(&t.month), "{:?}", t);
    assert!(t.day >= 1 && t.day <= month_length(t.year, t.month), "{:?}", t);
    assert!((0..=23).contains(&t.hour), "{:?}", t);
    assert!((0..=59).contains(&t.minute), "{:?}", t);
    assert!((0..=59).contains(&t.second), "{:?}", t);
}

fn seconds_of(t: &TimeStamp) -> i128 {
    days_from_civil(t.year, t.month, t.day) as i128 * 86400
        + (t.hour * 3600 + t.minute * 60 + t.second) as i128
}

#[test]
fn test_to_timestamp_1600_03_01() {
    assert_eq!(ts(1600, 3, 1, 0, 0, 0), TimeStamp::to_timestamp(-11670912000));
}

#[test]
fn test_to_timestamp_1900_03_01() {
    assert_eq!(ts(1900, 3, 1, 0, 0, 0), TimeStamp::to_timestamp(-2203891200));
}

#[test]
fn test_to_timestamp_1904_03_01() {
    assert_eq!(ts(1904, 3, 1, 0, 0, 0), TimeStamp::to_timestamp(-2077660800));
}

#[test]
fn test_to_timestamp_2001_02_28() {
    assert_eq!(ts(2001, 2, 28, 0, 0, 0), TimeStamp::to_timestamp(983318400));
}

#[test]
fn test_to_timestamp_2001_03_01() {
    assert_eq!(ts(2001, 3, 1, 0, 0, 0), TimeStamp::to_timestamp(983404800));
}

#[test]
fn test_to_timestamp_2004_03_01() {
    assert_eq!(ts(2004, 3, 1, 0, 0, 0), TimeStamp::to_timestamp(1078099200));
}

#[test]
fn test_to_timestamp_2100_03_01() {
    assert_eq!(ts(2100, 3, 1, 0, 0, 0), TimeStamp::to_timestamp(4107542400));
}

#[test]
fn test_to_timestamp_2400_01_01() {
    assert_eq!(ts(2400, 1, 1, 0, 0, 0), TimeStamp::to_timestamp(13569465600));
}

#[test]
fn test_to_timestamp_2400_01_31() {
    assert_eq!(ts(2400, 1, 31, 0, 0, 0), TimeStamp::to_timestamp(13572057600));
}

#[test]
fn test_to_timestamp_2400_02_29() {
    assert_eq!(ts(2400, 2, 29, 0, 0, 0), TimeStamp::to_timestamp(13574563200));
}

#[test]
fn test_to_timestamp_2400_03_01() {
    assert_eq!(ts(2400, 3, 1, 0, 0, 0), TimeStamp::to_timestamp(13574649600));
}

#[test]
fn epoch_is_1970_01_01() {
    assert_eq!(ts(1970, 1, 1, 0, 0, 0), TimeStamp::to_timestamp(0));
}

#[test]
fn leap_february_rolls_over_to_march() {
    assert_eq!(ts(2024, 2, 29, 23, 59, 59), TimeStamp::to_timestamp(1709251199));
    assert_eq!(ts(2024, 3, 1, 0, 0, 0), TimeStamp::to_timestamp(1709251200));
}

#[test]
fn ordinary_february_rolls_over_to_march() {
    assert_eq!(ts(2023, 2, 28, 23, 59, 59), TimeStamp::to_timestamp(1677628799));
    assert_eq!(ts(2023, 3, 1, 0, 0, 0), TimeStamp::to_timestamp(1677628800));
}

#[test]
fn year_1900_has_no_february_29() {
    assert_eq!(ts(1900, 2, 28, 0, 0, 0), TimeStamp::to_timestamp(-2203891200 - 86400));
    assert_eq!(ts(1900, 2, 28, 23, 59, 59), TimeStamp::to_timestamp(-2203891200 - 1));
}

#[test]
fn year_2100_has_no_february_29() {
    assert_eq!(ts(2100, 2, 28, 0, 0, 0), TimeStamp::to_timestamp(4107542400 - 86400));
    assert_eq!(ts(2100, 2, 28, 23, 59, 59), TimeStamp::to_timestamp(4107542400 - 1));
}

#[test]
fn year_2000_has_february_29() {
    assert_eq!(ts(2000, 2, 29, 0, 0, 0), TimeStamp::to_timestamp(951782400));
    assert_eq!(ts(2000, 3, 1, 0, 0, 0), TimeStamp::to_timestamp(951868800));
}

#[test]
fn year_2400_has_february_29() {
    assert_eq!(ts(2400, 2, 29, 23, 59, 59), TimeStamp::to_timestamp(13574649600 - 1));
}

#[test]
fn second_before_epoch_is_1969_12_31() {
    assert_eq!(ts(1969, 12, 31, 23, 59, 59), TimeStamp::to_timestamp(-1));
}

#[test]
fn negative_whole_days_floor_correctly() {
    assert_eq!(ts(1969, 12, 31, 0, 0, 0), TimeStamp::to_timestamp(-86400));
    assert_eq!(ts(1969, 12, 30, 23, 59, 59), TimeStamp::to_timestamp(-86401));
}

#[test]
fn time_of_day_is_split_into_hours_minutes_seconds() {
    assert_eq!(ts(2001, 9, 9, 1, 46, 40), TimeStamp::to_timestamp(1_000_000_000));
    assert_eq!(ts(1973, 11, 29, 21, 33, 9), TimeStamp::to_timestamp(123_456_789));
}

#[test]
fn end_of_year_and_start_of_next() {
    assert_eq!(ts(1999, 12, 31, 23, 59, 59), TimeStamp::to_timestamp(946684799));
    assert_eq!(ts(2000, 1, 1, 0, 0, 0), TimeStamp::to_timestamp(946684800));
}

#[test]
fn extreme_inputs_give_valid_timestamps() {
    assert_eq!(ts(292277026596, 12, 4, 15, 30, 7), TimeStamp::to_timestamp(i64::MAX));
    assert_eq!(ts(-292277022657, 1, 27, 8, 29, 52), TimeStamp::to_timestamp(i64::MIN));
    for s in [i64::MIN, i64::MIN + 1, i64::MAX - 1, i64::MAX] {
        let t = TimeStamp::to_timestamp(s);
        assert_valid(&t);
        assert_eq!(seconds_of(&t), s as i128);
    }
}

#[test]
fn fields_stay_in_range_and_round_trip_over_centuries() {
    // About six centuries on each side of the epoch, by a linear congruential walk.
    let span: i64 = 600 * 366 * 86400;
    let mut state: u64 = 0x9e37_79b9_7f4a_7c15;
    for _ in 0..20000 {
        state = state.wrapping_mul(6364136223846793005).wrapping_add(1442695040888963407);
        let s = ((state >> 11) % (2 * span as u64)) as i64 - span;
        let t = TimeStamp::to_timestamp(s);
        assert_valid(&t);
        assert_eq!(seconds_of(&t), s as i128, "{}", s);
    }
}

#[test]
fn every_day_boundary_round_trips_from_1600_to_2400() {
    let mut s: i64 = -11670912000 - 60 * 86400;
    while s <= 13574649600 + 366 * 86400 {
        for offset in [0, 86399] {
            let t = TimeStamp::to_timestamp(s + offset);
            assert_valid(&t);
            assert_eq!(seconds_of(&t), (s + offset) as i128);
        }
        s += 86400;
    }
}

#[test]
fn days_from_jan_counts_months() {
    assert_eq!(TimeStamp::get_days_from_jan(0, false), 0);
    assert_eq!(TimeStamp::get_days_from_jan(1, true), 31);
    assert_eq!(TimeStamp::get_days_from_jan(2, false), 59);
    assert_eq!(TimeStamp::get_days_from_jan(2, true), 60);
    assert_eq!(TimeStamp::get_days_from_jan(11, false), 334);
    assert_eq!(TimeStamp::get_days_from_jan(12, false), 365);
    assert_eq!(TimeStamp::get_days_from_jan(12, true), 366);
}
