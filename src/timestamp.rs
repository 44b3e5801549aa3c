//! Calendar timestamps and their computation from seconds since the epoch.
use vstd::prelude::*;
use vstd::arithmetic::div_mod::lemma_fundamental_div_mod;

use crate::calendar::{
    days_before_year, days_from_epoch, days_through_month, is_leap_year,
    lemma_days_from_epoch_injective, lemma_days_of_year, lemma_leap_in_cycle, lemma_march_first,
    lemma_year_step, month_length,
};

verus! {

/// The first year of the 400-year cycle that the computation counts from.
const BASE_YEAR: i64 = 2000;

/// Days from 1970-01-01 to 2000-03-01, the first day of that cycle.
const DAYS_FROM_UNIX_TIME_TO_BASE_MARCH: i64 = 11017;

const DAYS_PER_400Y: i64 = 146097;

const DAYS_PER_100Y: i64 = 36524;

const DAYS_PER_4Y: i64 = 1461;

const DAYS_PER_Y: i64 = 365;

/// Days from March 1 to January 1 of the next year.
const DAYS_FROM_MARCH_TO_JAN: i64 = 306;

/// Days in January and in a February of an ordinary year.
const DAYS_OF_JAN_AND_FEB: i64 = 59;

const SECONDS_PER_DAY: i64 = 86400;

const SECONDS_PER_HOUR: i64 = 3600;

const SECONDS_PER_MINUTE: i64 = 60;

/// A date of the proleptic Gregorian calendar with a time of day, in UTC.
#[derive(Debug, Clone, Copy, PartialEq, Eq, Structural)]
pub struct TimeStamp {
    pub year: i64,
    pub month: i64,
    pub day: i64,
    pub hour: i64,
    pub minute: i64,
    pub second: i64,
}

impl TimeStamp {
    /// Each field lies in its range: the month in `1 ..= 12`, the day within
    /// the length of that month in that year, the hour in `0 ..= 23`, the
    /// minute and the second in `0 ..= 59`.
    pub open spec fn is_valid(self) -> bool {
        &&& 1 <= self.month <= 12
        &&& 1 <= self.day <= month_length(self.month as int, is_leap_year(self.year as int))
        &&& 0 <= self.hour < 24
        &&& 0 <= self.minute < 60
        &&& 0 <= self.second < 60
    }

    /// The number of seconds from 1970-01-01T00:00:00 to this timestamp
    /// (negative before it).
    pub open spec fn seconds_from_epoch(self) -> int {
        days_from_epoch(self.year as int, self.month as int, self.day as int) * 86400
            + self.hour * 3600 + self.minute * 60 + self.second
    }

    /// The timestamp that lies `total_seconds_from_unix_time` seconds after
    /// 1970-01-01T00:00:00 (before it, where negative).
    pub fn to_timestamp(total_seconds_from_unix_time: i64) -> (r: TimeStamp)
        ensures
            r.is_valid(),
            r.seconds_from_epoch() == total_seconds_from_unix_time,
    {
        let (total_days_from_unix_time, remained_seconds) = floor_divide(
            total_seconds_from_unix_time,
            SECONDS_PER_DAY,
        );
        let (current_year, day_of_year, is_this_year_a_leap_year) = year_and_day_of_year(
            total_days_from_unix_time,
        );
        let (current_month, current_day) = month_and_day(day_of_year, is_this_year_a_leap_year);

        let current_hour = remained_seconds / SECONDS_PER_HOUR;
        let remained_seconds = remained_seconds % SECONDS_PER_HOUR;
        let current_minute = remained_seconds / SECONDS_PER_MINUTE;
        let current_second = remained_seconds % SECONDS_PER_MINUTE;

        TimeStamp {
            year: current_year,
            month: current_month,
            day: current_day,
            hour: current_hour,
            minute: current_minute,
            second: current_second,
        }
    }

    /// Two valid timestamps at the same number of seconds from the epoch are
    /// equal: the seconds determine the date and the time of day.
    pub proof fn lemma_seconds_determine_timestamp(a: TimeStamp, b: TimeStamp)
        requires
            a.is_valid(),
            b.is_valid(),
            a.seconds_from_epoch() == b.seconds_from_epoch(),
        ensures
            a == b,
    {
        let days_a = days_from_epoch(a.year as int, a.month as int, a.day as int);
        let days_b = days_from_epoch(b.year as int, b.month as int, b.day as int);
        assert(days_a == days_b);
        lemma_days_from_epoch_injective(
            a.year as int,
            a.month as int,
            a.day as int,
            b.year as int,
            b.month as int,
            b.day as int,
        );
    }

    /// In a leap year the second after February 29, 23:59:59 is March 1,
    /// 00:00:00 of the same year: February has a 29th day and no 30th.
    pub proof fn lemma_leap_february_rolls_over(year: i64, next: TimeStamp)
        requires
            is_leap_year(year as int),
            next.is_valid(),
            next.seconds_from_epoch() == (TimeStamp {
                year,
                month: 2,
                day: 29,
                hour: 23,
                minute: 59,
                second: 59,
            }).seconds_from_epoch() + 1,
        ensures
            (TimeStamp { year, month: 2, day: 29, hour: 23, minute: 59, second: 59 }).is_valid(),
            !(TimeStamp { year, month: 2, day: 30, hour: 0, minute: 0, second: 0 }).is_valid(),
            next == (TimeStamp { year, month: 3, day: 1, hour: 0, minute: 0, second: 0 }),
    {
        let march = TimeStamp { year, month: 3, day: 1, hour: 0, minute: 0, second: 0 };
        reveal_with_fuel(days_through_month, 3);
        assert(march.seconds_from_epoch() == next.seconds_from_epoch());
        TimeStamp::lemma_seconds_determine_timestamp(march, next);
    }

    /// The number of days in the first `month` months of a year (`0 ..= 12`),
    /// which is a leap year exactly when `is_leap_year` holds.
    pub fn get_days_from_jan(month: i64, is_leap_year: bool) -> (days: i64)
        requires
            0 <= month <= 12,
        ensures
            days == days_through_month(month as int, is_leap_year),
    {
        proof {
            reveal_with_fuel(days_through_month, 13);
        }
        let before_leap_day: i64 = match month {
            0 => 0,
            1 => 31,
            2 => 59,
            3 => 90,
            4 => 120,
            5 => 151,
            6 => 181,
            7 => 212,
            8 => 243,
            9 => 273,
            10 => 304,
            11 => 334,
            _ => 365,
        };
        if month >= 2 && is_leap_year {
            before_leap_day + 1
        } else {
            before_leap_day
        }
    }
}

/// The calendar year in which the day `total_days` days after 1970-01-01
/// falls, the day's number within that year (0 for January 1), and whether
/// the year is a leap year.
fn year_and_day_of_year(total_days: i64) -> (r: (i64, i64, bool))
    requires
        i64::MIN / 86400 <= total_days <= i64::MAX / 86400,
    ensures
        days_before_year(r.0 as int) + r.1 == total_days,
        0 <= r.1 < 365 + (if r.2 { 1int } else { 0int }),
        r.2 == is_leap_year(r.0 as int),
{
    // Days since 2000-03-01, split into the Gregorian cycles.
    let days = total_days - DAYS_FROM_UNIX_TIME_TO_BASE_MARCH;
    let (quad_century_cycles, remained_days) = floor_divide(days, DAYS_PER_400Y);
    let (century_cycles, remained_days) = divide_with_clamp(remained_days, DAYS_PER_100Y, 3);
    let (quad_cycles, remained_days) = divide_with_clamp(remained_days, DAYS_PER_4Y, 24);
    let (remained_years, remained_days) = divide_with_clamp(remained_days, DAYS_PER_Y, 3);

    // The year that began on the last March 1, and the day within it.
    let march_year = BASE_YEAR + remained_years + 4 * quad_cycles + 100 * century_cycles + 400
        * quad_century_cycles;
    proof {
        lemma_march_first(
            quad_century_cycles as int,
            century_cycles as int,
            quad_cycles as int,
            remained_years as int,
        );
        lemma_leap_in_cycle(
            quad_century_cycles as int,
            century_cycles as int,
            quad_cycles as int,
            remained_years as int,
        );
        lemma_year_step(march_year as int);
    }

    // January and February belong to the next calendar year.
    if remained_days < DAYS_FROM_MARCH_TO_JAN {
        let leap = remained_years == 0 && (quad_cycles != 0 || century_cycles == 0);
        let leap_day: i64 = if leap { 1 } else { 0 };
        (march_year, remained_days + DAYS_OF_JAN_AND_FEB + leap_day, leap)
    } else {
        let leap = remained_years == 3 && (quad_cycles != 24 || century_cycles == 3);
        (march_year + 1, remained_days - DAYS_FROM_MARCH_TO_JAN, leap)
    }
}

/// The month (1 ..= 12) and the day of the month (from 1) of the day
/// numbered `day_of_year` (0 for January 1) in a year that is a leap year
/// exactly when `leap` holds.
fn month_and_day(day_of_year: i64, leap: bool) -> (r: (i64, i64))
    requires
        0 <= day_of_year < 365 + (if leap { 1int } else { 0int }),
    ensures
        1 <= r.0 <= 12,
        1 <= r.1 <= month_length(r.0 as int, leap),
        days_through_month(r.0 - 1, leap) + r.1 - 1 == day_of_year,
{
    proof {
        lemma_days_of_year(leap);
    }
    // The first month that ends after the day.
    let mut month: i64 = 1;
    while month < 12 && TimeStamp::get_days_from_jan(month, leap) <= day_of_year
        invariant
            1 <= month <= 12,
            days_through_month(month - 1, leap) <= day_of_year,
            day_of_year < days_through_month(12, leap),
        decreases 12 - month,
    {
        month += 1;
    }
    let day = day_of_year - TimeStamp::get_days_from_jan(month - 1, leap) + 1;
    (month, day)
}

/// Floor division: the quotient rounded toward negative infinity, and the
/// remainder, which is never negative.
fn floor_divide(n: i64, d: i64) -> (r: (i64, i64))
    requires
        1 < d,
    ensures
        r.0 == n as int / d as int,
        r.1 == n as int % d as int,
{
    let mut q = n / d;
    let mut m = n % d;
    let ghost a = if n < 0 { -(n as int) } else { n as int };
    let ghost qa = a / (d as int);
    let ghost ra = a % (d as int);
    proof {
        lemma_fundamental_div_mod(a, d as int);
        if n < 0 {
            assert(q == -qa && m == -ra);
        }
        assert(n == q * d + m && -d < m < d && (m < 0 ==> q > i64::MIN)) by (nonlinear_arith)
            requires
                a == d * qa + ra,
                0 <= ra < d,
                n < 0 ==> a == -n && q == -qa && m == -ra,
                n >= 0 ==> a == n && q == qa && m == ra,
                d > 1,
                i64::MIN <= n,
        ;
    }
    let ghost q0 = q;
    let ghost m0 = m;
    if m < 0 {
        q -= 1;
        m += d;
    }
    proof {
        assert(n == q * d + m) by (nonlinear_arith)
            requires
                n == q0 * d + m0,
                m0 < 0 ==> q == q0 - 1 && m == m0 + d,
                m0 >= 0 ==> q == q0 && m == m0,
        ;
        vstd::arithmetic::div_mod::lemma_fundamental_div_mod_converse(
            n as int,
            d as int,
            q as int,
            m as int,
        );
    }
    (q, m)
}

/// Divides `n` by `cycle` and caps the quotient at `cap`.
///
/// The last cycle of a leap cycle is one day longer than the others, so the
/// plain quotient reaches `cap + 1` on that extra day; it then belongs to the
/// cycle numbered `cap`. Returns the capped quotient and what is left of `n`.
fn divide_with_clamp(n: i64, cycle: i64, cap: i64) -> (r: (i64, i64))
    requires
        0 <= n <= cycle * (cap + 1),
        0 < cycle <= 1_000_000,
        0 <= cap <= 1_000_000,
    ensures
        r.0 == (if n / cycle > cap { cap as int } else { n / cycle }),
        r.1 == n - r.0 * cycle,
        0 <= r.0 <= cap,
        0 <= r.1 <= cycle,
        r.0 < cap ==> r.1 < cycle,
{
    let q = n / cycle;
    let ghost qi = n as int / cycle as int;
    let ghost m = n as int % cycle as int;
    proof {
        lemma_fundamental_div_mod(n as int, cycle as int);
        assert(0 <= qi <= cap + 1 && (qi == cap + 1 ==> m == 0)) by (nonlinear_arith)
            requires
                n == cycle * qi + m,
                0 <= m < cycle,
                0 <= n <= cycle * (cap + 1),
        ;
    }
    let capped: i64 = if q > cap { cap } else { q };
    proof {
        assert(0 <= capped * cycle <= n && n - capped * cycle <= cycle && (capped < cap ==> n
            - capped * cycle < cycle)) by (nonlinear_arith)
            requires
                n == cycle * qi + m,
                0 <= m < cycle,
                capped == qi || (capped == qi - 1 && m == 0),
                0 <= capped,
                capped < cap ==> capped == qi,
        ;
    }
    (capped, n - capped * cycle)
}

} // verus!
