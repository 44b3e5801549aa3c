//! The mathematical model of the proleptic Gregorian calendar.
use vstd::prelude::*;

verus! {

/// Whether `year` has a February 29: divisible by 4, except centuries,
/// except multiples of 400.
pub open spec fn is_leap_year(year: int) -> bool {
    year % 4 == 0 && (year % 100 != 0 || year % 400 == 0)
}

/// The number of days in `month` (1 = January .. 12 = December) of a year
/// that is a leap year exactly when `leap` holds.
pub open spec fn month_length(month: int, leap: bool) -> int {
    if month == 2 {
        if leap { 29 } else { 28 }
    } else if month == 4 || month == 6 || month == 9 || month == 11 {
        30
    } else {
        31
    }
}

/// The number of days in the first `months` months of a year (0 ..= 12).
pub open spec fn days_through_month(months: int, leap: bool) -> int
    decreases months,
{
    if months <= 0 {
        0
    } else {
        days_through_month(months - 1, leap) + month_length(months, leap)
    }
}

/// The number of leap years among the years `1 ..= year - 1` (negative for
/// years before 1, counting the leap years in `year ..= 0`).
pub open spec fn leap_years_before(year: int) -> int {
    (year - 1) / 4 - (year - 1) / 100 + (year - 1) / 400
}

/// The number of days from 1970-01-01 to January 1 of `year` (negative
/// before 1970).
pub open spec fn days_before_year(year: int) -> int {
    365 * (year - 1970) + leap_years_before(year) - leap_years_before(1970)
}

/// The number of days from 1970-01-01 to the given date.
pub open spec fn days_from_epoch(year: int, month: int, day: int) -> int {
    days_before_year(year) + days_through_month(month - 1, is_leap_year(year)) + day - 1
}

/// Going from January 1 of `year` to January 1 of the next year adds the
/// length of `year`.
pub proof fn lemma_year_step(year: int)
    ensures
        days_before_year(year + 1) == days_before_year(year) + 365 + (if is_leap_year(year) { 1int } else { 0int }),
{
}

/// March 1 of the year `2000 + 400 * quad_centuries + 100 * centuries +
/// 4 * quads + years` lies as many days after 2000-03-01 (itself 11017 days
/// after 1970-01-01) as the Gregorian cycles give: `146097` per 400 years,
/// `36524` per century of the current 400 years, `1461` per four years of the
/// current century and `365` per remaining year.
pub proof fn lemma_march_first(quad_centuries: int, centuries: int, quads: int, years: int)
    requires
        0 <= centuries <= 3,
        0 <= quads <= 24,
        0 <= years <= 3,
    ensures
        ({
            let y = 2000 + 400 * quad_centuries + 100 * centuries + 4 * quads + years;
            days_before_year(y) + 59 + (if is_leap_year(y) { 1int } else { 0int }) == 11017
                + 146097 * quad_centuries + 36524 * centuries + 1461 * quads + 365 * years
        }),
{
    let y = 2000 + 400 * quad_centuries + 100 * centuries + 4 * quads + years;
    let k = 100 * centuries + 4 * quads + years;
    assert((y - 1) / 4 == 499 + 100 * quad_centuries + 25 * centuries + quads + (years + 3) / 4);
    assert((y - 1) / 100 == 19 + 4 * quad_centuries + (k + 99) / 100);
    assert((y - 1) / 400 == 4 + quad_centuries + (k + 399) / 400);
}

/// Which years of a 400-year cycle counted from 2000-03-01 are leap years:
/// the year in which a March-to-February year begins, and the year in which
/// it ends.
pub proof fn lemma_leap_in_cycle(quad_centuries: int, centuries: int, quads: int, years: int)
    requires
        0 <= centuries <= 3,
        0 <= quads <= 24,
        0 <= years <= 3,
    ensures
        ({
            let y = 2000 + 400 * quad_centuries + 100 * centuries + 4 * quads + years;
            &&& is_leap_year(y) <==> (years == 0 && (quads != 0 || centuries == 0))
            &&& is_leap_year(y + 1) <==> (years == 3 && (quads != 24 || centuries == 3))
        }),
{
    let y = 2000 + 400 * quad_centuries + 100 * centuries + 4 * quads + years;
    assert(y % 4 == years);
    assert(y % 100 == 4 * quads + years);
    assert(y % 400 == 100 * centuries + 4 * quads + years);
    assert((y + 1) % 4 == (years + 1) % 4);
    assert((y + 1) % 100 == (4 * quads + years + 1) % 100);
    assert((y + 1) % 400 == (100 * centuries + 4 * quads + years + 1) % 400);
}

/// A later year begins at least 365 days per year later.
pub proof fn lemma_days_before_year_grows(earlier: int, later: int)
    requires
        earlier <= later,
    ensures
        days_before_year(earlier) + 365 * (later - earlier) <= days_before_year(later),
    decreases later - earlier,
{
    if earlier < later {
        lemma_days_before_year_grows(earlier, later - 1);
        lemma_year_step(later - 1);
    }
}

/// More months take at least as many days.
pub proof fn lemma_days_through_month_grows(fewer: int, more: int, leap: bool)
    requires
        0 <= fewer <= more,
    ensures
        days_through_month(fewer, leap) <= days_through_month(more, leap),
    decreases more - fewer,
{
    if fewer < more {
        lemma_days_through_month_grows(fewer, more - 1, leap);
    }
}

/// A whole year has 365 days, or 366 in a leap year.
pub proof fn lemma_days_of_year(leap: bool)
    ensures
        days_through_month(12, leap) == 365 + (if leap { 1int } else { 0int }),
{
    reveal_with_fuel(days_through_month, 13);
}

/// The day of a valid month and day, counted from January 1, falls within
/// the year.
pub proof fn lemma_day_of_year_bounds(month: int, day: int, leap: bool)
    requires
        1 <= month <= 12,
        1 <= day <= month_length(month, leap),
    ensures
        0 <= days_through_month(month - 1, leap) + day - 1,
        days_through_month(month - 1, leap) + day - 1 < 365 + (if leap { 1int } else { 0int }),
{
    lemma_days_through_month_grows(month, 12, leap);
    lemma_days_through_month_grows(0, month - 1, leap);
    lemma_days_of_year(leap);
}

/// No two valid dates share a day number.
pub proof fn lemma_days_from_epoch_injective(
    year_a: int,
    month_a: int,
    day_a: int,
    year_b: int,
    month_b: int,
    day_b: int,
)
    requires
        1 <= month_a <= 12,
        1 <= day_a <= month_length(month_a, is_leap_year(year_a)),
        1 <= month_b <= 12,
        1 <= day_b <= month_length(month_b, is_leap_year(year_b)),
        days_from_epoch(year_a, month_a, day_a) == days_from_epoch(year_b, month_b, day_b),
    ensures
        year_a == year_b,
        month_a == month_b,
        day_a == day_b,
{
    let leap_a = is_leap_year(year_a);
    let leap_b = is_leap_year(year_b);
    lemma_day_of_year_bounds(month_a, day_a, leap_a);
    lemma_day_of_year_bounds(month_b, day_b, leap_b);
    lemma_year_step(year_a);
    lemma_year_step(year_b);
    if year_a < year_b {
        lemma_days_before_year_grows(year_a + 1, year_b);
    } else if year_b < year_a {
        lemma_days_before_year_grows(year_b + 1, year_a);
    }
    assert(year_a == year_b);
    if month_a < month_b {
        lemma_days_through_month_grows(month_a, month_b - 1, leap_a);
    } else if month_b < month_a {
        lemma_days_through_month_grows(month_b, month_a - 1, leap_a);
    }
}

} // verus!
