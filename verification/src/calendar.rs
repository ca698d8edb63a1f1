//! Proleptic Gregorian calendar arithmetic counted from 1970-01-01.

use vstd::prelude::*;

verus! {

/// Leap years of the Gregorian calendar.
pub open spec fn is_leap_year(year: int) -> bool {
    (year % 4 == 0 && year % 100 != 0) || year % 400 == 0
}

/// Number of days in `year`.
pub open spec fn days_in_year(year: int) -> int {
    if is_leap_year(year) { 366 } else { 365 }
}

/// Number of days in `month` (1 = January) of `year`; 0 outside 1..=12.
pub open spec fn days_in_month(year: int, month: int) -> int {
    if month == 2 {
        if is_leap_year(year) { 29 } else { 28 }
    } else if month == 4 || month == 6 || month == 9 || month == 11 {
        30
    } else if 1 <= month <= 12 {
        31
    } else {
        0
    }
}

/// Days from 1970-01-01 to the first day of `year`.
pub open spec fn days_before_year(year: int) -> int
    decreases year - 1970,
{
    if year <= 1970 { 0 } else { days_before_year(year - 1) + days_in_year(year - 1) }
}

/// Days from the first day of `year` to the first day of `month`.
pub open spec fn days_before_month(year: int, month: int) -> int
    decreases month,
{
    if month <= 1 { 0 } else { days_before_month(year, month - 1) + days_in_month(year, month - 1) }
}

/// A calendar date on or after 1970-01-01.
pub open spec fn is_valid_date(year: int, month: int, day: int) -> bool {
    &&& year >= 1970
    &&& 1 <= month <= 12
    &&& 1 <= day <= days_in_month(year, month)
}

/// Days elapsed from 1970-01-01 to the given date.
pub open spec fn days_since_epoch(year: int, month: int, day: int) -> int {
    days_before_year(year) + days_before_month(year, month) + day - 1
}

/// The date that lies `days` days after 1970-01-01.
pub open spec fn date_of_days(days: int) -> (int, int, int) {
    choose|t: (int, int, int)| is_valid_date(t.0, t.1, t.2) && days_since_epoch(t.0, t.1, t.2) == days
}

proof fn lemma_days_before_year_growth(year: int)
    requires
        year >= 1970,
    ensures
        days_before_year(year) >= 365 * (year - 1970),
        days_before_year(year) <= 366 * (year - 1970),
    decreases year - 1970,
{
    if year > 1970 {
        lemma_days_before_year_growth(year - 1);
    }
}

proof fn lemma_days_before_year_monotone(a: int, b: int)
    requires
        1970 <= a <= b,
    ensures
        days_before_year(a) + days_in_year(a) <= days_before_year(b) || a == b,
        days_before_year(a) <= days_before_year(b),
    decreases b - a,
{
    if a < b {
        lemma_days_before_year_monotone(a, b - 1);
    }
}

proof fn lemma_days_before_month_full_year(year: int)
    ensures
        days_before_month(year, 13) == days_in_year(year),
{
    reveal_with_fuel(days_before_month, 13);
}

proof fn lemma_days_before_month_monotone(year: int, a: int, b: int)
    requires
        1 <= a <= b <= 13,
    ensures
        days_before_month(year, a) + days_in_month(year, a) <= days_before_month(year, b) || a == b,
        days_before_month(year, a) <= days_before_month(year, b),
    decreases b - a,
{
    if a < b {
        lemma_days_before_month_monotone(year, a, b - 1);
    }
}

/// Day of the year of a valid date lies within that year.
proof fn lemma_day_of_year_bounds(year: int, month: int, day: int)
    requires
        is_valid_date(year, month, day),
    ensures
        0 <= days_before_month(year, month) + day - 1 < days_in_year(year),
{
    lemma_days_before_month_monotone(year, month, 13);
    lemma_days_before_month_full_year(year);
    lemma_days_before_month_monotone(year, 1, month);
}

/// Two valid dates that lie the same number of days after 1970-01-01 are the
/// same date: counting days from the epoch is one-to-one.
pub proof fn lemma_days_since_epoch_injective(y1: int, m1: int, d1: int, y2: int, m2: int, d2: int)
    requires
        is_valid_date(y1, m1, d1),
        is_valid_date(y2, m2, d2),
        days_since_epoch(y1, m1, d1) == days_since_epoch(y2, m2, d2),
    ensures
        y1 == y2,
        m1 == m2,
        d1 == d2,
{
    lemma_day_of_year_bounds(y1, m1, d1);
    lemma_day_of_year_bounds(y2, m2, d2);
    if y1 < y2 {
        lemma_days_before_year_monotone(y1, y2);
    } else if y2 < y1 {
        lemma_days_before_year_monotone(y2, y1);
    }
    if m1 < m2 {
        lemma_days_before_month_monotone(y1, m1, m2);
    } else if m2 < m1 {
        lemma_days_before_month_monotone(y1, m2, m1);
    }
}

/// Whether `year` is a Gregorian leap year.
pub fn is_leap(year: u64) -> (r: bool)
    ensures
        r == is_leap_year(year as int),
{
    (year % 4 == 0 && year % 100 != 0) || year % 400 == 0
}

fn year_length(year: u64) -> (r: u64)
    ensures
        r == days_in_year(year as int),
{
    if is_leap(year) { 366 } else { 365 }
}

fn month_length(year: u64, month: u64) -> (r: u64)
    requires
        1 <= month <= 12,
    ensures
        r == days_in_month(year as int, month as int),
{
    if month == 2 {
        if is_leap(year) { 29 } else { 28 }
    } else if month == 4 || month == 6 || month == 9 || month == 11 {
        30
    } else {
        31
    }
}

/// Convert days since 1970-01-01 to `(year, month, day)`.
pub fn days_to_ymd(days: u64) -> (r: (u64, u64, u64))
    ensures
        is_valid_date(r.0 as int, r.1 as int, r.2 as int),
        days_since_epoch(r.0 as int, r.1 as int, r.2 as int) == days as int,
        date_of_days(days as int) == (r.0 as int, r.1 as int, r.2 as int),
{
    let ghost total = days as int;
    let mut days = days;
    let mut year: u64 = 1970;
    while days >= year_length(year)
        invariant
            year >= 1970,
            days_before_year(year as int) + days == total,
            total <= u64::MAX,
        decreases days,
    {
        proof {
            lemma_days_before_year_growth(year as int);
        }
        days = days - year_length(year);
        year = year + 1;
    }
    let mut month: u64 = 1;
    while days >= month_length(year, month)
        invariant
            1 <= month <= 12,
            days_before_month(year as int, month as int) + days < days_in_year(year as int),
            days_before_year(year as int) + days_before_month(year as int, month as int) + days == total,
        decreases 12 - month,
    {
        proof {
            lemma_days_before_month_full_year(year as int);
            if month == 12 {
                assert(days_before_month(year as int, 13) == days_before_month(year as int, 12)
                    + days_in_month(year as int, 12));
            }
        }
        days = days - month_length(year, month);
        month = month + 1;
    }
    let r = (year, month, days + 1);
    proof {
        let t = date_of_days(total);
        assert(is_valid_date(year as int, month as int, days + 1));
        assert(days_since_epoch(year as int, month as int, days + 1) == total);
        assert(exists|t: (int, int, int)| is_valid_date(t.0, t.1, t.2) && days_since_epoch(t.0, t.1, t.2) == total) by {
            let w = (year as int, month as int, days + 1);
            assert(is_valid_date(w.0, w.1, w.2) && days_since_epoch(w.0, w.1, w.2) == total);
        }
        lemma_days_since_epoch_injective(t.0, t.1, t.2, year as int, month as int, days + 1);
    }
    r
}

} // verus!
