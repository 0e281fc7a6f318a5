//! The proleptic Gregorian calendar, as plain arithmetic: valid dates, day numbers,
//! the following day, and the text of a date and time.
use vstd::prelude::*;
use vstd::arithmetic::div_mod::{lemma_fundamental_div_mod, lemma_fundamental_div_mod_converse, lemma_mod_bound};

verus! {

/// A calendar date and time of day, as plain numbers.
pub struct CivilTime {
    pub year: int,
    pub month: int,
    pub day: int,
    pub hour: int,
    pub minute: int,
    pub second: int,
}

pub open spec fn is_leap_year(y: int) -> bool {
    y % 4 == 0 && (y % 100 != 0 || y % 400 == 0)
}

pub open spec fn days_in_month(y: int, m: int) -> int {
    if m == 2 {
        if is_leap_year(y) { 29 } else { 28 }
    } else if m == 4 || m == 6 || m == 9 || m == 11 {
        30
    } else {
        31
    }
}

/// `(y, m, d)` names a day of the calendar.
pub open spec fn is_date(y: int, m: int, d: int) -> bool {
    1 <= m <= 12 && 1 <= d <= days_in_month(y, m)
}

/// A valid date with a time of day to the second.
pub open spec fn is_civil_time(t: CivilTime) -> bool {
    &&& is_date(t.year, t.month, t.day)
    &&& 0 <= t.hour < 24
    &&& 0 <= t.minute < 60
    &&& 0 <= t.second < 60
}

/// Days from the first of January of year 0 to the first of January of year `y`.
pub open spec fn days_before_year(y: int) -> int {
    365 * y + (y + 3) / 4 - (y + 99) / 100 + (y + 399) / 400
}

/// Days from the first of January to the first day of month `m` of year `y`.
pub open spec fn days_before_month(y: int, m: int) -> int
    decreases m,
{
    if m <= 1 {
        0
    } else {
        days_before_month(y, m - 1) + days_in_month(y, m - 1)
    }
}

/// The number of a day, counted from the first of January of year 0.
pub open spec fn day_number(y: int, m: int, d: int) -> int {
    days_before_year(y) + days_before_month(y, m) + d - 1
}

/// Seconds from the start of day 0 to the given local date and time.
pub open spec fn civil_seconds(t: CivilTime) -> int {
    day_number(t.year, t.month, t.day) * 86400 + t.hour * 3600 + t.minute * 60 + t.second
}

/// The day after `(y, m, d)`.
pub open spec fn next_date(y: int, m: int, d: int) -> (int, int, int) {
    if d < days_in_month(y, m) {
        (y, m, d + 1)
    } else if m < 12 {
        (y, m + 1, 1)
    } else {
        (y + 1, 1, 1)
    }
}

/// Midnight at the start of a date.
pub open spec fn midnight(y: int, m: int, d: int) -> CivilTime {
    CivilTime { year: y, month: m, day: d, hour: 0, minute: 0, second: 0 }
}

proof fn lemma_div_step(x: int, k: int)
    requires
        k > 0,
    ensures
        (x + 1) / k == x / k + if (x + 1) % k == 0 { 1int } else { 0int },
{
    lemma_fundamental_div_mod(x, k);
    lemma_mod_bound(x, k);
    let q = x / k;
    let r = x % k;
    assert(q * k == k * q) by (nonlinear_arith);
    if r == k - 1 {
        assert(x + 1 == (q + 1) * k + 0) by (nonlinear_arith)
            requires x == k * q + r, r == k - 1;
        lemma_fundamental_div_mod_converse(x + 1, k, q + 1, 0);
    } else {
        lemma_fundamental_div_mod_converse(x + 1, k, q, r + 1);
    }
}

proof fn lemma_mod_shift(y: int, k: int)
    requires
        k > 0,
    ensures
        ((y + k) % k == 0) <==> (y % k == 0),
{
    lemma_fundamental_div_mod(y, k);
    lemma_mod_bound(y, k);
    let q = y / k;
    let r = y % k;
    assert(y + k == (q + 1) * k + r) by (nonlinear_arith)
        requires y == k * q + r;
    lemma_fundamental_div_mod_converse(y + k, k, q + 1, r);
}

/// A year has 365 days, or 366 in a leap year.
pub proof fn lemma_year_length(y: int)
    ensures
        days_before_year(y + 1) == days_before_year(y) + 365 + if is_leap_year(y) { 1int } else { 0int },
{
    lemma_div_step(y + 3, 4);
    lemma_div_step(y + 99, 100);
    lemma_div_step(y + 399, 400);
    lemma_mod_shift(y, 4);
    lemma_mod_shift(y, 100);
    lemma_mod_shift(y, 400);
}

proof fn lemma_months_grow(y: int, m1: int, m2: int)
    requires
        m1 <= m2,
    ensures
        days_before_month(y, m1) <= days_before_month(y, m2),
        m1 >= 1 && m1 < m2 ==> days_before_month(y, m1) + days_in_month(y, m1) <= days_before_month(y, m2),
    decreases m2 - m1,
{
    if m1 < m2 {
        lemma_months_grow(y, m1, m2 - 1);
    }
}

proof fn lemma_year_of_days(y: int)
    ensures
        days_before_month(y, 13) == 365 + if is_leap_year(y) { 1int } else { 0int },
{
    reveal_with_fuel(days_before_month, 13);
}

/// A valid date's day number lies within its year.
proof fn lemma_day_in_year(y: int, m: int, d: int)
    requires
        is_date(y, m, d),
    ensures
        days_before_year(y) <= day_number(y, m, d) < days_before_year(y + 1),
{
    lemma_months_grow(y, m, 13);
    lemma_months_grow(y, 1, m);
    lemma_year_of_days(y);
    lemma_year_length(y);
}

proof fn lemma_years_grow(y1: int, y2: int)
    requires
        y1 <= y2,
    ensures
        days_before_year(y1) <= days_before_year(y2),
    decreases y2 - y1,
{
    if y1 < y2 {
        lemma_years_grow(y1, y2 - 1);
        lemma_year_length(y2 - 1);
    }
}

/// Day numbers grow with the date: an earlier valid date has a smaller number.
pub proof fn lemma_day_number_ordered(y1: int, m1: int, d1: int, y2: int, m2: int, d2: int)
    requires
        is_date(y1, m1, d1),
        is_date(y2, m2, d2),
        y1 < y2 || (y1 == y2 && m1 < m2) || (y1 == y2 && m1 == m2 && d1 < d2),
    ensures
        day_number(y1, m1, d1) < day_number(y2, m2, d2),
{
    if y1 < y2 {
        lemma_day_in_year(y1, m1, d1);
        lemma_day_in_year(y2, m2, d2);
        lemma_years_grow(y1 + 1, y2);
    } else if m1 < m2 {
        lemma_months_grow(y1, m1, m2);
    }
}

/// Two valid dates with the same day number are the same date.
pub proof fn lemma_day_number_injective(y1: int, m1: int, d1: int, y2: int, m2: int, d2: int)
    requires
        is_date(y1, m1, d1),
        is_date(y2, m2, d2),
        day_number(y1, m1, d1) == day_number(y2, m2, d2),
    ensures
        y1 == y2 && m1 == m2 && d1 == d2,
{
    if y1 < y2 || (y1 == y2 && m1 < m2) || (y1 == y2 && m1 == m2 && d1 < d2) {
        lemma_day_number_ordered(y1, m1, d1, y2, m2, d2);
    } else if y2 < y1 || (y1 == y2 && m2 < m1) || (y1 == y2 && m1 == m2 && d2 < d1) {
        lemma_day_number_ordered(y2, m2, d2, y1, m1, d1);
    }
}

/// The next date is a valid date, one day number later.
pub proof fn lemma_next_date(y: int, m: int, d: int)
    requires
        is_date(y, m, d),
    ensures
        is_date(next_date(y, m, d).0, next_date(y, m, d).1, next_date(y, m, d).2),
        day_number(next_date(y, m, d).0, next_date(y, m, d).1, next_date(y, m, d).2) == day_number(y, m, d) + 1,
{
    if d < days_in_month(y, m) {
    } else if m < 12 {
    } else {
        lemma_year_length(y);
        lemma_year_of_days(y);
    }
}

} // verus!
