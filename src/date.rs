use vstd::prelude::*;
use chrono::Datelike;

verus! {

/// Earliest year that a calendar date may carry.
pub const MIN_YEAR: i32 = -262143;

/// Latest year that a calendar date may carry.
pub const MAX_YEAR: i32 = 262142;

/// A day of the proleptic Gregorian calendar.
#[derive(Clone, Copy, Debug, PartialEq, Eq, Structural)]
pub struct Date {
    pub year: i32,
    pub month: u32,
    pub day: u32,
}

pub open spec fn is_leap_year(y: int) -> bool {
    y % 4 == 0 && (y % 100 != 0 || y % 400 == 0)
}

pub open spec fn month_len(y: int, m: int) -> int {
    if m == 2 {
        if is_leap_year(y) { 29 } else { 28 }
    } else if m == 4 || m == 6 || m == 9 || m == 11 {
        30
    } else {
        31
    }
}

pub open spec fn year_in_range(y: int) -> bool {
    MIN_YEAR <= y <= MAX_YEAR
}

pub open spec fn valid_date(d: Date) -> bool {
    &&& year_in_range(d.year as int)
    &&& 1 <= d.month <= 12
    &&& 1 <= d.day <= month_len(d.year as int, d.month as int)
}

/// Days in the months of year `y` before month `m`.
pub open spec fn days_before_month(y: int, m: int) -> int
    decreases m,
{
    if m <= 1 {
        0
    } else {
        days_before_month(y, m - 1) + month_len(y, m - 1)
    }
}

/// Days from January 1 of year 1 to January 1 of year `y`.
pub open spec fn days_before_year(y: int) -> int {
    let p = y - 1;
    365 * p + p / 4 - p / 100 + p / 400
}

/// The number of the day counted from the common era: January 1 of year 1 is day 1.
pub open spec fn day_number(d: Date) -> int {
    days_before_year(d.year as int) + days_before_month(d.year as int, d.month as int) + d.day
}

/// The last representable date.
pub open spec fn last_date() -> Date {
    Date { year: MAX_YEAR, month: 12, day: 31 }
}

pub open spec fn min_nat(a: int, b: int) -> int {
    if a <= b { a } else { b }
}

/// The date `n` calendar months after `d`, with the day of month clamped to the target month.
pub open spec fn shift_months_spec(d: Date, n: int) -> Date {
    let t = d.year * 12 + (d.month - 1) + n;
    let y = t / 12;
    let m = t % 12 + 1;
    Date { year: y as i32, month: m as u32, day: min_nat(d.day as int, month_len(y, m)) as u32 }
}

/// The year in which a shift of `n` months from `d` lands.
pub open spec fn shifted_year(d: Date, n: int) -> int {
    (d.year * 12 + (d.month - 1) + n) / 12
}

/// `a` falls on or before `b`.
pub open spec fn date_le(a: Date, b: Date) -> bool {
    a.year < b.year || (a.year == b.year && (a.month < b.month || (a.month == b.month
        && a.day <= b.day)))
}

/// `a` falls strictly before `b`.
pub open spec fn date_lt(a: Date, b: Date) -> bool {
    date_le(a, b) && a != b
}

proof fn lemma_dbm_step(y: int, m: int)
    requires
        1 <= m,
    ensures
        days_before_month(y, m + 1) == days_before_month(y, m) + month_len(y, m),
{
}

proof fn lemma_dbm_mono(y: int, m1: int, m2: int)
    requires
        1 <= m1 <= m2,
    ensures
        days_before_month(y, m1) <= days_before_month(y, m2),
    decreases m2 - m1,
{
    if m1 < m2 {
        lemma_dbm_mono(y, m1, m2 - 1);
        lemma_dbm_step(y, m2 - 1);
    }
}

proof fn lemma_div_step(p: int, k: int)
    requires
        k > 1,
    ensures
        (p + 1) / k - p / k == (if (p + 1) % k == 0 { 1int } else { 0int }),
{
    vstd::arithmetic::div_mod::lemma_fundamental_div_mod(p, k);
    vstd::arithmetic::div_mod::lemma_fundamental_div_mod(p + 1, k);
    let q = p / k;
    let r = p % k;
    assert(p == q * k + r) by (nonlinear_arith)
        requires
            p == k * q + r,
    ;
    if r + 1 == k {
        assert(p + 1 == (q + 1) * k + 0) by (nonlinear_arith)
            requires
                p == q * k + r,
                r + 1 == k,
        ;
        vstd::arithmetic::div_mod::lemma_fundamental_div_mod_converse(p + 1, k, q + 1, 0);
    } else {
        vstd::arithmetic::div_mod::lemma_fundamental_div_mod_converse(p + 1, k, q, r + 1);
    }
}

/// The days of year `y` are those of its twelve months.
proof fn lemma_year_length(y: int)
    ensures
        days_before_year(y + 1) == days_before_year(y) + days_before_month(y, 13),
{
    reveal_with_fuel(days_before_month, 13);
    let p = y - 1;
    lemma_div_step(p, 4);
    lemma_div_step(p, 100);
    lemma_div_step(p, 400);
    vstd::arithmetic::div_mod::lemma_fundamental_div_mod(y, 400);
    vstd::arithmetic::div_mod::lemma_fundamental_div_mod(y, 100);
    vstd::arithmetic::div_mod::lemma_fundamental_div_mod(y, 4);
    if y % 400 == 0 {
        vstd::arithmetic::div_mod::lemma_fundamental_div_mod_converse(y, 100, 4 * (y / 400), 0);
    }
    if y % 100 == 0 {
        vstd::arithmetic::div_mod::lemma_fundamental_div_mod_converse(y, 4, 25 * (y / 100), 0);
    }
}

proof fn lemma_year_mono(y1: int, y2: int)
    requires
        y1 < y2,
    ensures
        days_before_year(y1) + days_before_month(y1, 13) <= days_before_year(y2),
    decreases y2 - y1,
{
    lemma_year_length(y1);
    if y1 + 1 < y2 {
        lemma_year_mono(y1 + 1, y2);
        reveal_with_fuel(days_before_month, 13);
    }
}

/// Calendar order and day numbers agree on valid dates.
pub proof fn lemma_day_number_order(a: Date, b: Date)
    requires
        valid_date(a),
        valid_date(b),
    ensures
        date_lt(a, b) ==> day_number(a) < day_number(b),
        date_le(a, b) ==> day_number(a) <= day_number(b),
        day_number(a) < day_number(b) ==> date_lt(a, b),
        day_number(a) == day_number(b) ==> a == b,
{
    assert forall|x: Date, z: Date| valid_date(x) && valid_date(z) && #[trigger] date_lt(x, z)
        implies day_number(x) < day_number(z) by {
        if x.year < z.year {
            lemma_dbm_step(x.year as int, x.month as int);
            lemma_dbm_mono(x.year as int, x.month as int + 1, 13);
            lemma_year_mono(x.year as int, z.year as int);
            lemma_dbm_mono(z.year as int, 1, z.month as int);
        } else if x.month < z.month {
            lemma_dbm_step(x.year as int, x.month as int);
            lemma_dbm_mono(x.year as int, x.month as int + 1, z.month as int);
        }
    }
    if date_lt(a, b) {
        assert(day_number(a) < day_number(b));
    } else if date_lt(b, a) {
        assert(day_number(b) < day_number(a));
    }
}

impl Date {
    pub fn le(&self, other: &Date) -> (r: bool)
        ensures
            r == date_le(*self, *other),
    {
        self.year < other.year || (self.year == other.year && (self.month < other.month || (
        self.month == other.month && self.day <= other.day)))
    }

    /// Builds a date from its parts, when they name a day of the calendar.
    pub fn from_ymd(year: i32, month: u32, day: u32) -> (r: Option<Date>)
        ensures
            r == (if valid_date(Date { year, month, day }) {
                Some(Date { year, month, day })
            } else {
                None
            }),
    {
        if year < MIN_YEAR || year > MAX_YEAR || month < 1 || month > 12 {
            return None;
        }
        if day < 1 || day > days_in_month(year, month) {
            return None;
        }
        Some(Date { year, month, day })
    }
}

pub fn is_leap(y: i32) -> (r: bool)
    requires
        year_in_range(y as int),
    ensures
        r == is_leap_year(y as int),
{
    // shifted by a multiple of 400 so that the remainders are taken of a natural number
    let u: u64 = (y as i64 + 400000) as u64;
    assert(u as int % 4 == y as int % 4 && u as int % 100 == y as int % 100 && u as int % 400
        == y as int % 400) by {
        assert(u as int == y as int + 400 * 1000);
        vstd::arithmetic::div_mod::lemma_mod_add_multiples_vanish(y as int, 400);
        assert((y as int + 400 * 1000) % 4 == y as int % 4) by {
            vstd::arithmetic::div_mod::lemma_mod_multiples_vanish(100000, y as int, 4);
        }
        assert((y as int + 400 * 1000) % 100 == y as int % 100) by {
            vstd::arithmetic::div_mod::lemma_mod_multiples_vanish(4000, y as int, 100);
        }
        assert((y as int + 400 * 1000) % 400 == y as int % 400) by {
            vstd::arithmetic::div_mod::lemma_mod_multiples_vanish(1000, y as int, 400);
        }
    }
    u % 4 == 0 && (u % 100 != 0 || u % 400 == 0)
}

/// Number of days in month `m` of year `y`.
pub fn days_in_month(y: i32, m: u32) -> (r: u32)
    requires
        year_in_range(y as int),
    ensures
        r as int == month_len(y as int, m as int),
{
    if m == 2 {
        if is_leap(y) {
            29
        } else {
            28
        }
    } else if m == 4 || m == 6 || m == 9 || m == 11 {
        30
    } else {
        31
    }
}

/// Relies on chrono's `NaiveDate::checked_add_days`: the date `n` days later, or `None` when
/// that lies past the last date chrono represents.
#[verifier::external_body]
pub(crate) fn add_days(d: Date, n: u64) -> (r: Option<Date>)
    requires
        valid_date(d),
    ensures
        match r {
            Some(x) => valid_date(x) && day_number(x) == day_number(d) + n,
            None => day_number(d) + n > day_number(last_date()),
        },
{
    let nd = chrono::NaiveDate::from_ymd_opt(d.year, d.month, d.day).unwrap();
    nd.checked_add_days(chrono::Days::new(n)).map(
        |x| Date { year: x.year(), month: x.month(), day: x.day() },
    )
}

/// Relies on chronoutil's `shift_months`: the date `n` months on, keeping the day of month or,
/// where the target month is shorter, taking its last day.
#[verifier::external_body]
pub(crate) fn shift_months(d: Date, n: i32) -> (r: Date)
    requires
        valid_date(d),
        year_in_range(shifted_year(d, n as int)),
    ensures
        r == shift_months_spec(d, n as int),
{
    let nd = chrono::NaiveDate::from_ymd_opt(d.year, d.month, d.day).unwrap();
    let s = chronoutil::shift_months(nd, n);
    Date { year: s.year(), month: s.month(), day: s.day() }
}

} // verus!
