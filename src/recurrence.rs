use vstd::prelude::*;
use crate::date::{
    add_days, date_lt, day_number, days_before_month, days_in_month, last_date,
    lemma_day_number_order, min_nat, month_len, shift_months, shift_months_spec, shifted_year,
    valid_date, year_in_range, Date, MAX_YEAR, MIN_YEAR,
};

verus! {

/// The unit in which a recurrence advances.
#[derive(Clone, Copy, Debug, PartialEq, Eq, Structural)]
pub enum ScheduleEnum {
    Days,
    Weeks,
    Months,
    Years,
}

pub open spec fn is_day_period(p: ScheduleEnum) -> bool {
    p == ScheduleEnum::Days || p == ScheduleEnum::Weeks
}

/// Days advanced by one step of a day-based period.
pub open spec fn day_step(p: ScheduleEnum, frequency: int) -> int {
    if p == ScheduleEnum::Days { frequency } else { 7 * frequency }
}

/// Months advanced by one step of a month-based period.
pub open spec fn month_step(p: ScheduleEnum, frequency: int) -> int {
    if p == ScheduleEnum::Months { frequency } else { 12 * frequency }
}

/// After a month shift, a day of month below the anchor's means that the target month was too
/// short earlier in the chain: the date moves back to the anchor day, or to the last day of the
/// month where the month is shorter than that.
pub open spec fn anchored(s: Date, anchor: Date) -> Date {
    if s.day < anchor.day {
        Date {
            year: s.year,
            month: s.month,
            day: min_nat(anchor.day as int, month_len(s.year as int, s.month as int)) as u32,
        }
    } else {
        s
    }
}

/// `r` is the occurrence that follows `prev` for the given period, frequency and anchor:
/// `None` when it would lie outside the calendar.
pub open spec fn is_next_occurrence(
    prev: Date,
    period: ScheduleEnum,
    frequency: int,
    anchor: Date,
    r: Option<Date>,
) -> bool {
    if is_day_period(period) {
        match r {
            Some(x) => valid_date(x) && day_number(x) == day_number(prev) + day_step(
                period,
                frequency,
            ),
            None => day_number(prev) + day_step(period, frequency) > day_number(last_date()),
        }
    } else {
        r == if year_in_range(shifted_year(prev, month_step(period, frequency))) {
            Some(anchored(shift_months_spec(prev, month_step(period, frequency)), anchor))
        } else {
            None
        }
    }
}

/// The occurrence that follows `prev`: `None` when it would lie outside the calendar.
pub open spec fn next_occurrence(prev: Date, period: ScheduleEnum, frequency: int, anchor: Date) -> Option<
    Date,
> {
    choose|r: Option<Date>| is_next_occurrence(prev, period, frequency, anchor, r)
}

/// At most one date follows `prev`.
pub proof fn lemma_next_unique(
    prev: Date,
    period: ScheduleEnum,
    frequency: int,
    anchor: Date,
    r: Option<Date>,
)
    requires
        is_next_occurrence(prev, period, frequency, anchor, r),
    ensures
        next_occurrence(prev, period, frequency, anchor) == r,
{
    let c = next_occurrence(prev, period, frequency, anchor);
    assert(is_next_occurrence(prev, period, frequency, anchor, c));
    if is_day_period(period) {
        if let Some(x) = r {
            lemma_day_number_order(x, last_date());
            if let Some(y) = c {
                lemma_day_number_order(x, y);
            }
        } else if let Some(y) = c {
            lemma_day_number_order(y, last_date());
        }
    }
}

proof fn lemma_shift_valid(d: Date, n: int)
    requires
        valid_date(d),
        year_in_range(shifted_year(d, n)),
    ensures
        valid_date(shift_months_spec(d, n)),
{
}

proof fn lemma_year_bounds(t: int)
    ensures
        year_in_range(t / 12) <==> (MIN_YEAR * 12 <= t <= MAX_YEAR * 12 + 11),
{
    vstd::arithmetic::div_mod::lemma_fundamental_div_mod(t, 12);
}

/// The occurrence after `prev` for a recurrence of `frequency` periods anchored at `anchor`.
pub fn calculate_next_date(prev: Date, period: ScheduleEnum, frequency: i64, anchor: Date) -> (r:
    Option<Date>)
    requires
        valid_date(prev),
        valid_date(anchor),
        frequency >= 1,
    ensures
        is_next_occurrence(prev, period, frequency as int, anchor, r),
        r == next_occurrence(prev, period, frequency as int, anchor),
        r matches Some(x) ==> valid_date(x),
{
    let r = next_date_in_calendar(prev, period, frequency, anchor);
    proof {
        lemma_next_unique(prev, period, frequency as int, anchor, r);
    }
    r
}

fn next_date_in_calendar(prev: Date, period: ScheduleEnum, frequency: i64, anchor: Date) -> (r:
    Option<Date>)
    requires
        valid_date(prev),
        valid_date(anchor),
        frequency >= 1,
    ensures
        is_next_occurrence(prev, period, frequency as int, anchor, r),
        r matches Some(x) ==> valid_date(x),
{
    match period {
        ScheduleEnum::Days => {
            return add_days(prev, frequency as u64);
        },
        ScheduleEnum::Weeks => {
            if frequency > 100_000_000 {
                proof {
                    assert(day_number(last_date()) < 100_000_000) by {
                        reveal_with_fuel(crate::date::days_before_month, 13);
                    }
                    assert(day_number(prev) >= -100_000_000) by {
                        reveal_with_fuel(crate::date::days_before_month, 13);
                        lemma_days_before_month_nonneg(prev.year as int, prev.month as int);
                    }
                }
                return None;
            } else {
                return add_days(prev, (frequency * 7) as u64);
            }
        },
        ScheduleEnum::Months | ScheduleEnum::Years => {
            if frequency > 7_000_000 {
                proof {
                    lemma_year_bounds(
                        prev.year * 12 + (prev.month - 1) + month_step(period, frequency as int),
                    );
                }
                return None;
            }
            let months: i64 = if period == ScheduleEnum::Months {
                frequency
            } else {
                frequency * 12
            };
            let t: i64 = prev.year as i64 * 12 + (prev.month as i64 - 1) + months;
            proof {
                lemma_year_bounds(t as int);
            }
            if t < MIN_YEAR as i64 * 12 || t > MAX_YEAR as i64 * 12 + 11 {
                return None;
            }
            let s = shift_months(prev, months as i32);
            proof {
                lemma_shift_valid(prev, months as int);
            }
            if s.day < anchor.day {
                let len = days_in_month(s.year, s.month);
                let day = if anchor.day <= len {
                    anchor.day
                } else {
                    len
                };
                Some(Date { year: s.year, month: s.month, day })
            } else {
                Some(s)
            }
        },
    }
}

/// An occurrence lies strictly after the one it follows.
pub proof fn lemma_next_after(
    prev: Date,
    period: ScheduleEnum,
    frequency: int,
    anchor: Date,
    r: Option<Date>,
)
    requires
        valid_date(prev),
        frequency >= 1,
        is_next_occurrence(prev, period, frequency, anchor, r),
        r is Some,
    ensures
        valid_date(r.unwrap()),
        date_lt(prev, r.unwrap()),
        day_number(prev) < day_number(r.unwrap()),
{
    let x = r.unwrap();
    if is_day_period(period) {
        lemma_day_number_order(prev, x);
    } else {
        let n = month_step(period, frequency);
        let t = prev.year * 12 + (prev.month - 1) + n;
        vstd::arithmetic::div_mod::lemma_fundamental_div_mod(t, 12);
        lemma_shift_valid(prev, n);
        lemma_day_number_order(prev, x);
    }
}

proof fn lemma_days_before_month_nonneg(y: int, m: int)
    ensures
        days_before_month(y, m) >= 0,
    decreases m,
{
    if m > 1 {
        lemma_days_before_month_nonneg(y, m - 1);
    }
}


/// Monthly recurrence keeps to its anchor day: from any date of the chain (one on the anchor
/// day, or on the last day of a month too short for it), the next occurrence falls on the anchor
/// day when the target month has that day and on the target month's last day otherwise.
pub proof fn lemma_anchor_day_kept(prev: Date, anchor: Date, frequency: int)
    requires
        valid_date(prev),
        valid_date(anchor),
        frequency >= 1,
        year_in_range(shifted_year(prev, frequency)),
        prev.day == min_nat(anchor.day as int, month_len(prev.year as int, prev.month as int)),
    ensures
        next_occurrence(prev, ScheduleEnum::Months, frequency, anchor) matches Some(r)
            && r.day == min_nat(anchor.day as int, month_len(r.year as int, r.month as int)),
{
    let r = anchored(shift_months_spec(prev, frequency), anchor);
    lemma_next_unique(prev, ScheduleEnum::Months, frequency, anchor, Some(r));
}

} // verus!
