use accounts::account::{Side, TransactionStatus};
use accounts::date::Date;
use accounts::modifier::Modifier;
use accounts::recurrence::{calculate_next_date, ScheduleEnum};
use accounts::schedule::{ModifierBinding, Schedule, ScheduleEntry};
use uuid::Uuid;

fn ymd(y: i32, m: u32, d: u32) -> Date {
    Date::from_ymd(y, m, d).unwrap()
}

fn new_id() -> u128 {
    Uuid::new_v4().as_u128()
}

fn build_schedule(frequency: i64, period: ScheduleEnum, modifiers: Vec<ModifierBinding>) -> Schedule {
    let mut s = Schedule {
        id: new_id(),
        name: "ST 1".to_string(),
        period,
        frequency,
        start_date: ymd(2022, 3, 11),
        end_date: None,
        last_date: Some(ymd(2022, 3, 11)),
        entries: Vec::new(),
        modifiers,
    };
    s.entries.push(ScheduleEntry {
        amount: 1009900,
        description: "stes1".to_string(),
        account_id: new_id(),
        entry_type: Side::Debit,
        schedule_id: s.id,
    });
    s.entries.push(ScheduleEntry {
        amount: 1009900,
        description: "stes1".to_string(),
        account_id: new_id(),
        entry_type: Side::Credit,
        schedule_id: s.id,
    });
    s
}

fn expect_next_date(period: ScheduleEnum, frequency: i64, expected_date: Date) {
    let s = build_schedule(frequency, period, Vec::new());
    let last_at_start = s.last_date;
    let next_date = s.get_next_date();
    assert_eq!(Some(expected_date), next_date);
    assert_eq!(last_at_start, s.last_date);
}

fn ambiguous_monthly() {
    let s = Schedule {
        id: new_id(),
        name: "ST 1".to_string(),
        period: ScheduleEnum::Months,
        frequency: 1,
        start_date: ymd(2023, 1, 31),
        end_date: None,
        last_date: Some(ymd(2023, 2, 28)),
        entries: Vec::new(),
        modifiers: Vec::new(),
    };
    let last_at_start = s.last_date;
    let next_date = s.get_next_date();
    assert_eq!(Some(ymd(2023, 3, 31)), next_date);
    assert_eq!(last_at_start, s.last_date);
}

fn multiple_monthly() {
    let mut s = build_schedule(3, ScheduleEnum::Months, Vec::new());
    let none: Vec<Modifier> = Vec::new();
    let max_date = ymd(2022, 11, 11);
    let mut next = s.schedule_next(max_date, &none).unwrap().unwrap();
    assert_eq!(ymd(2022, 6, 11), next.entries[0].date);
    assert_eq!(ymd(2022, 6, 11), s.last_date.unwrap());
    assert_eq!(s.entries[0].description, next.entries[0].description);
    assert_eq!(s.entries[0].amount, next.entries[0].amount);
    assert_eq!(TransactionStatus::Projected, next.status);
    next = s.schedule_next(max_date, &none).unwrap().unwrap();
    assert_eq!(ymd(2022, 9, 11), next.entries[0].date);
    assert_eq!(ymd(2022, 9, 11), s.last_date.unwrap());
    let last = s.schedule_next(max_date, &none).unwrap();
    assert!(last.is_none())
}

fn past_max_date() {
    let mut s = build_schedule(3, ScheduleEnum::Months, Vec::new());
    let next = s.schedule_next(ymd(2022, 5, 11), &Vec::new()).unwrap();
    assert_eq!(true, next.is_none());
}

fn past_end_date() {
    let mut s = build_schedule(3, ScheduleEnum::Months, Vec::new());
    s.end_date = Some(ymd(2022, 5, 11));
    let next = s.schedule_next(ymd(2023, 5, 11), &Vec::new()).unwrap();
    assert_eq!(true, next.is_none());
}

fn first() {
    let mut s = build_schedule(3, ScheduleEnum::Months, Vec::new());
    s.last_date = None;
    let next = s.schedule_next(ymd(2022, 5, 11), &Vec::new()).unwrap().unwrap();
    assert_eq!(s.start_date, next.entries[0].date);
    assert_eq!(s.id, next.schedule_id.unwrap());
}

#[test]
fn account_test_daily() {
    expect_next_date(ScheduleEnum::Days, 3, ymd(2022, 3, 14))
}

#[test]
fn account_test_weekly() {
    expect_next_date(ScheduleEnum::Weeks, 3, ymd(2022, 4, 1))
}

#[test]
fn account_test_monthly() {
    expect_next_date(ScheduleEnum::Months, 3, ymd(2022, 6, 11))
}

#[test]
fn account_test_ambiguous_monthly() {
    ambiguous_monthly()
}

#[test]
fn account_test_yearly() {
    expect_next_date(ScheduleEnum::Years, 1, ymd(2023, 3, 11))
}

#[test]
fn account_test_multiple_monthly() {
    multiple_monthly()
}

#[test]
fn account_test_past_max_date() {
    past_max_date()
}

#[test]
fn account_test_past_end_date() {
    past_end_date()
}

#[test]
fn account_test_first() {
    first()
}

#[test]
fn schedule_test_daily() {
    expect_next_date(ScheduleEnum::Days, 3, ymd(2022, 3, 14))
}

#[test]
fn schedule_test_weekly() {
    expect_next_date(ScheduleEnum::Weeks, 3, ymd(2022, 4, 1))
}

#[test]
fn schedule_test_monthly() {
    expect_next_date(ScheduleEnum::Months, 3, ymd(2022, 6, 11))
}

#[test]
fn schedule_test_ambiguous_monthly() {
    ambiguous_monthly()
}

#[test]
fn schedule_test_yearly() {
    expect_next_date(ScheduleEnum::Years, 1, ymd(2023, 3, 11))
}

#[test]
fn schedule_test_multiple_monthly() {
    multiple_monthly()
}

#[test]
fn schedule_test_past_max_date() {
    past_max_date()
}

#[test]
fn schedule_test_past_end_date() {
    past_end_date()
}

#[test]
fn schedule_test_first() {
    first()
}

fn build_modifier(amount: i128, percentage: i128) -> Modifier {
    Modifier {
        id: new_id(),
        name: "m".into(),
        period: ScheduleEnum::Months,
        frequency: 1,
        start_date: ymd(2022, 1, 1),
        end_date: None,
        amount,
        percentage,
    }
}

fn expect_next_modifier_date(modifier: &Modifier, binding: &ModifierBinding, expected_date: Date) {
    let s = build_schedule(3, ScheduleEnum::Months, vec![*binding]);
    let last_at_start = s.last_date;
    let next_date = s.modifiers[0].next_modifier_date(modifier).unwrap();
    assert_eq!(expected_date, next_date);
    assert_eq!(last_at_start, s.last_date);
}

#[test]
fn test_daily_modifier() {
    let mut modifier = build_modifier(0, 0);
    modifier.period = ScheduleEnum::Days;
    modifier.frequency = 10;
    let binding = ModifierBinding { modifier_id: modifier.id, cycle_count: 0, next_date: None };
    expect_next_modifier_date(&modifier, &binding, ymd(2022, 1, 11));
    assert_eq!(0, binding.cycle_count);
}

#[test]
fn test_yearly_modifier() {
    let mut modifier = build_modifier(0, 0);
    modifier.period = ScheduleEnum::Years;
    let binding = ModifierBinding { modifier_id: modifier.id, cycle_count: 0, next_date: None };
    expect_next_modifier_date(&modifier, &binding, ymd(2023, 1, 1));
    assert_eq!(0, binding.cycle_count);
}

#[test]
fn test_multiple_monthly_with_modifier() {
    let modifier = Modifier {
        id: new_id(),
        name: "Test Modifier".to_string(),
        period: ScheduleEnum::Years,
        frequency: 1,
        start_date: ymd(2022, 1, 1),
        end_date: None,
        amount: 0,
        percentage: 1000,
    };
    let binding = ModifierBinding {
        modifier_id: modifier.id,
        cycle_count: 0,
        next_date: Some(ymd(2022, 1, 1)),
    };
    let table = vec![modifier];
    let mut s = build_schedule(3, ScheduleEnum::Months, vec![binding]);
    let max_date = ymd(2023, 10, 1);

    let mut next = s.schedule_next(max_date, &table).unwrap().unwrap();
    for _ in 1..6 {
        next = s.schedule_next(max_date, &table).unwrap().unwrap();
    }

    assert_eq!(ymd(2023, 9, 11), next.entries[0].date);
    assert_eq!(ymd(2023, 9, 11), s.last_date.unwrap());
    assert_eq!(s.entries[0].description, next.entries[0].description);
    // 100.99 * 1.1
    assert_eq!(s.entries[0].amount * 11 / 10, next.entries[0].amount);
    assert_eq!(1110890, next.entries[0].amount);
    assert_eq!(TransactionStatus::Projected, next.status);
}

fn next_of(prev: Date, period: ScheduleEnum, frequency: i64, start: Date) -> Date {
    calculate_next_date(prev, period, frequency, start).unwrap()
}

#[test]
fn test_calculate_next_date_days() {
    let next = next_of(ymd(2022, 3, 10), ScheduleEnum::Days, 5, ymd(2022, 3, 1));
    assert_eq!(ymd(2022, 3, 15), next);
}

#[test]
fn test_calculate_next_date_weeks() {
    let next = next_of(ymd(2022, 3, 10), ScheduleEnum::Weeks, 2, ymd(2022, 3, 1));
    assert_eq!(ymd(2022, 3, 24), next);
}

#[test]
fn test_calculate_next_date_months_regular_day() {
    let next = next_of(ymd(2022, 1, 15), ScheduleEnum::Months, 1, ymd(2022, 1, 15));
    assert_eq!(ymd(2022, 2, 15), next);
}

#[test]
fn test_calculate_next_date_months_eom_from_jan_31() {
    let next = next_of(ymd(2022, 1, 31), ScheduleEnum::Months, 1, ymd(2022, 1, 31));
    assert_eq!(ymd(2022, 2, 28), next);
}

#[test]
fn test_calculate_next_date_months_eom_chain_to_31st() {
    let next = next_of(ymd(2023, 2, 28), ScheduleEnum::Months, 1, ymd(2023, 1, 31));
    assert_eq!(ymd(2023, 3, 31), next);
}

#[test]
fn test_calculate_next_date_years_regular() {
    let next = next_of(ymd(2020, 6, 15), ScheduleEnum::Years, 1, ymd(2020, 6, 15));
    assert_eq!(ymd(2021, 6, 15), next);
}

#[test]
fn test_calculate_next_date_years_from_feb_29() {
    let next = next_of(ymd(2020, 2, 29), ScheduleEnum::Years, 1, ymd(2020, 2, 29));
    assert_eq!(ymd(2021, 2, 28), next);
}

#[test]
fn test_modifier_apply_no_cycles() {
    let m = build_modifier(5_0000, 1000);
    assert_eq!(Some(100_0000), m.apply(100_0000, 0));
}

#[test]
fn test_modifier_apply_fixed_amount() {
    let m = build_modifier(10_0000, 0);
    assert_eq!(Some(130_0000), m.apply(100_0000, 3));
}

#[test]
fn test_modifier_apply_percentage_only() {
    let m = build_modifier(0, 1000);
    assert_eq!(Some(121_0000), m.apply(100_0000, 2));
}

#[test]
fn test_modifier_apply_fixed_and_percentage() {
    let m = build_modifier(5_0000, 1000);
    assert_eq!(Some(131_5000), m.apply(100_0000, 2));
}

#[test]
fn test_modifier_apply_many_cycles() {
    let m = build_modifier(2_0000, 500);
    // the same five cycles in hundred-millionths, where they are exact
    let mut expected: i128 = 100_0000_0000;
    for _ in 0..5 {
        expected = expected + 2_0000_0000 + expected * 5 / 100;
    }
    assert_eq!(138_6794_1875, expected);
    // rounded once, at the end, to ten-thousandths
    assert_eq!(Some(138_6794), m.apply(100_0000, 5));
}

#[test]
fn test_modifier_apply_negative_amount() {
    let m = build_modifier(-4_0000, 0);
    assert_eq!(Some(88_0000), m.apply(100_0000, 3));
}

#[test]
fn anchor_day_31_walks_through_short_months() {
    let anchor = ymd(2023, 1, 31);
    let mut d = anchor;
    let expected = [
        ymd(2023, 2, 28),
        ymd(2023, 3, 31),
        ymd(2023, 4, 30),
        ymd(2023, 5, 31),
        ymd(2023, 6, 30),
    ];
    for e in expected.iter() {
        d = next_of(d, ScheduleEnum::Months, 1, anchor);
        assert_eq!(*e, d);
    }
}

#[test]
fn anchor_day_30_returns_after_february() {
    // an anchor on the 30th comes back to the 30th after a short February
    let anchor = ymd(2023, 1, 30);
    let feb = next_of(anchor, ScheduleEnum::Months, 1, anchor);
    assert_eq!(ymd(2023, 2, 28), feb);
    assert_eq!(ymd(2023, 3, 30), next_of(feb, ScheduleEnum::Months, 1, anchor));
}

#[test]
fn anchor_day_29_through_leap_and_common_years() {
    let anchor = ymd(2024, 1, 29);
    let mut d = anchor;
    let expected = [ymd(2024, 2, 29), ymd(2024, 3, 29), ymd(2024, 4, 29)];
    for e in expected.iter() {
        d = next_of(d, ScheduleEnum::Months, 1, anchor);
        assert_eq!(*e, d);
    }
    let anchor = ymd(2023, 1, 29);
    let feb = next_of(anchor, ScheduleEnum::Months, 1, anchor);
    assert_eq!(ymd(2023, 2, 28), feb);
    assert_eq!(ymd(2023, 3, 29), next_of(feb, ScheduleEnum::Months, 1, anchor));
}

#[test]
fn leap_day_yearly_to_leap_year_keeps_day() {
    assert_eq!(ymd(2024, 2, 29), next_of(ymd(2020, 2, 29), ScheduleEnum::Years, 4, ymd(2020, 2, 29)));
}

#[test]
fn day_steps_cross_year_ends() {
    assert_eq!(ymd(2023, 1, 2), next_of(ymd(2022, 12, 30), ScheduleEnum::Days, 3, ymd(2022, 12, 30)));
    assert_eq!(ymd(2024, 3, 1), next_of(ymd(2024, 2, 23), ScheduleEnum::Weeks, 1, ymd(2024, 2, 23)));
}

#[test]
fn date_past_the_calendar_is_none() {
    let last = ymd(262142, 12, 31);
    assert_eq!(None, calculate_next_date(last, ScheduleEnum::Days, 1, last));
    assert_eq!(None, calculate_next_date(last, ScheduleEnum::Months, 1, last));
}

#[test]
fn invalid_dates_are_refused() {
    assert_eq!(None, Date::from_ymd(2023, 2, 29));
    assert_eq!(None, Date::from_ymd(2023, 13, 1));
    assert_eq!(None, Date::from_ymd(2023, 4, 31));
    assert!(Date::from_ymd(2024, 2, 29).is_some());
}

#[test]
fn compounding_overflow_is_none() {
    let m = build_modifier(0, 3000);
    assert_eq!(None, m.apply(i128::MAX / 2, 40));
}

#[test]
fn compounding_rounds_half_to_even() {
    // 0.0001 grown by half is 0.00015, which rounds to 0.0002
    let m = build_modifier(0, 5000);
    assert_eq!(Some(2), m.apply(1, 1));
    // grown by one and a half: 0.00025 rounds to 0.0002, 0.00075 to 0.0008
    let n = build_modifier(0, 1_5000);
    assert_eq!(Some(2), n.apply(1, 1));
    assert_eq!(Some(8), n.apply(3, 1));
}

#[test]
fn binding_fires_once_boundary_reached_without_emitting() {
    let modifier = Modifier {
        id: new_id(),
        name: "Yearly".to_string(),
        period: ScheduleEnum::Years,
        frequency: 1,
        start_date: ymd(2022, 1, 1),
        end_date: None,
        amount: 0,
        percentage: 1000,
    };
    let binding = ModifierBinding { modifier_id: modifier.id, cycle_count: 0, next_date: None };
    let table = vec![modifier];
    let mut s = build_schedule(1, ScheduleEnum::Years, vec![binding]);
    // the next occurrence, 2023-03-11, lies past the horizon, yet the boundary 2023-01-01 is reached
    let r = s.schedule_next(ymd(2022, 12, 31), &table).unwrap();
    assert!(r.is_none());
    assert_eq!(1, s.modifiers[0].cycle_count);
    assert_eq!(Some(ymd(2023, 1, 1)), s.modifiers[0].next_date);
    assert_eq!(Some(ymd(2022, 3, 11)), s.last_date);
}

#[test]
fn unknown_modifier_is_an_error_and_changes_nothing() {
    let binding = ModifierBinding { modifier_id: 7, cycle_count: 0, next_date: None };
    let mut s = build_schedule(3, ScheduleEnum::Months, vec![binding]);
    let r = s.schedule_next(ymd(2023, 1, 1), &Vec::new());
    assert_eq!(
        format!("Modifier {} not found.", Uuid::from_u128(7)),
        r.err().unwrap().error
    );
    assert_eq!(Some(ymd(2022, 3, 11)), s.last_date);
    assert_eq!(0, s.modifiers[0].cycle_count);
}

#[test]
fn compounding_runs_for_many_cycles() {
    // nine cycles of 12.34% on 100 come to about 284.98
    let m = build_modifier(0, 1234);
    let v = m.apply(100_0000, 9).unwrap();
    assert!(v > 284_9000 && v < 285_0000);
    // forty monthly cycles of 10%
    let n = build_modifier(0, 1000);
    let w = n.apply(100_0000, 40).unwrap();
    assert!(w > 4525_0000 && w < 4526_0000);
}
