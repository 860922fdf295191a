use accounts::account::Side;
use accounts::date::Date;
use accounts::generator::Generator;
use accounts::recurrence::ScheduleEnum;
use accounts::schedule::{Schedule, ScheduleEntry};
use accounts::scheduler::Scheduler;
use uuid::Uuid;

fn ymd(y: i32, m: u32, d: u32) -> Date {
    Date::from_ymd(y, m, d).unwrap()
}

fn new_id() -> u128 {
    Uuid::new_v4().as_u128()
}

fn two_entry_schedule(
    name: &str,
    description: &str,
    period: ScheduleEnum,
    frequency: i64,
    start_date: Date,
    end_date: Option<Date>,
    last_date: Option<Date>,
    amounts: (i128, i128),
) -> Schedule {
    let id = new_id();
    Schedule {
        id,
        name: name.to_string(),
        period,
        frequency,
        start_date,
        end_date,
        last_date,
        entries: vec![
            ScheduleEntry {
                amount: amounts.0,
                description: description.to_string(),
                account_id: new_id(),
                entry_type: Side::Debit,
                schedule_id: id,
            },
            ScheduleEntry {
                amount: amounts.1,
                description: description.to_string(),
                account_id: new_id(),
                entry_type: Side::Credit,
                schedule_id: id,
            },
        ],
        modifiers: Vec::new(),
    }
}

#[test]
fn scheduler_test_generate() {
    let mut scheduler = Scheduler { schedules: Vec::new(), modifiers: Vec::new(), end_date: None };
    scheduler.schedules.push(two_entry_schedule(
        "S_1",
        "st test 1",
        ScheduleEnum::Months,
        3,
        ymd(2022, 3, 11),
        None,
        None,
        (100_9900, 100_9900),
    ));
    scheduler.schedules.push(two_entry_schedule(
        "S_2",
        "st test 2",
        ScheduleEnum::Days,
        45,
        ymd(2022, 3, 11),
        Some(ymd(2023, 1, 20)),
        None,
        (20_2300, 100_9900),
    ));

    let transactions = scheduler.generate(ymd(2023, 3, 11)).unwrap();

    assert_eq!(13, transactions.len());
    assert_eq!("st test 2", transactions[2].entries[0].description);
    assert_eq!("st test 1", transactions[4].entries[0].description);
    assert_eq!(Some(ymd(2023, 3, 11)), scheduler.end_date());
}

#[test]
fn generator_test_generate() {
    let st1 = two_entry_schedule(
        "ST 1",
        "st test 1",
        ScheduleEnum::Months,
        3,
        ymd(2022, 3, 11),
        None,
        Some(ymd(2022, 3, 11)),
        (100_9900, 100_9900),
    );
    let st2 = two_entry_schedule(
        "ST 2",
        "st test 2",
        ScheduleEnum::Days,
        45,
        ymd(2022, 3, 11),
        None,
        Some(ymd(2022, 3, 11)),
        (20_2300, 20_2300),
    );
    let mut generator = Generator { scheduled_transations: vec![st1, st2] };

    let transactions = generator.generate(ymd(2023, 3, 11)).unwrap();

    assert_eq!(12, transactions.len());
    assert_eq!("st test 2", transactions[0].entries[0].description);
    assert_eq!("st test 1", transactions[2].entries[0].description);
}

#[test]
fn generation_is_sorted_and_stable() {
    let mut scheduler = Scheduler::build_empty();
    for name in ["first", "second", "third"] {
        scheduler.add_schedule(two_entry_schedule(
            name,
            name,
            ScheduleEnum::Weeks,
            1,
            ymd(2024, 1, 1),
            None,
            None,
            (1, 1),
        ));
    }
    let ts = scheduler.generate(ymd(2024, 1, 15)).unwrap();
    let got: Vec<(Date, String)> =
        ts.iter().map(|t| (t.entries[0].date, t.entries[0].description.clone())).collect();
    let mut expected = Vec::new();
    for d in [ymd(2024, 1, 1), ymd(2024, 1, 8), ymd(2024, 1, 15)] {
        for name in ["first", "second", "third"] {
            expected.push((d, name.to_string()));
        }
    }
    assert_eq!(expected, got);
    // a second run up to the same horizon produces nothing new
    assert_eq!(0, scheduler.generate(ymd(2024, 1, 15)).unwrap().len());
}

#[test]
fn generate_by_schedule_keeps_horizon() {
    let mut scheduler = Scheduler::build_empty();
    let s = two_entry_schedule("one", "one", ScheduleEnum::Days, 10, ymd(2024, 1, 1), None, None, (1, 1));
    let sid = s.id;
    scheduler.add_schedule(s);
    let ts = scheduler.generate_by_schedule(ymd(2024, 1, 25), sid).unwrap();
    assert_eq!(3, ts.len());
    assert_eq!(None, scheduler.end_date());
    assert_eq!(Some(ymd(2024, 1, 21)), scheduler.schedules()[0].last_date);
    assert_eq!(
        format!("Schedule {} not found.", Uuid::from_u128(9)),
        scheduler.generate_by_schedule(ymd(2024, 1, 25), 9).err().unwrap().error
    );
}

#[test]
fn update_of_unknown_schedule_is_refused() {
    let mut scheduler = Scheduler::build_empty();
    let s = two_entry_schedule("one", "one", ScheduleEnum::Days, 10, ymd(2024, 1, 1), None, None, (1, 1));
    assert_eq!("Schedule not found", scheduler.update_schedule(s).err().unwrap().error);
}
