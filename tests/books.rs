use accounts::account::{Account, AccountType, Entry, Side, Transaction, TransactionStatus};
use accounts::books::Books;
use accounts::date::Date;
use accounts::recurrence::ScheduleEnum;
use accounts::schedule::{Schedule, ScheduleEntry};
use uuid::Uuid;

fn ymd(y: i32, m: u32, d: u32) -> Date {
    Date::from_ymd(y, m, d).unwrap()
}

fn new_id() -> u128 {
    Uuid::new_v4().as_u128()
}

fn has_account(books: &Books, id: u128) -> bool {
    books.valid_account_id(Some(id))
}

fn setup_books() -> (Books, u128, u128) {
    let mut books = Books::build_empty("My Books");
    let dr_account1 = Account::create_new("Savings Account 1", AccountType::Asset);
    let id1 = dr_account1.id;
    books.add_account(dr_account1);
    let cr_account1 = Account::create_new("Savings Account 2", AccountType::Asset);
    let id2 = cr_account1.id;
    books.add_account(cr_account1);
    (books, id1, id2)
}

fn build_transaction(id1: Option<u128>, id2: Option<u128>) -> Transaction {
    build_transaction_with_date(id1, id2, ymd(2022, 6, 4))
}

fn build_transaction_with_date(dr_account_id: Option<u128>, cr_account_id: Option<u128>, date: Date) -> Transaction {
    let transaction_id = new_id();
    let description_str = "received moneys";
    let amount: i128 = 10000_0000;
    let mut t1 = Transaction {
        id: transaction_id,
        entries: Vec::new(),
        status: TransactionStatus::Recorded,
        schedule_id: None,
    };
    if dr_account_id.is_some() {
        t1.entries.push(Entry {
            id: new_id(),
            transaction_id,
            date,
            description: description_str.to_string(),
            account_id: dr_account_id.unwrap(),
            entry_type: Side::Debit,
            amount,
            balance: None,
            reconciled: false,
        })
    }
    if cr_account_id.is_some() {
        t1.entries.push(Entry {
            id: new_id(),
            transaction_id,
            date,
            description: description_str.to_string(),
            account_id: cr_account_id.unwrap(),
            entry_type: Side::Credit,
            amount,
            balance: None,
            reconciled: false,
        })
    }
    t1
}

fn build_schedule_std(id1: u128, id2: u128, start_date: Date) -> Schedule {
    build_schedule(id1, id2, start_date, "Reocurring transaction", "Reocurring transaction", 100_0000, 1, ScheduleEnum::Months)
}

fn build_schedule(id1: u128, id2: u128, start_date: Date, name: &str, description: &str, amount: i128, frequency: i64, period: ScheduleEnum) -> Schedule {
    let s_id_1 = new_id();
    Schedule {
        id: s_id_1,
        name: name.to_string(),
        start_date,
        end_date: None,
        last_date: None,
        frequency,
        period,
        entries: vec![
            ScheduleEntry {
                amount,
                description: description.to_string(),
                account_id: id1,
                entry_type: Side::Debit,
                schedule_id: s_id_1,
            },
            ScheduleEntry {
                amount,
                description: description.to_string(),
                account_id: id2,
                entry_type: Side::Credit,
                schedule_id: s_id_1,
            },
        ],
        modifiers: Vec::new(),
    }
}

fn first_on(t: &Transaction, account: u128) -> Entry {
    t.account_entries(account).remove(0)
}

#[test]
fn test_add_account() {
    let a = Account::create_new("test account", AccountType::Liability);
    let id1 = a.id;
    let mut b = Books::build_empty("My Books");
    b.add_account(a);

    let a2 = &b.accounts()[0];
    assert_eq!(id1, a2.id);
}

#[test]
fn test_delete_account() {
    let (mut books, id1, id2) = setup_books();
    let result = books.delete_account(&id1);
    assert!(result.is_ok());
    assert!(!has_account(&books, id1));
    assert!(has_account(&books, id2));
}

#[test]
fn test_cannot_delete_account_with_transactions() {
    let (mut books, id1, id2) = setup_books();
    let t1 = build_transaction(None, Some(id1));
    books.add_transaction(t1).unwrap();
    let result = books.delete_account(&id1);
    assert_eq!(
        format!("Account {} can not be deleted as it has transactions.", Uuid::from_u128(id1)).as_str(),
        result.err().unwrap().error
    );
    assert!(has_account(&books, id1));
    assert!(has_account(&books, id2));
}

#[test]
fn test_cannot_delete_with_invalid_account_id() {
    let (mut books, id1, id2) = setup_books();
    let t1 = build_transaction(None, Some(id1));
    books.add_transaction(t1).unwrap();
    let id = new_id();
    let result = books.delete_account(&id);
    assert_eq!(format!("Account {} not found.", Uuid::from_u128(id)).as_str(), result.err().unwrap().error);
    assert!(has_account(&books, id1));
    assert!(has_account(&books, id2));
}

#[test]
fn test_add_transaction() {
    let (mut books, id1, id2) = setup_books();
    let t1 = build_transaction(Some(id1), Some(id2));
    let t1_id = t1.id;
    books.add_transaction(t1).unwrap();
    let t1_2 = &books.transactions()[0];
    assert_eq!(t1_id, t1_2.id);
}

#[test]
fn test_double_entry_required() {
    let (mut books, id1, id2) = setup_books();
    books.settings.require_double_entry = true;
    assert_eq!(0, books.transactions().len());
    let mut t1 = build_transaction(Some(id1), Some(id2));
    t1.entries.pop();
    let result = books.add_transaction(t1);
    assert_eq!(
        "A transaction needs at least two entries (double entry required is on).".to_string(),
        result.err().unwrap().error
    );
    assert_eq!(0, books.transactions().len());
}

#[test]
fn test_at_least_one_entry_required() {
    let (mut books, id1, id2) = setup_books();
    assert_eq!(0, books.transactions().len());
    let mut t1 = build_transaction(Some(id1), Some(id2));
    t1.entries.pop();
    t1.entries.pop();
    let result = books.add_transaction(t1);
    assert_eq!("A transaction must have at least one entry".to_string(), result.err().unwrap().error);
    assert_eq!(0, books.transactions().len());
}

#[test]
fn test_add_transaction_no_cr_account() {
    let (mut books, id1, _) = setup_books();
    let t1 = build_transaction(Some(id1), None);
    let t1_id = t1.id;
    books.add_transaction(t1).unwrap();
    let t1_2 = &books.transactions()[0];
    assert_eq!(t1_id, t1_2.id);
}

#[test]
fn test_add_transaction_no_dr_account() {
    let (mut books, _, id2) = setup_books();
    let t1 = build_transaction(None, Some(id2));
    let t1_id = t1.id;
    books.add_transaction(t1).unwrap();
    let t1_2 = &books.transactions()[0];
    assert_eq!(t1_id, t1_2.id);
}

#[test]
fn test_add_transaction_invalid_dr_account() {
    let (mut books, _, id2) = setup_books();
    let unknown = new_id();
    let t1 = build_transaction(Some(unknown), Some(id2));
    let result = books.add_transaction(t1);
    assert_eq!(
        format!("Account not found for id: {}", Uuid::from_u128(unknown)),
        result.err().unwrap().error
    );
    assert_eq!(0, books.transactions().len());
}

#[test]
fn test_add_transaction_invalid_cr_account() {
    let (mut books, id1, _) = setup_books();
    let unknown = new_id();
    let t1 = build_transaction(Some(id1), Some(unknown));
    let result = books.add_transaction(t1);
    assert_eq!(
        format!("Account not found for id: {}", Uuid::from_u128(unknown)),
        result.err().unwrap().error
    );
    assert_eq!(0, books.transactions().len());
}

#[test]
fn test_add_transaction_no_account() {
    let (mut books, _id1, _id2) = setup_books();
    let t1 = build_transaction(None, None);
    let result = books.add_transaction(t1);
    assert!(result.is_err());
    assert_eq!(0, books.transactions().len());
}

#[test]
fn test_delete_transaction() {
    let (mut books, id1, id2) = setup_books();
    let t1 = build_transaction(Some(id1), Some(id2));
    let t1_id = t1.id;
    books.add_transaction(t1).unwrap();

    let result = books.delete_transaction(&t1_id);
    assert!(result.is_ok());
    assert_eq!(0, books.transactions().len());
}

#[test]
fn test_delete_invalid_transaction() {
    let (mut books, id1, id2) = setup_books();
    let t1 = build_transaction(Some(id1), Some(id2));
    books.add_transaction(t1).unwrap();

    let id = new_id();
    let result = books.delete_transaction(&id);
    assert_eq!(format!("Transaction {} not found.", Uuid::from_u128(id)).as_str(), result.err().unwrap().error);
    assert_eq!(1, books.transactions().len());
}

#[test]
fn test_account_entries() {
    let (mut books, id1, id2) = setup_books();
    let t1 = build_transaction_with_date(Some(id1), Some(id2), ymd(2022, 6, 4));
    let t2 = build_transaction_with_date(None, Some(id2), ymd(2022, 6, 5));
    let t3 = build_transaction_with_date(Some(id1), None, ymd(2022, 7, 1));
    let t4 = build_transaction_with_date(Some(id2), Some(id1), ymd(2022, 7, 2));
    let t1a1e1 = first_on(&t1, id1);
    let t3a1e3 = first_on(&t3, id1);
    let t4a1e4 = first_on(&t4, id1);
    let t1a2e1 = first_on(&t1, id2);
    let t2a2e1 = first_on(&t2, id2);
    let t4a2e1 = first_on(&t4, id2);
    books.add_transaction(t1).unwrap();
    books.add_transaction(t2).unwrap();
    books.add_transaction(t3).unwrap();
    books.add_transaction(t4).unwrap();
    let a1_entries = books.account_entries(id1).unwrap();
    assert_eq!(3, a1_entries.len());

    let entry1 = &a1_entries[0];
    assert_eq!(t1a1e1.id, entry1.id);
    assert_eq!(10000_0000, entry1.balance.unwrap());

    let entry2 = &a1_entries[1];
    assert_eq!(t3a1e3.id, entry2.id);
    assert_eq!(20000_0000, entry2.balance.unwrap());

    let entry3 = &a1_entries[2];
    assert_eq!(t4a1e4.id, entry3.id);
    assert_eq!(10000_0000, entry3.balance.unwrap());

    let a2_entries = books.account_entries(id2).unwrap();
    assert_eq!(3, a2_entries.len());

    let entry21 = &a2_entries[0];
    assert_eq!(t1a2e1.id, entry21.id);
    assert_eq!(-10000_0000, entry21.balance.unwrap());

    let entry22 = &a2_entries[1];
    assert_eq!(t2a2e1.id, entry22.id);
    assert_eq!(-20000_0000, entry22.balance.unwrap());

    let entry23 = &a2_entries[2];
    assert_eq!(t4a2e1.id, entry23.id);
    assert_eq!(-10000_0000, entry23.balance.unwrap());
}

#[test]
fn test_account_transaction() {
    let (mut books, id1, id2) = setup_books();
    let t1 = build_transaction_with_date(Some(id1), Some(id2), ymd(2022, 6, 4));
    let t1a1e1 = first_on(&t1, id1);
    let _t1a2e1 = first_on(&t1, id2);
    books.add_transaction(t1).unwrap();
    let a1_entries = books.account_transactions(id1).unwrap();
    assert_eq!(1, a1_entries.len());

    let entry1 = first_on(&a1_entries[0], id1);
    assert_eq!(t1a1e1.id, entry1.id);
    assert_eq!(10000_0000, entry1.balance.unwrap());
}

#[test]
fn test_account_transactions() {
    let (mut books, id1, id2) = setup_books();
    let t1 = build_transaction_with_date(Some(id1), Some(id2), ymd(2022, 6, 4));
    let t2 = build_transaction_with_date(None, Some(id2), ymd(2022, 6, 5));
    let t3 = build_transaction_with_date(Some(id1), None, ymd(2022, 7, 1));
    let t4 = build_transaction_with_date(Some(id2), Some(id1), ymd(2022, 7, 2));
    let t1a1e1 = first_on(&t1, id1);
    let t3a1e3 = first_on(&t3, id1);
    let t4a1e4 = first_on(&t4, id1);
    let t1a2e1 = first_on(&t1, id2);
    let t2a2e1 = first_on(&t2, id2);
    let t4a2e1 = first_on(&t4, id2);
    books.add_transaction(t1).unwrap();
    books.add_transaction(t2).unwrap();
    books.add_transaction(t3).unwrap();
    books.add_transaction(t4).unwrap();
    let a1_entries = books.account_transactions(id1).unwrap();
    assert_eq!(3, a1_entries.len());

    let entry1 = first_on(&a1_entries[0], id1);
    assert_eq!(t1a1e1.id, entry1.id);
    assert_eq!(10000_0000, entry1.balance.unwrap());

    let entry2 = first_on(&a1_entries[1], id1);
    assert_eq!(t3a1e3.id, entry2.id);
    assert_eq!(20000_0000, entry2.balance.unwrap());

    let entry3 = first_on(&a1_entries[2], id1);
    assert_eq!(t4a1e4.id, entry3.id);
    assert_eq!(10000_0000, entry3.balance.unwrap());

    let a2_entries = books.account_transactions(id2).unwrap();
    assert_eq!(3, a2_entries.len());

    let entry21 = first_on(&a2_entries[0], id2);
    assert_eq!(t1a2e1.id, entry21.id);
    assert_eq!(-10000_0000, entry21.balance.unwrap());

    let entry22 = first_on(&a2_entries[1], id2);
    assert_eq!(t2a2e1.id, entry22.id);
    assert_eq!(-20000_0000, entry22.balance.unwrap());

    let entry23 = first_on(&a2_entries[2], id2);
    assert_eq!(t4a2e1.id, entry23.id);
    assert_eq!(-10000_0000, entry23.balance.unwrap());
}

#[test]
fn test_add_schedule() {
    let (mut books, id1, id2) = setup_books();
    let st1 = build_schedule_std(id1, id2, ymd(2022, 6, 4));
    let result = books.add_schedule(st1);
    assert!(result.is_ok());
    assert_eq!(1, books.schedules().len());
}

#[test]
fn test_update_schedule() {
    let (mut books, id1, id2) = setup_books();
    let st1 = build_schedule_std(id1, id2, ymd(2022, 6, 4));
    let mut st1_copy = st1.duplicate();
    let _result = books.add_schedule(st1);

    st1_copy.entries[0].description = "test changed".to_string();
    let _result = books.update_schedule(st1_copy);
    assert_eq!(1, books.schedules().len());
    assert_eq!("test changed", books.schedules()[0].entries[0].description);
}

#[test]
fn test_add_schedule_invalid_dr_account() {
    let (mut books, id1, id2) = setup_books();
    let st1 = build_schedule_std(id1, id2, ymd(2022, 6, 4));
    let result = books.add_schedule(st1);
    assert!(result.is_ok());
    assert_eq!(1, books.schedules().len());
}

#[test]
fn test_add_schedule_invalid_cr_account() {
    let (mut books, id1, _) = setup_books();
    let unknown = new_id();
    let st1 = build_schedule_std(id1, unknown, ymd(2022, 6, 4));
    let result = books.add_schedule(st1);
    assert_eq!(format!("Invalid account: {}", Uuid::from_u128(unknown)), result.err().unwrap().error);
    assert_eq!(0, books.schedules().len());
}

#[test]
fn books_test_generate() {
    let (mut books, id1, id2) = setup_books();
    let _result = books.add_schedule(build_schedule(id1, id2, ymd(2022, 3, 11), "S_1", "st test 1", 100_9900, 3, ScheduleEnum::Months));
    let _result = books.add_schedule(build_schedule(id2, id1, ymd(2022, 3, 11), "S_2", "st test 2", 20_2300, 45, ScheduleEnum::Days));

    assert_eq!(0, books.transactions().len());
    books.generate(ymd(2023, 3, 11)).unwrap();

    assert_eq!(14, books.transactions().len());
    assert_eq!("st test 2", books.transactions()[2].entries[0].description);
    assert_eq!("st test 1", books.transactions()[4].entries[0].description);
    assert_eq!(Some(ymd(2023, 3, 11)), books.end_date());
}

#[test]
fn same_day_transactions_keep_their_order_in_balances() {
    let (mut books, id1, id2) = setup_books();
    let day = ymd(2022, 6, 4);
    let a = build_transaction_with_date(Some(id1), Some(id2), day);
    let mut b = build_transaction_with_date(Some(id2), Some(id1), day);
    b.entries[0].amount = 3000_0000;
    b.entries[1].amount = 3000_0000;
    let c = build_transaction_with_date(Some(id1), Some(id2), day);
    let (ia, ib, ic) = (a.id, b.id, c.id);
    books.add_transaction(a).unwrap();
    books.add_transaction(b).unwrap();
    books.add_transaction(c).unwrap();
    let es = books.account_entries(id1).unwrap();
    let order: Vec<u128> = es.iter().map(|e| e.transaction_id).collect();
    assert_eq!(vec![ia, ib, ic], order);
    let balances: Vec<i128> = es.iter().map(|e| e.balance.unwrap()).collect();
    assert_eq!(vec![10000_0000, 7000_0000, 17000_0000], balances);
}

#[test]
fn balances_follow_entry_dates_not_insertion() {
    let (mut books, id1, id2) = setup_books();
    let late = build_transaction_with_date(Some(id1), Some(id2), ymd(2022, 8, 1));
    let early = build_transaction_with_date(Some(id1), Some(id2), ymd(2022, 1, 1));
    let (il, ie) = (late.id, early.id);
    books.add_transaction(late).unwrap();
    books.add_transaction(early).unwrap();
    let es = books.account_entries(id1).unwrap();
    assert_eq!(ie, es[0].transaction_id);
    assert_eq!(il, es[1].transaction_id);
    // the ledger's own entries carry no balance
    assert!(books.transactions()[0].entries[0].balance.is_none());
}

#[test]
fn liability_balance_grows_on_credit() {
    let mut books = Books::build_empty("My Books");
    let mut loan = Account::create_new("Loan", AccountType::Liability);
    loan.starting_balance = 500_0000;
    let loan_id = loan.id;
    books.add_account(loan);
    let cash = Account::create_new("Cash", AccountType::Asset);
    let cash_id = cash.id;
    books.add_account(cash);
    books.add_transaction(build_transaction(Some(cash_id), Some(loan_id))).unwrap();
    let es = books.account_entries(loan_id).unwrap();
    assert_eq!(10500_0000, es[0].balance.unwrap());
}

#[test]
fn unknown_account_has_no_entries() {
    let (books, _, _) = setup_books();
    let id = new_id();
    let r = books.account_entries(id);
    assert_eq!(format!("Account not found for id {}", Uuid::from_u128(id)), r.err().unwrap().error);
    assert!(books.account_transactions(id).is_err());
}

#[test]
fn balance_overflow_is_an_error() {
    let (mut books, id1, id2) = setup_books();
    let mut t = build_transaction(Some(id1), Some(id2));
    t.entries[0].amount = i128::MAX;
    books.add_transaction(t).unwrap();
    books.add_transaction(build_transaction(Some(id1), Some(id2))).unwrap();
    assert_eq!("An account balance does not fit.", books.account_entries(id1).err().unwrap().error);
}

#[test]
fn adding_an_existing_account_changes_nothing() {
    let (mut books, id1, _) = setup_books();
    let mut again = Account::create_new("Other name", AccountType::Expense);
    again.id = id1;
    books.add_account(again);
    assert_eq!(2, books.accounts().len());
    let listed = books.accounts();
    let a = listed.iter().find(|a| a.id == id1).unwrap();
    assert_eq!("Savings Account 1", a.name);
}

#[test]
fn accounts_are_listed_by_type_then_name() {
    let mut books = Books::build_empty("My Books");
    books.add_account(Account::create_new("Rent", AccountType::Expense));
    books.add_account(Account::create_new("Savings", AccountType::Asset));
    books.add_account(Account::create_new("Cash", AccountType::Asset));
    books.add_account(Account::create_new("Loan", AccountType::Liability));
    let names: Vec<String> = books.accounts().iter().map(|a| a.name.clone()).collect();
    assert_eq!(vec!["Cash", "Savings", "Loan", "Rent"], names);
}

#[test]
fn update_account_rules() {
    let (mut books, id1, id2) = setup_books();
    books.add_transaction(build_transaction(Some(id1), Some(id2))).unwrap();
    let mut changed = books.accounts().remove(0);
    assert_eq!(id1, changed.id);
    changed.account_type = AccountType::Expense;
    assert_eq!(
        "The type of an account with transactions can not change.",
        books.update_account(changed).err().unwrap().error
    );
    let mut renamed = books.accounts().remove(0);
    renamed.name = "Renamed".to_string();
    renamed.starting_balance = 7;
    assert!(books.update_account(renamed).is_ok());
    let mut unknown = Account::create_new("x", AccountType::Asset);
    unknown.id = 5;
    assert_eq!(
        format!("Account {} not found.", Uuid::from_u128(5)),
        books.update_account(unknown).err().unwrap().error
    );
}

#[test]
fn schedule_without_entries_is_refused() {
    let (mut books, id1, id2) = setup_books();
    let mut s = build_schedule_std(id1, id2, ymd(2022, 6, 4));
    s.entries.clear();
    assert_eq!(
        "A schedule must have at least one transaction entry",
        books.add_schedule(s).err().unwrap().error
    );
}

#[test]
fn schedule_with_zero_frequency_is_refused() {
    let (mut books, id1, id2) = setup_books();
    let mut s = build_schedule_std(id1, id2, ymd(2022, 6, 4));
    s.frequency = 0;
    assert_eq!(
        "A schedule needs valid dates and a positive frequency.",
        books.add_schedule(s).err().unwrap().error
    );
}

#[test]
fn update_of_unknown_transaction_is_refused() {
    let (mut books, id1, id2) = setup_books();
    let t = build_transaction(Some(id1), Some(id2));
    assert_eq!("Transaction not found", books.update_transaction(t).err().unwrap().error);
}

#[test]
fn update_replaces_transaction() {
    let (mut books, id1, id2) = setup_books();
    let t = build_transaction(Some(id1), Some(id2));
    let tid = t.id;
    books.add_transaction(t).unwrap();
    let mut t2 = books.transaction(tid).unwrap();
    t2.entries[0].description = "corrected".to_string();
    books.update_transaction(t2).unwrap();
    assert_eq!("corrected", books.transaction(tid).unwrap().entries[0].description);
    assert!(books.transaction(new_id()).is_none());
}

#[test]
fn reconciled_entries_are_refused() {
    let (mut books, id1, id2) = setup_books();
    let mut t = build_transaction(Some(id1), Some(id2));
    t.entries[0].reconciled = true;
    assert_eq!("A reconciled entry can not be changed.", books.add_transaction(t).err().unwrap().error);
}

#[test]
fn delete_schedule_rules() {
    let (mut books, id1, id2) = setup_books();
    let s = build_schedule_std(id1, id2, ymd(2022, 6, 4));
    let sid = s.id;
    books.add_schedule(s).unwrap();
    books.generate(ymd(2022, 7, 4)).unwrap();
    assert_eq!(2, books.transactions().len());
    assert_eq!(
        format!("Schedule {} can not be deleted as it has transactions.", Uuid::from_u128(sid)),
        books.delete_schedule(&sid).err().unwrap().error
    );
    let other = build_schedule_std(id1, id2, ymd(2022, 6, 4));
    let oid = other.id;
    books.add_schedule(other).unwrap();
    assert!(books.delete_schedule(&oid).is_ok());
    assert_eq!(1, books.schedules().len());
}

#[test]
fn ids_are_fresh() {
    let a = Account::create_new("a", AccountType::Asset);
    let b = Account::create_new("b", AccountType::Asset);
    assert_ne!(a.id, b.id);
    assert_eq!(Side::Credit, a.normal_balance().opposite());
    assert_eq!(Side::Credit, AccountType::Equity.normal_balance());
    assert_eq!(3, AccountType::Expense.order());
}

#[test]
fn entries_off_the_calendar_are_refused() {
    let (mut books, id1, id2) = setup_books();
    let mut t = build_transaction(Some(id1), Some(id2));
    t.entries[1].date = Date { year: 2023, month: 2, day: 30 };
    assert_eq!(
        "An entry is dated on a day that is not in the calendar.",
        books.add_transaction(t).err().unwrap().error
    );
    assert_eq!(0, books.transactions().len());
    assert_eq!("0.1.0", books.version);
}

#[test]
fn identifiers_are_written_hyphenated() {
    let (mut books, _, _) = setup_books();
    let id: u128 = 0x0123_4567_89ab_cdef_0123_4567_89ab_cdef;
    assert_eq!(
        "Account 01234567-89ab-cdef-0123-456789abcdef not found.",
        books.delete_account(&id).err().unwrap().error
    );
}
