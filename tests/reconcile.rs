use accounts::account::{Account, AccountType, Entry, Side, Transaction, TransactionStatus};
use accounts::books::Books;
use accounts::date::Date;
use accounts::reconcile::{promote_statuses, MatchStatus};
use uuid::Uuid;

fn ymd(y: i32, m: u32, d: u32) -> Date {
    Date::from_ymd(y, m, d).unwrap()
}

fn new_id() -> u128 {
    Uuid::new_v4().as_u128()
}

fn one_entry(account: u128, date: Date, amount: i128, description: &str, balance: Option<i128>) -> Transaction {
    let id = new_id();
    Transaction {
        id,
        entries: vec![Entry {
            id: new_id(),
            transaction_id: id,
            date,
            description: description.to_string(),
            account_id: account,
            entry_type: Side::Debit,
            amount,
            balance,
            reconciled: false,
        }],
        status: TransactionStatus::Recorded,
        schedule_id: None,
    }
}

fn ledger() -> (Books, u128) {
    let mut books = Books::build_empty("My Books");
    let a = Account::create_new("Bank", AccountType::Asset);
    let id = a.id;
    books.add_account(a);
    (books, id)
}

#[test]
fn mismatch_then_match_is_promoted() {
    let (mut books, acc) = ledger();
    let t1 = one_entry(acc, ymd(2024, 1, 1), 100_0000, "rent", None);
    let t2 = one_entry(acc, ymd(2024, 1, 5), 50_0000, "food", None);
    let (i1, i2) = (t1.id, t2.id);
    books.add_transaction(t1).unwrap();
    books.add_transaction(t2).unwrap();
    let external = vec![
        one_entry(acc, ymd(2024, 1, 1), 100_0000, "rent", Some(90_0000)),
        one_entry(acc, ymd(2024, 1, 5), 50_0000, "groceries", Some(150_0000)),
    ];
    let rs = books.reconcile(acc, &external).unwrap();
    assert_eq!(2, rs.len());
    assert_eq!(MatchStatus::PartialMatch, rs[0].status);
    assert_eq!(Some(i1), rs[0].matched_id);
    assert_eq!(Some(100_0000), rs[0].expected_balance);
    assert_eq!(MatchStatus::Matched, rs[1].status);
    assert_eq!(Some(i2), rs[1].matched_id);
    assert_eq!(Some(150_0000), rs[1].expected_balance);
}

#[test]
fn unmatched_breaks_the_run() {
    let (mut books, acc) = ledger();
    books.add_transaction(one_entry(acc, ymd(2024, 1, 1), 100_0000, "rent", None)).unwrap();
    books.add_transaction(one_entry(acc, ymd(2024, 1, 9), 10_0000, "fee", None)).unwrap();
    let external = vec![
        one_entry(acc, ymd(2024, 1, 2), 100_0000, "rent", Some(1)),
        one_entry(acc, ymd(2024, 1, 4), 77_0000, "other", Some(2)),
        one_entry(acc, ymd(2024, 1, 9), 10_0000, "fee", Some(110_0000)),
    ];
    let rs = books.reconcile(acc, &external).unwrap();
    assert_eq!(MatchStatus::Mismatch, rs[0].status);
    assert_eq!(MatchStatus::Unmatched, rs[1].status);
    assert_eq!(None, rs[1].matched_id);
    assert_eq!(MatchStatus::Matched, rs[2].status);
}

#[test]
fn outside_transactions_are_taken_oldest_first() {
    let (mut books, acc) = ledger();
    books.add_transaction(one_entry(acc, ymd(2024, 1, 1), 5_0000, "a", None)).unwrap();
    let other = new_id();
    let external = vec![
        one_entry(acc, ymd(2024, 3, 1), 1_0000, "late", None),
        one_entry(other, ymd(2024, 1, 1), 1_0000, "elsewhere", None),
        one_entry(acc, ymd(2024, 1, 1), 5_0000, "a", Some(5_0000)),
    ];
    let rs = books.reconcile(acc, &external).unwrap();
    assert_eq!(2, rs.len());
    assert_eq!("a", rs[0].transaction.entries[0].description);
    assert_eq!(MatchStatus::Matched, rs[0].status);
    assert_eq!("late", rs[1].transaction.entries[0].description);
    assert_eq!(MatchStatus::Unmatched, rs[1].status);
}

#[test]
fn promotion_rules() {
    let (m, p, u, a) = (MatchStatus::Mismatch, MatchStatus::PartialMatch, MatchStatus::Unmatched, MatchStatus::Matched);
    let ss = vec![m, m, p, m, u, m, a, m];
    let got = promote_statuses(&ss);
    assert_eq!(
        vec![p, p, p, m, u, p, a, m],
        got
    );
}

fn four_on_account() -> (Books, u128, Vec<u128>) {
    let (mut books, acc) = ledger();
    let mut ids = Vec::new();
    for d in 1..5u32 {
        let t = one_entry(acc, ymd(2024, 2, d), 10_0000, "x", None);
        ids.push(t.id);
        books.add_transaction(t).unwrap();
    }
    (books, acc, ids)
}

#[test]
fn cutoff_only_moves_forward() {
    let (mut books, acc, ids) = four_on_account();
    books.reconcile_account(acc, ids[3]).unwrap();
    let cut = books.accounts()[0].cutoff.unwrap();
    assert_eq!(ids[3], cut.transaction_id);
    assert_eq!(40_0000, cut.balance);
    assert_eq!(ymd(2024, 2, 4), cut.date);
    books.reconcile_account(acc, ids[1]).unwrap();
    assert_eq!(Some(cut), books.accounts()[0].cutoff);
    assert!(books.transactions().iter().all(|t| t.entries[0].reconciled));
}

#[test]
fn cutoff_marks_entries_up_to_it() {
    let (mut books, acc, ids) = four_on_account();
    books.reconcile_account(acc, ids[1]).unwrap();
    let flags: Vec<bool> = books.transactions().iter().map(|t| t.entries[0].reconciled).collect();
    assert_eq!(vec![true, true, false, false], flags);
    // reconciled entries are immutable now
    assert_eq!("A reconciled entry can not be changed.", books.delete_transaction(&ids[0]).err().unwrap().error);
    // nothing may be dated before the cutoff
    let early = one_entry(acc, ymd(2024, 1, 31), 1, "late entry", None);
    assert_eq!(
        "An entry can not be dated before its account's reconciliation cutoff.",
        books.add_transaction(early).err().unwrap().error
    );
    books.reconcile_account(acc, ids[2]).unwrap();
    assert_eq!(Some(ids[2]), books.accounts()[0].cutoff.map(|c| c.transaction_id));
}

#[test]
fn cutoff_on_unknown_transaction_fails() {
    let (mut books, acc, _) = four_on_account();
    assert_eq!(
        format!("Transaction {} not found for the account.", Uuid::from_u128(3)),
        books.reconcile_account(acc, 3).err().unwrap().error
    );
    assert!(books.reconcile_account(new_id(), 3).is_err());
}

#[test]
fn cutoff_can_not_be_set_by_update() {
    let (mut books, acc, ids) = four_on_account();
    books.reconcile_account(acc, ids[0]).unwrap();
    let mut a = books.accounts().remove(0);
    a.cutoff = None;
    assert_eq!(
        "The reconciliation cutoff of an account is set by reconciling only.",
        books.update_account(a).err().unwrap().error
    );
    let mut b = books.accounts().remove(0);
    b.starting_balance = 1;
    assert_eq!(
        "The starting balance of a reconciled account can not change.",
        books.update_account(b).err().unwrap().error
    );
}
