use vstd::prelude::*;
use crate::date::Date;

verus! {

/// Relies on uuid's `Uuid::new_v4`: a fresh random identifier. Nothing is promised of its value.
#[verifier::external_body]
pub(crate) fn new_id() -> (r: u128) {
    uuid::Uuid::new_v4().as_u128()
}

/// The two sides of a double-entry booking.
#[derive(Clone, Copy, Debug, PartialEq, Eq, Structural)]
pub enum Side {
    Debit,
    Credit,
}

impl Side {
    pub fn opposite(&self) -> (r: Side)
        ensures
            r != *self,
    {
        match self {
            Side::Debit => Side::Credit,
            Side::Credit => Side::Debit,
        }
    }
}

#[derive(Clone, Copy, Debug, PartialEq, Eq, Structural)]
pub enum TransactionStatus {
    Recorded,
    Projected,
}

/// One line of a transaction: an amount booked on one side of one account.
#[derive(Debug)]
pub struct Entry {
    pub id: u128,
    pub transaction_id: u128,
    pub date: Date,
    pub description: String,
    pub account_id: u128,
    pub entry_type: Side,
    /// In ten-thousandths.
    pub amount: i128,
    /// The running balance of the account after this entry; filled in only on copies handed out
    /// by balance queries.
    pub balance: Option<i128>,
    pub reconciled: bool,
}

impl Entry {
    pub fn set_balance(&mut self, balance: Option<i128>)
        ensures
            *final(self) == (Entry { balance, ..*old(self) }),
    {
        self.balance = balance;
    }

    /// A copy of this entry.
    pub fn duplicate(&self) -> (r: Entry)
        ensures
            r == *self,
    {
        Entry {
            id: self.id,
            transaction_id: self.transaction_id,
            date: self.date,
            description: self.description.clone(),
            account_id: self.account_id,
            entry_type: self.entry_type,
            amount: self.amount,
            balance: self.balance,
            reconciled: self.reconciled,
        }
    }
}

#[derive(Debug)]
pub struct Transaction {
    pub id: u128,
    pub entries: Vec<Entry>,
    pub status: TransactionStatus,
    pub schedule_id: Option<u128>,
}

/// Whether some entry of `t` is booked on account `account_id`.
pub open spec fn involves(t: Transaction, account_id: u128) -> bool {
    exists|i: int| 0 <= i < t.entries@.len() && (#[trigger] t.entries@[i]).account_id == account_id
}

/// The entries of `es` booked on account `account_id`, in order.
pub open spec fn entries_of(es: Seq<Entry>, account_id: u128) -> Seq<Entry> {
    es.filter(|e: Entry| e.account_id == account_id)
}

/// Copies of the entries of `es`.
pub fn copy_entries(es: &Vec<Entry>) -> (r: Vec<Entry>)
    ensures
        r@ == es@,
{
    let mut r: Vec<Entry> = Vec::new();
    let mut i: usize = 0;
    while i < es.len()
        invariant
            i <= es@.len(),
            r@ == es@.take(i as int),
        decreases es@.len() - i,
    {
        r.push(es[i].duplicate());
        proof {
            assert(es@.take(i as int + 1) == es@.take(i as int).push(es@[i as int]));
        }
        i = i + 1;
    }
    proof {
        assert(es@.take(es@.len() as int) == es@);
    }
    r
}

impl Transaction {
    /// A copy of this transaction.
    pub fn duplicate(&self) -> (r: Transaction)
        ensures
            r.id == self.id,
            r.entries@ == self.entries@,
            r.status == self.status,
            r.schedule_id == self.schedule_id,
    {
        Transaction {
            id: self.id,
            entries: copy_entries(&self.entries),
            status: self.status,
            schedule_id: self.schedule_id,
        }
    }

    /// Copies of the entries booked on `account_id`, in order.
    pub fn account_entries(&self, account_id: u128) -> (r: Vec<Entry>)
        ensures
            r@ == entries_of(self.entries@, account_id),
    {
        let mut r: Vec<Entry> = Vec::new();
        let mut i: usize = 0;
        while i < self.entries.len()
            invariant
                i <= self.entries@.len(),
                r@ == entries_of(self.entries@.take(i as int), account_id),
            decreases self.entries@.len() - i,
        {
            proof {
                reveal(Seq::filter);
                assert(self.entries@.take(i as int + 1).drop_last() == self.entries@.take(
                    i as int,
                ));
            }
            if self.entries[i].account_id == account_id {
                r.push(self.entries[i].duplicate());
            }
            i = i + 1;
        }
        proof {
            assert(self.entries@.take(self.entries@.len() as int) == self.entries@);
        }
        r
    }

    /// Whether one of the entries is reconciled.
    pub fn has_reconciled_entry(&self) -> (r: bool)
        ensures
            r == exists|i: int| 0 <= i < self.entries@.len() && (#[trigger] self.entries@[i]).reconciled,
    {
        let mut i: usize = 0;
        while i < self.entries.len()
            invariant
                i <= self.entries@.len(),
                forall|j: int| 0 <= j < i ==> !(#[trigger] self.entries@[j]).reconciled,
            decreases self.entries@.len() - i,
        {
            if self.entries[i].reconciled {
                return true;
            }
            i = i + 1;
        }
        false
    }

    pub fn involves_account(&self, account_id: &u128) -> (r: bool)
        ensures
            r == involves(*self, *account_id),
    {
        let mut i: usize = 0;
        while i < self.entries.len()
            invariant
                i <= self.entries@.len(),
                forall|j: int| 0 <= j < i ==> (#[trigger] self.entries@[j]).account_id != *account_id,
            decreases self.entries@.len() - i,
        {
            if self.entries[i].account_id == *account_id {
                return true;
            }
            i = i + 1;
        }
        false
    }
}

/// The kinds of account; each fixes the side on which the account grows.
#[derive(Clone, Copy, Debug, PartialEq, Eq, Structural)]
pub enum AccountType {
    Asset,
    Liability,
    Revenue,
    Expense,
    Equity,
}

pub open spec fn normal_side(t: AccountType) -> Side {
    match t {
        AccountType::Asset | AccountType::Expense => Side::Debit,
        _ => Side::Credit,
    }
}

pub open spec fn type_rank(t: AccountType) -> u8 {
    match t {
        AccountType::Asset => 0,
        AccountType::Liability => 1,
        AccountType::Revenue => 2,
        AccountType::Expense => 3,
        AccountType::Equity => 4,
    }
}

impl AccountType {
    pub fn normal_balance(&self) -> (r: Side)
        ensures
            r == normal_side(*self),
    {
        match self {
            AccountType::Asset => Side::Debit,
            AccountType::Expense => Side::Debit,
            AccountType::Liability => Side::Credit,
            AccountType::Revenue => Side::Credit,
            AccountType::Equity => Side::Credit,
        }
    }

    /// Position of the type in listings of accounts.
    pub fn order(&self) -> (r: u8)
        ensures
            r == type_rank(*self),
    {
        match self {
            AccountType::Asset => 0,
            AccountType::Liability => 1,
            AccountType::Revenue => 2,
            AccountType::Expense => 3,
            AccountType::Equity => 4,
        }
    }
}

/// The latest reconciled point of an account.
#[derive(Clone, Copy, Debug, PartialEq, Eq, Structural)]
pub struct Cutoff {
    pub date: Date,
    pub balance: i128,
    pub transaction_id: u128,
}

#[derive(Debug)]
pub struct Account {
    pub id: u128,
    pub name: String,
    pub account_type: AccountType,
    /// In ten-thousandths.
    pub starting_balance: i128,
    pub cutoff: Option<Cutoff>,
}

impl Account {
    /// A new account with a fresh id, a zero starting balance and no cutoff.
    pub fn create_new(name: &str, account_type: AccountType) -> (r: Account)
        ensures
            r.name@ == name@,
            r.account_type == account_type,
            r.starting_balance == 0,
            r.cutoff is None,
    {
        Account {
            id: new_id(),
            name: name.to_string(),
            account_type,
            starting_balance: 0,
            cutoff: None,
        }
    }

    pub fn normal_balance(&self) -> (r: Side)
        ensures
            r == normal_side(self.account_type),
    {
        self.account_type.normal_balance()
    }

    /// Position of the account's type in listings.
    pub fn order(&self) -> (r: u8)
        ensures
            r == type_rank(self.account_type),
    {
        self.account_type.order()
    }

    /// A copy of this account.
    pub fn duplicate(&self) -> (r: Account)
        ensures
            r == *self,
    {
        Account {
            id: self.id,
            name: self.name.clone(),
            account_type: self.account_type,
            starting_balance: self.starting_balance,
            cutoff: self.cutoff,
        }
    }
}

} // verus!
