use vstd::prelude::*;
use vstd::std_specs::iter::IteratorSpec;
use crate::account::{involves, new_id, type_rank, Account, Transaction};
use crate::date::{date_lt, valid_date, Date, MIN_YEAR};
use crate::error::{id_text, BooksError};
use crate::modifier::{wf_modifier, Modifier};
use crate::schedule::{wf_schedule, Schedule};
use crate::scheduler::{generated, some_run_fails, wf_scheduler, Scheduler};
use crate::sort::{seconds, sort_by_date, stable_sort};

verus! {

/// The version written into new ledgers.
pub const VERSION: &'static str = "0.1.0";

pub const MSG_TWO_ENTRIES: &'static str = "A transaction needs at least two entries (double entry required is on).";

pub const MSG_ONE_ENTRY: &'static str = "A transaction must have at least one entry";

pub const MSG_BAD_DATE: &'static str = "An entry is dated on a day that is not in the calendar.";

pub const MSG_RECONCILED: &'static str = "A reconciled entry can not be changed.";

pub const MSG_BEFORE_CUTOFF: &'static str = "An entry can not be dated before its account's reconciliation cutoff.";

pub const MSG_NO_SCHEDULE_ENTRY: &'static str = "A schedule must have at least one transaction entry";

pub const MSG_SCHEDULE_TIMING: &'static str = "A schedule needs valid dates and a positive frequency.";

#[derive(Clone, Copy, Debug, PartialEq, Eq, Structural)]
pub struct Settings {
    pub require_double_entry: bool,
}

/// The book of accounts: accounts, transactions, the scheduler of recurring transactions and
/// the settings.
#[derive(Debug)]
pub struct Books {
    pub id: u128,
    pub name: String,
    pub version: String,
    pub accounts: Vec<Account>,
    pub scheduler: Scheduler,
    pub transactions: Vec<Transaction>,
    pub settings: Settings,
}

pub open spec fn has_account(accs: Seq<Account>, id: u128) -> bool {
    exists|i: int| 0 <= i < accs.len() && (#[trigger] accs[i]).id == id
}

/// The account of the list with the given id.
pub open spec fn account_with(accs: Seq<Account>, id: u128) -> Account {
    accs[choose|i: int| 0 <= i < accs.len() && (#[trigger] accs[i]).id == id]
}

pub open spec fn unique_ids(accs: Seq<Account>) -> bool {
    forall|i: int, j: int| 0 <= i < j < accs.len() ==> accs[i].id != accs[j].id
}

pub open spec fn wf_books(b: Books) -> bool {
    &&& unique_ids(b.accounts@)
    &&& wf_scheduler(b.scheduler)
}

/// Position of the first entry of `es` whose account is not in `accs`; -1 when there is none.
pub open spec fn first_unknown(accs: Seq<Account>, es: Seq<crate::account::Entry>) -> int
    decreases es.len(),
{
    if es.len() == 0 {
        -1
    } else if !has_account(accs, es[0].account_id) {
        0
    } else {
        let k = first_unknown(accs, es.drop_first());
        if k < 0 { -1 } else { k + 1 }
    }
}

/// The entry is dated before the reconciliation cutoff of its account.
pub open spec fn before_cutoff(accs: Seq<Account>, e: crate::account::Entry) -> bool {
    account_with(accs, e.account_id).cutoff matches Some(c) && date_lt(e.date, c.date)
}

pub open spec fn has_reconciled(t: Transaction) -> bool {
    exists|i: int| 0 <= i < t.entries@.len() && (#[trigger] t.entries@[i]).reconciled
}

/// Why transaction `t` cannot enter the ledger `b`, as the message of the error; `None` when it
/// can. The checks come in this order: unknown account, too few entries, a day not in the
/// calendar, an entry already reconciled, an entry dated before its account's cutoff.
pub open spec fn transaction_error(b: Books, t: Transaction) -> Option<Seq<char>> {
    let es = t.entries@;
    let k = first_unknown(b.accounts@, es);
    if k >= 0 {
        Some("Account not found for id: "@ + id_text(es[k].account_id))
    } else if b.settings.require_double_entry && es.len() < 2 {
        Some(MSG_TWO_ENTRIES@)
    } else if es.len() < 1 {
        Some(MSG_ONE_ENTRY@)
    } else if exists|i: int| 0 <= i < es.len() && !valid_date(#[trigger] es[i].date) {
        Some(MSG_BAD_DATE@)
    } else if has_reconciled(t) {
        Some(MSG_RECONCILED@)
    } else if exists|i: int| 0 <= i < es.len() && before_cutoff(b.accounts@, #[trigger] es[i]) {
        Some(MSG_BEFORE_CUTOFF@)
    } else {
        None
    }
}

/// With double entry required, a transaction of fewer than two entries never enters the ledger.
pub proof fn lemma_double_entry_gate(b: Books, t: Transaction)
    requires
        b.settings.require_double_entry,
        t.entries@.len() < 2,
    ensures
        transaction_error(b, t) is Some,
{
}

/// Position of the first transaction with id `id`; -1 when there is none.
pub open spec fn position_of(ts: Seq<Transaction>, id: u128) -> int
    decreases ts.len(),
{
    if ts.len() == 0 {
        -1
    } else if ts[0].id == id {
        0
    } else {
        let k = position_of(ts.drop_first(), id);
        if k < 0 { -1 } else { k + 1 }
    }
}

/// The ledger `b2` is `b` with other transactions.
pub open spec fn same_but_transactions(b: Books, b2: Books) -> bool {
    &&& b2.id == b.id
    &&& b2.name == b.name
    &&& b2.version == b.version
    &&& b2.accounts@ == b.accounts@
    &&& b2.scheduler.schedules@ == b.scheduler.schedules@
    &&& b2.scheduler.modifiers@ == b.scheduler.modifiers@
    &&& b2.scheduler.end_date == b.scheduler.end_date
    &&& b2.settings == b.settings
}

/// The ledger `b2` is `b` with another scheduler.
pub open spec fn same_but_scheduler(b: Books, b2: Books) -> bool {
    &&& b2.id == b.id
    &&& b2.name == b.name
    &&& b2.version == b.version
    &&& b2.accounts@ == b.accounts@
    &&& b2.transactions@ == b.transactions@
    &&& b2.settings == b.settings
}

/// The ledger `b2` is `b` with other accounts.
pub open spec fn same_but_accounts(b: Books, b2: Books) -> bool {
    &&& b2.id == b.id
    &&& b2.name == b.name
    &&& b2.version == b.version
    &&& b2.transactions@ == b.transactions@
    &&& b2.scheduler.schedules@ == b.scheduler.schedules@
    &&& b2.scheduler.modifiers@ == b.scheduler.modifiers@
    &&& b2.scheduler.end_date == b.scheduler.end_date
    &&& b2.settings == b.settings
}

/// The date of the first entry of `t`; the earliest date for a transaction without entries.
pub open spec fn first_date(t: Transaction) -> Date {
    if t.entries@.len() > 0 {
        t.entries@[0].date
    } else {
        Date { year: MIN_YEAR, month: 1, day: 1 }
    }
}

/// `ts` keyed by the date of their first entry.
pub open spec fn keyed_by_first_date(ts: Seq<Transaction>) -> Seq<(Date, Transaction)> {
    ts.map_values(|t: Transaction| (first_date(t), t))
}

/// `ts` ordered by the date of their first entry, ties kept in order.
pub open spec fn by_first_date(ts: Seq<Transaction>) -> Seq<Transaction> {
    stable_sort(keyed_by_first_date(ts)).map_values(|p: (Date, Transaction)| p.1)
}

/// The position of the account with id `id`.
pub fn find_account(accs: &Vec<Account>, id: u128) -> (r: Option<usize>)
    requires
        unique_ids(accs@),
    ensures
        r is None <==> !has_account(accs@, id),
        r matches Some(i) ==> i < accs@.len() && accs@[i as int] == account_with(accs@, id)
            && accs@[i as int].id == id,
{
    let mut i: usize = 0;
    while i < accs.len()
        invariant
            i <= accs@.len(),
            unique_ids(accs@),
            forall|j: int| 0 <= j < i ==> (#[trigger] accs@[j]).id != id,
        decreases accs@.len() - i,
    {
        if accs[i].id == id {
            proof {
                let c = choose|k: int| 0 <= k < accs@.len() && (#[trigger] accs@[k]).id == id;
                if c != i {
                    if c < i {
                        assert(accs@[c].id != id);
                    } else {
                        assert(accs@[i as int].id != accs@[c].id);
                    }
                }
            }
            return Some(i);
        }
        i = i + 1;
    }
    None
}

/// The position of the first transaction with id `id`.
pub fn find_transaction(ts: &Vec<Transaction>, id: u128) -> (r: Option<usize>)
    ensures
        r is None <==> position_of(ts@, id) < 0,
        r matches Some(i) ==> i as int == position_of(ts@, id),
        position_of(ts@, id) < ts@.len(),
        position_of(ts@, id) >= 0 ==> ts@[position_of(ts@, id)].id == id,
{
    let mut i: usize = 0;
    proof {
        lemma_position_of(ts@, id, 0);
    }
    while i < ts.len()
        invariant
            i <= ts@.len(),
            forall|j: int| 0 <= j < i ==> (#[trigger] ts@[j]).id != id,
            position_of(ts@, id) < ts@.len(),
            position_of(ts@, id) >= 0 ==> ts@[position_of(ts@, id)].id == id && forall|j: int|
                0 <= j < position_of(ts@, id) ==> (#[trigger] ts@[j]).id != id,
            position_of(ts@, id) < 0 ==> forall|j: int| 0 <= j < ts@.len() ==> (#[trigger] ts@[j]).id != id,
        decreases ts@.len() - i,
    {
        if ts[i].id == id {
            return Some(i);
        }
        i = i + 1;
    }
    None
}

proof fn lemma_position_of(ts: Seq<Transaction>, id: u128, d: int)
    ensures
        position_of(ts, id) < ts.len(),
        position_of(ts, id) >= 0 ==> ts[position_of(ts, id)].id == id && forall|j: int|
            0 <= j < position_of(ts, id) ==> (#[trigger] ts[j]).id != id,
        position_of(ts, id) < 0 ==> forall|j: int| 0 <= j < ts.len() ==> (#[trigger] ts[j]).id != id,
    decreases ts.len(),
{
    if ts.len() > 0 {
        lemma_position_of(ts.drop_first(), id, d);
        assert forall|j: int| 1 <= j < ts.len() implies ts[j] == ts.drop_first()[j - 1] by {}
    }
}

proof fn lemma_first_unknown(accs: Seq<Account>, es: Seq<crate::account::Entry>)
    ensures
        first_unknown(accs, es) < es.len(),
        first_unknown(accs, es) >= 0 ==> !has_account(accs, es[first_unknown(accs, es)].account_id)
            && forall|j: int|
            0 <= j < first_unknown(accs, es) ==> has_account(accs, (#[trigger] es[j]).account_id),
        first_unknown(accs, es) < 0 ==> forall|j: int|
            0 <= j < es.len() ==> has_account(accs, (#[trigger] es[j]).account_id),
    decreases es.len(),
{
    if es.len() > 0 {
        lemma_first_unknown(accs, es.drop_first());
        assert forall|j: int| 1 <= j < es.len() implies es[j] == es.drop_first()[j - 1] by {}
    }
}

impl Books {
    pub fn build_empty(name: &str) -> (r: Books)
        ensures
            wf_books(r),
            r.name@ == name@,
            r.version@ == VERSION@,
            r.accounts@.len() == 0,
            r.transactions@.len() == 0,
            r.scheduler.schedules@.len() == 0,
            r.scheduler.modifiers@.len() == 0,
            r.scheduler.end_date is None,
            r.settings == (Settings { require_double_entry: false }),
    {
        Books {
            id: new_id(),
            name: name.to_string(),
            version: VERSION.to_string(),
            accounts: Vec::new(),
            scheduler: Scheduler::build_empty(),
            transactions: Vec::new(),
            settings: Settings { require_double_entry: false },
        }
    }

    /// Whether an account with id `id` exists; no id at all is accepted.
    pub fn valid_account_id(&self, id: Option<u128>) -> (r: bool)
        requires
            wf_books(*self),
        ensures
            r == match id {
                Some(k) => has_account(self.accounts@, k),
                None => true,
            },
    {
        match id {
            Some(k) => find_account(&self.accounts, k).is_some(),
            None => true,
        }
    }

    /// Adds `account` unless an account with its id exists, in which case nothing changes. A
    /// reconciliation cutoff that comes with it is dropped: cutoffs come from reconciling only.
    pub fn add_account(&mut self, account: Account)
        requires
            wf_books(*old(self)),
        ensures
            wf_books(*final(self)),
            same_but_accounts(*old(self), *final(self)),
            has_account(old(self).accounts@, account.id) ==> final(self).accounts@ == old(
                self,
            ).accounts@,
            !has_account(old(self).accounts@, account.id) ==> final(self).accounts@ == old(
                self,
            ).accounts@.push(Account { cutoff: None, ..account }),
    {
        if find_account(&self.accounts, account.id).is_some() {
            return;
        }
        let mut account = account;
        account.cutoff = None;
        let ghost before = self.accounts@;
        self.accounts.push(account);
        proof {
            let accs = self.accounts@;
            assert forall|i: int, j: int| 0 <= i < j < accs.len() implies accs[i].id
                != accs[j].id by {
                assert(accs[i] == before[i]);
                if j < before.len() {
                    assert(accs[j] == before[j]);
                }
            }
        }
    }

    /// Replaces the account with the id of `account`. Refused when it is unknown, when its cutoff
    /// differs from the stored one, when its type changes while transactions use it, or when its
    /// starting balance changes once it has a cutoff.
    pub fn update_account(&mut self, account: Account) -> (r: Result<(), BooksError>)
        requires
            wf_books(*old(self)),
        ensures
            wf_books(*final(self)),
            same_but_accounts(*old(self), *final(self)),
            r is Ok <==> has_account(old(self).accounts@, account.id) && ({
                let a = account_with(old(self).accounts@, account.id);
                &&& account.cutoff == a.cutoff
                &&& (account.account_type != a.account_type ==> forall|i: int|
                    0 <= i < old(self).transactions@.len() ==> !involves(
                        #[trigger] old(self).transactions@[i],
                        account.id,
                    ))
                &&& (account.starting_balance != a.starting_balance ==> a.cutoff is None)
            }),
            r is Err ==> final(self).accounts@ == old(self).accounts@,
            r is Ok ==> exists|i: int|
                0 <= i < old(self).accounts@.len() && old(self).accounts@[i].id == account.id
                    && final(self).accounts@ == old(self).accounts@.update(i, account),
    {
        let i = match find_account(&self.accounts, account.id) {
            None => {
                return Err(BooksError::with_id("Account ", account.id, " not found."));
            },
            Some(i) => i,
        };
        if account.cutoff != self.accounts[i].cutoff {
            return Err(BooksError::from_str("The reconciliation cutoff of an account is set by reconciling only."));
        }
        if account.account_type != self.accounts[i].account_type {
            if self.any_transaction_involves(account.id) {
                return Err(BooksError::from_str("The type of an account with transactions can not change."));
            }
        }
        if account.starting_balance != self.accounts[i].starting_balance
            && self.accounts[i].cutoff.is_some() {
            return Err(BooksError::from_str("The starting balance of a reconciled account can not change."));
        }
        let ghost before = self.accounts@;
        self.accounts.set(i, account);
        proof {
            let accs = self.accounts@;
            assert forall|p: int, q: int| 0 <= p < q < accs.len() implies accs[p].id
                != accs[q].id by {
                if p != i {
                    assert(accs[p] == before[p]);
                }
                if q != i {
                    assert(accs[q] == before[q]);
                }
            }
        }
        Ok(())
    }

    /// Whether a transaction of the ledger books on account `id`.
    fn any_transaction_involves(&self, id: u128) -> (r: bool)
        ensures
            r == exists|i: int|
                0 <= i < self.transactions@.len() && involves(#[trigger] self.transactions@[i], id),
    {
        let mut i: usize = 0;
        while i < self.transactions.len()
            invariant
                i <= self.transactions@.len(),
                forall|j: int| 0 <= j < i ==> !involves(#[trigger] self.transactions@[j], id),
            decreases self.transactions@.len() - i,
        {
            if self.transactions[i].involves_account(&id) {
                return true;
            }
            i = i + 1;
        }
        false
    }

    /// Removes the account with id `id`; refused when it is unknown or has transactions.
    pub fn delete_account(&mut self, id: &u128) -> (r: Result<(), BooksError>)
        requires
            wf_books(*old(self)),
        ensures
            wf_books(*final(self)),
            same_but_accounts(*old(self), *final(self)),
            !has_account(old(self).accounts@, *id) ==> (r matches Err(e) && e.error@ == "Account "@
                + id_text(*id) + " not found."@),
            has_account(old(self).accounts@, *id) && (exists|i: int|
                0 <= i < old(self).transactions@.len() && involves(
                    #[trigger] old(self).transactions@[i],
                    *id,
                )) ==> (r matches Err(e) && e.error@ == "Account "@ + id_text(*id)
                + " can not be deleted as it has transactions."@),
            r is Ok <==> has_account(old(self).accounts@, *id) && forall|i: int|
                0 <= i < old(self).transactions@.len() ==> !involves(
                    #[trigger] old(self).transactions@[i],
                    *id,
                ),
            r is Err ==> final(self).accounts@ == old(self).accounts@,
            r is Ok ==> exists|i: int|
                0 <= i < old(self).accounts@.len() && old(self).accounts@[i].id == *id
                    && final(self).accounts@ == old(self).accounts@.remove(i),
    {
        let i = match find_account(&self.accounts, *id) {
            None => {
                return Err(BooksError::with_id("Account ", *id, " not found."));
            },
            Some(i) => i,
        };
        if self.any_transaction_involves(*id) {
            return Err(BooksError::with_id("Account ", *id, " can not be deleted as it has transactions."));
        }
        let ghost before = self.accounts@;
        self.accounts.remove(i);
        proof {
            let accs = self.accounts@;
            assert forall|p: int, q: int| 0 <= p < q < accs.len() implies accs[p].id
                != accs[q].id by {
                let pp = if p < i { p } else { p + 1 };
                let qq = if q < i { q } else { q + 1 };
                assert(accs[p] == before[pp]);
                assert(accs[q] == before[qq]);
            }
        }
        Ok(())
    }

    /// Checks transaction `t` against the ledger; `None` when it may enter.
    fn validate_transaction(&self, t: &Transaction) -> (r: Option<BooksError>)
        requires
            wf_books(*self),
        ensures
            r is None <==> transaction_error(*self, *t) is None,
            r matches Some(e) ==> Some(e.error@) == transaction_error(*self, *t),
    {
        let mut i: usize = 0;
        proof {
            lemma_first_unknown(self.accounts@, t.entries@);
        }
        while i < t.entries.len()
            invariant
                i <= t.entries@.len(),
                wf_books(*self),
                first_unknown(self.accounts@, t.entries@) < 0 || first_unknown(
                    self.accounts@,
                    t.entries@,
                ) >= i,
                first_unknown(self.accounts@, t.entries@) < t.entries@.len(),
                first_unknown(self.accounts@, t.entries@) >= 0 ==> !has_account(
                    self.accounts@,
                    t.entries@[first_unknown(self.accounts@, t.entries@)].account_id,
                ) && forall|j: int|
                    0 <= j < first_unknown(self.accounts@, t.entries@) ==> has_account(
                        self.accounts@,
                        (#[trigger] t.entries@[j]).account_id,
                    ),
                first_unknown(self.accounts@, t.entries@) < 0 ==> forall|j: int|
                    0 <= j < t.entries@.len() ==> has_account(
                        self.accounts@,
                        (#[trigger] t.entries@[j]).account_id,
                    ),
            decreases t.entries@.len() - i,
        {
            let aid = t.entries[i].account_id;
            if find_account(&self.accounts, aid).is_none() {
                let e = BooksError::with_id("Account not found for id: ", aid, "");
                proof {
                    reveal_strlit("");
                    let fu = first_unknown(self.accounts@, t.entries@);
                    if fu > i {
                        assert(has_account(self.accounts@, t.entries@[i as int].account_id));
                    }
                    assert(fu == i);
                    assert(e.error@ =~= "Account not found for id: "@ + id_text(aid));
                }
                return Some(e);
            }
            i = i + 1;
        }
        proof {
            assert(first_unknown(self.accounts@, t.entries@) < 0);
        }
        if self.settings.require_double_entry && t.entries.len() < 2 {
            return Some(BooksError::from_str(MSG_TWO_ENTRIES));
        } else if t.entries.len() < 1 {
            return Some(BooksError::from_str(MSG_ONE_ENTRY));
        }
        let mut d: usize = 0;
        while d < t.entries.len()
            invariant
                d <= t.entries@.len(),
                first_unknown(self.accounts@, t.entries@) < 0,
                !(self.settings.require_double_entry && t.entries@.len() < 2),
                t.entries@.len() >= 1,
                forall|j: int| 0 <= j < d ==> valid_date(#[trigger] t.entries@[j].date),
            decreases t.entries@.len() - d,
        {
            if !crate::schedule::is_valid(t.entries[d].date) {
                assert(!valid_date(t.entries@[d as int].date));
                return Some(BooksError::from_str(MSG_BAD_DATE));
            }
            d = d + 1;
        }
        let mut k: usize = 0;
        while k < t.entries.len()
            invariant
                k <= t.entries@.len(),
                forall|j: int| 0 <= j < t.entries@.len() ==> valid_date(#[trigger] t.entries@[j].date),
                first_unknown(self.accounts@, t.entries@) < 0,
                !(self.settings.require_double_entry && t.entries@.len() < 2),
                t.entries@.len() >= 1,
                forall|j: int| 0 <= j < k ==> !(#[trigger] t.entries@[j]).reconciled,
            decreases t.entries@.len() - k,
        {
            if t.entries[k].reconciled {
                assert(t.entries@[k as int].reconciled);
                return Some(BooksError::from_str(MSG_RECONCILED));
            }
            k = k + 1;
        }
        let mut m: usize = 0;
        while m < t.entries.len()
            invariant
                m <= t.entries@.len(),
                wf_books(*self),
                forall|j: int|
                    0 <= j < t.entries@.len() ==> has_account(
                        self.accounts@,
                        (#[trigger] t.entries@[j]).account_id,
                    ),
                forall|j: int| 0 <= j < m ==> !before_cutoff(self.accounts@, #[trigger] t.entries@[j]),
                first_unknown(self.accounts@, t.entries@) < 0,
                !(self.settings.require_double_entry && t.entries@.len() < 2),
                t.entries@.len() >= 1,
                forall|j: int| 0 <= j < t.entries@.len() ==> valid_date(#[trigger] t.entries@[j].date),
                !has_reconciled(*t),
            decreases t.entries@.len() - m,
        {
            let e = &t.entries[m];
            assert(has_account(self.accounts@, t.entries@[m as int].account_id));
            let ai = find_account(&self.accounts, e.account_id).unwrap();
            match self.accounts[ai].cutoff {
                Some(c) => {
                    if e.date.le(&c.date) && e.date != c.date {
                        assert(before_cutoff(self.accounts@, t.entries@[m as int]));
                        return Some(BooksError::from_str(MSG_BEFORE_CUTOFF));
                    }
                },
                None => {},
            }
            m = m + 1;
        }
        None
    }

    /// Records transaction `t` at the end of the ledger when it passes validation.
    pub fn add_transaction(&mut self, t: Transaction) -> (r: Result<(), BooksError>)
        requires
            wf_books(*old(self)),
        ensures
            wf_books(*final(self)),
            same_but_transactions(*old(self), *final(self)),
            r is Ok <==> transaction_error(*old(self), t) is None,
            r matches Err(e) ==> Some(e.error@) == transaction_error(*old(self), t),
            r is Ok ==> final(self).transactions@ == old(self).transactions@.push(t),
            r is Err ==> final(self).transactions@ == old(self).transactions@,
    {
        match self.validate_transaction(&t) {
            Some(e) => {
                return Err(e);
            },
            None => {},
        }
        let ghost before = self.transactions@;
        self.transactions.push(t);
        Ok(())
    }

    /// Replaces the first transaction with the id of `t` when `t` passes validation and the
    /// stored one has no reconciled entry.
    pub fn update_transaction(&mut self, t: Transaction) -> (r: Result<(), BooksError>)
        requires
            wf_books(*old(self)),
        ensures
            wf_books(*final(self)),
            same_but_transactions(*old(self), *final(self)),
            transaction_error(*old(self), t) matches Some(m) ==> (r matches Err(e) && e.error@ == m),
            r is Ok <==> transaction_error(*old(self), t) is None && position_of(
                old(self).transactions@,
                t.id,
            ) >= 0 && !has_reconciled(old(self).transactions@[position_of(old(self).transactions@, t.id)]),
            r is Ok ==> final(self).transactions@ == old(self).transactions@.update(
                position_of(old(self).transactions@, t.id),
                t,
            ),
            transaction_error(*old(self), t) is None && position_of(old(self).transactions@, t.id)
                < 0 ==> (r matches Err(e) && e.error@ == "Transaction not found"@),
            r is Err ==> final(self).transactions@ == old(self).transactions@,
    {
        match self.validate_transaction(&t) {
            Some(e) => {
                return Err(e);
            },
            None => {},
        }
        let i = match find_transaction(&self.transactions, t.id) {
            None => {
                let e = BooksError::from_str("Transaction not found");
                return Err(e);
            },
            Some(i) => i,
        };
        if self.transactions[i].has_reconciled_entry() {
            return Err(BooksError::from_str(MSG_RECONCILED));
        }
        let ghost before = self.transactions@;
        self.transactions.set(i, t);
        Ok(())
    }

    /// Removes the first transaction with id `id`, unless one of its entries is reconciled.
    pub fn delete_transaction(&mut self, id: &u128) -> (r: Result<(), BooksError>)
        requires
            wf_books(*old(self)),
        ensures
            wf_books(*final(self)),
            same_but_transactions(*old(self), *final(self)),
            position_of(old(self).transactions@, *id) < 0 ==> (r matches Err(e) && e.error@
                == "Transaction "@ + id_text(*id) + " not found."@),
            r is Ok <==> position_of(old(self).transactions@, *id) >= 0 && !has_reconciled(
                old(self).transactions@[position_of(old(self).transactions@, *id)],
            ),
            r is Ok ==> final(self).transactions@ == old(self).transactions@.remove(
                position_of(old(self).transactions@, *id),
            ),
            r is Err ==> final(self).transactions@ == old(self).transactions@,
    {
        let i = match find_transaction(&self.transactions, *id) {
            None => {
                return Err(BooksError::with_id("Transaction ", *id, " not found."));
            },
            Some(i) => i,
        };
        if self.transactions[i].has_reconciled_entry() {
            return Err(BooksError::from_str(MSG_RECONCILED));
        }
        let ghost before = self.transactions@;
        self.transactions.remove(i);
        Ok(())
    }

    pub fn transactions(&self) -> (r: &[Transaction])
        ensures
            r@ == self.transactions@,
    {
        self.transactions.as_slice()
    }

    /// A copy of the first transaction with id `transaction_id`.
    pub fn transaction(&self, transaction_id: u128) -> (r: Option<Transaction>)
        ensures
            r is None <==> position_of(self.transactions@, transaction_id) < 0,
            r matches Some(t) ==> {
                let s = self.transactions@[position_of(self.transactions@, transaction_id)];
                &&& t.id == s.id
                &&& t.entries@ == s.entries@
                &&& t.status == s.status
                &&& t.schedule_id == s.schedule_id
            },
    {
        match find_transaction(&self.transactions, transaction_id) {
            None => None,
            Some(i) => Some(self.transactions[i].duplicate()),
        }
    }

    /// Checks schedule `s` against the ledger; `None` when it may enter.
    fn validate_schedule(&self, s: &Schedule) -> (r: Option<BooksError>)
        requires
            wf_books(*self),
        ensures
            r is None <==> schedule_acceptable(*self, *s),
            r matches Some(e) ==> Some(e.error@) == schedule_error(*self, *s),
    {
        if s.entries.len() < 1 {
            return Some(BooksError::from_str(MSG_NO_SCHEDULE_ENTRY));
        }
        let mut i: usize = 0;
        while i < s.entries.len()
            invariant
                i <= s.entries@.len(),
                wf_books(*self),
                forall|j: int| 0 <= j < i ==> has_account(self.accounts@, (#[trigger] s.entries@[j]).account_id),
            decreases s.entries@.len() - i,
        {
            let aid = s.entries[i].account_id;
            if find_account(&self.accounts, aid).is_none() {
                let e = BooksError::with_id("Invalid account: ", aid, "");
                proof {
                    reveal_strlit("");
                    lemma_first_unknown_schedule(self.accounts@, s.entries@, i as int);
                    assert(e.error@ =~= "Invalid account: "@ + id_text(aid));
                }
                return Some(e);
            }
            i = i + 1;
        }
        proof {
            lemma_first_unknown_none(self.accounts@, s.entries@);
        }
        if !s.has_valid_timing() {
            return Some(BooksError::from_str(MSG_SCHEDULE_TIMING));
        }
        None
    }

    /// Adds schedule `s` when it has an entry and every account it names exists. Its dates must
    /// also be dates of the calendar and its frequency positive: with a frequency below one,
    /// producing its occurrences would never come to an end.
    pub fn add_schedule(&mut self, s: Schedule) -> (r: Result<(), BooksError>)
        requires
            wf_books(*old(self)),
        ensures
            wf_books(*final(self)),
            same_but_scheduler(*old(self), *final(self)),
            r is Ok <==> schedule_acceptable(*old(self), s),
            r matches Err(e) ==> Some(e.error@) == schedule_error(*old(self), s),
            r is Ok ==> final(self).scheduler.schedules@ == old(self).scheduler.schedules@.push(s),
            r is Err ==> final(self).scheduler.schedules@ == old(self).scheduler.schedules@,
            final(self).scheduler.modifiers@ == old(self).scheduler.modifiers@,
            final(self).scheduler.end_date == old(self).scheduler.end_date,
    {
        match self.validate_schedule(&s) {
            Some(e) => {
                return Err(e);
            },
            None => {},
        }
        self.scheduler.add_schedule(s);
        Ok(())
    }

    /// Replaces the schedule with the id of `s` when `s` passes the checks of `add_schedule`.
    pub fn update_schedule(&mut self, s: Schedule) -> (r: Result<(), BooksError>)
        requires
            wf_books(*old(self)),
        ensures
            wf_books(*final(self)),
            same_but_scheduler(*old(self), *final(self)),
            !schedule_acceptable(*old(self), s) ==> (r matches Err(e) && Some(e.error@)
                == schedule_error(*old(self), s)),
            r is Ok <==> schedule_acceptable(*old(self), s) && exists|i: int|
                0 <= i < old(self).scheduler.schedules@.len() && (#[trigger] old(
                    self,
                ).scheduler.schedules@[i]).id == s.id,
            schedule_acceptable(*old(self), s) && (forall|i: int|
                0 <= i < old(self).scheduler.schedules@.len() ==> (#[trigger] old(
                    self,
                ).scheduler.schedules@[i]).id != s.id) ==> (r matches Err(e) && e.error@
                == "Schedule not found"@),
            r is Err ==> final(self).scheduler.schedules@ == old(self).scheduler.schedules@,
            r is Ok ==> exists|i: int|
                0 <= i < old(self).scheduler.schedules@.len() && (forall|j: int|
                    0 <= j < i ==> (#[trigger] old(self).scheduler.schedules@[j]).id != s.id)
                    && old(self).scheduler.schedules@[i].id == s.id
                    && final(self).scheduler.schedules@ == old(self).scheduler.schedules@.update(
                    i,
                    s,
                ),
            final(self).scheduler.modifiers@ == old(self).scheduler.modifiers@,
            final(self).scheduler.end_date == old(self).scheduler.end_date,
    {
        match self.validate_schedule(&s) {
            Some(e) => {
                return Err(e);
            },
            None => {},
        }
        let r = self.scheduler.update_schedule(s);
        r
    }

    /// Removes the schedule with id `id`; refused when it is unknown or transactions came from it.
    pub fn delete_schedule(&mut self, id: &u128) -> (r: Result<(), BooksError>)
        requires
            wf_books(*old(self)),
        ensures
            wf_books(*final(self)),
            same_but_scheduler(*old(self), *final(self)),
            final(self).scheduler.modifiers@ == old(self).scheduler.modifiers@,
            final(self).scheduler.end_date == old(self).scheduler.end_date,
            r is Ok <==> (exists|i: int|
                0 <= i < old(self).scheduler.schedules@.len() && (#[trigger] old(
                    self,
                ).scheduler.schedules@[i]).id == *id) && forall|i: int|
                0 <= i < old(self).transactions@.len() ==> (#[trigger] old(
                    self,
                ).transactions@[i]).schedule_id != Some(*id),
            r is Err ==> final(self).scheduler.schedules@ == old(self).scheduler.schedules@,
            r is Ok ==> exists|i: int|
                0 <= i < old(self).scheduler.schedules@.len() && old(self).scheduler.schedules@[i].id
                    == *id && final(self).scheduler.schedules@ == old(
                    self,
                ).scheduler.schedules@.remove(i),
    {
        let mut i: usize = 0;
        let mut found: Option<usize> = None;
        while i < self.scheduler.schedules.len()
            invariant
                i <= self.scheduler.schedules@.len(),
                wf_books(*self),
                found matches Some(k) ==> k < self.scheduler.schedules@.len()
                    && self.scheduler.schedules@[k as int].id == *id,
                found is None ==> forall|j: int|
                    0 <= j < i ==> (#[trigger] self.scheduler.schedules@[j]).id != *id,
            decreases self.scheduler.schedules@.len() - i,
        {
            if found.is_none() && self.scheduler.schedules[i].id == *id {
                found = Some(i);
            }
            i = i + 1;
        }
        let k = match found {
            None => {
                return Err(BooksError::with_id("Schedule ", *id, " not found."));
            },
            Some(k) => k,
        };
        let mut j: usize = 0;
        while j < self.transactions.len()
            invariant
                j <= self.transactions@.len(),
                wf_books(*self),
                forall|m: int| 0 <= m < j ==> (#[trigger] self.transactions@[m]).schedule_id != Some(*id),
            decreases self.transactions@.len() - j,
        {
            if self.transactions[j].schedule_id == Some(*id) {
                return Err(BooksError::with_id("Schedule ", *id, " can not be deleted as it has transactions."));
            }
            j = j + 1;
        }
        let ghost before = self.scheduler.schedules@;
        self.scheduler.schedules.remove(k);
        proof {
            assert forall|m: int| 0 <= m < self.scheduler.schedules@.len() implies wf_schedule(
                #[trigger] self.scheduler.schedules@[m],
            ) by {
                let mm = if m < k { m } else { m + 1 };
                assert(self.scheduler.schedules@[m] == before[mm]);
            }
        }
        Ok(())
    }

    pub fn schedules(&self) -> (r: &[Schedule])
        ensures
            r@ == self.scheduler.schedules@,
    {
        self.scheduler.schedules()
    }

    /// The horizon up to which schedules have produced transactions.
    pub fn end_date(&self) -> (r: Option<Date>)
        ensures
            r == self.scheduler.end_date,
    {
        self.scheduler.end_date()
    }

    /// Adds a modifier definition that schedules can bind to.
    pub fn add_modifier(&mut self, modifier: Modifier) -> (r: Result<(), BooksError>)
        requires
            wf_books(*old(self)),
        ensures
            wf_books(*final(self)),
            same_but_scheduler(*old(self), *final(self)),
            final(self).scheduler.schedules@ == old(self).scheduler.schedules@,
            final(self).scheduler.end_date == old(self).scheduler.end_date,
            r is Ok <==> wf_modifier(modifier) && forall|i: int|
                0 <= i < old(self).scheduler.modifiers@.len() ==> (#[trigger] old(
                    self,
                ).scheduler.modifiers@[i]).id != modifier.id,
            r is Ok ==> final(self).scheduler.modifiers@ == old(self).scheduler.modifiers@.push(
                modifier,
            ),
            r is Err ==> final(self).scheduler.modifiers@ == old(self).scheduler.modifiers@,
    {
        self.scheduler.add_modifier(modifier)
    }

    /// Produces the scheduled transactions up to `end_date`, adds them to the ledger and orders
    /// the whole ledger by the date of each transaction's first entry, ties kept in order. On an
    /// error nothing changes.
    pub fn generate(&mut self, end_date: Date) -> (r: Result<(), BooksError>)
        requires
            wf_books(*old(self)),
            valid_date(end_date),
        ensures
            wf_books(*final(self)),
            final(self).accounts@ == old(self).accounts@,
            final(self).settings == old(self).settings,
            r is Err ==> final(self).transactions@ == old(self).transactions@
                && final(self).scheduler.schedules@ == old(self).scheduler.schedules@
                && final(self).scheduler.end_date == old(self).scheduler.end_date,
            r is Err ==> some_run_fails(
                old(self).scheduler.schedules@,
                end_date,
                old(self).scheduler.modifiers@,
            ),
            r is Ok ==> exists|gen: Seq<Transaction>|
                generated(old(self).scheduler, end_date, gen, final(self).scheduler)
                    && final(self).transactions@ == by_first_date(old(self).transactions@ + gen),
    {
        let mut gen = match self.scheduler.generate(end_date) {
            Err(e) => {
                return Err(e);
            },
            Ok(g) => g,
        };
        let ghost g = gen@;
        let mut all: Vec<Transaction> = Vec::new();
        std::mem::swap(&mut all, &mut self.transactions);
        let ghost old_ts = all@;
        all.append(&mut gen);
        let ghost combined = all@;
        assert(combined == old_ts + g);
        let keyed = key_by_first_date(all);
        let sorted = sort_by_date(keyed);
        self.transactions = seconds(sorted);
        Ok(())
    }
}

/// Why schedule `s` cannot enter the ledger `b`, as the message of the error; `None` when it can.
pub open spec fn schedule_error(b: Books, s: Schedule) -> Option<Seq<char>> {
    let k = first_unknown_template(b.accounts@, s.entries@);
    if s.entries@.len() < 1 {
        Some(MSG_NO_SCHEDULE_ENTRY@)
    } else if k >= 0 {
        Some("Invalid account: "@ + id_text(s.entries@[k].account_id))
    } else if !wf_schedule(s) {
        Some(MSG_SCHEDULE_TIMING@)
    } else {
        None
    }
}

pub open spec fn schedule_acceptable(b: Books, s: Schedule) -> bool {
    schedule_error(b, s) is None
}

/// Position of the first template of `es` whose account is not in `accs`; -1 when there is none.
pub open spec fn first_unknown_template(accs: Seq<Account>, es: Seq<crate::schedule::ScheduleEntry>) -> int
    decreases es.len(),
{
    if es.len() == 0 {
        -1
    } else if !has_account(accs, es[0].account_id) {
        0
    } else {
        let k = first_unknown_template(accs, es.drop_first());
        if k < 0 { -1 } else { k + 1 }
    }
}

proof fn lemma_first_unknown_schedule(accs: Seq<Account>, es: Seq<crate::schedule::ScheduleEntry>, i: int)
    requires
        0 <= i < es.len(),
        !has_account(accs, es[i].account_id),
        forall|j: int| 0 <= j < i ==> has_account(accs, (#[trigger] es[j]).account_id),
    ensures
        first_unknown_template(accs, es) == i,
    decreases i,
{
    if i > 0 {
        assert forall|j: int| 0 <= j < i - 1 implies has_account(accs, (#[trigger] es.drop_first()[j]).account_id) by {
            assert(es.drop_first()[j] == es[j + 1]);
        }
        assert(has_account(accs, es[0].account_id));
        lemma_first_unknown_schedule(accs, es.drop_first(), i - 1);
    }
}

proof fn lemma_first_unknown_none(accs: Seq<Account>, es: Seq<crate::schedule::ScheduleEntry>)
    requires
        forall|j: int| 0 <= j < es.len() ==> has_account(accs, (#[trigger] es[j]).account_id),
    ensures
        first_unknown_template(accs, es) < 0,
    decreases es.len(),
{
    if es.len() > 0 {
        assert forall|j: int| 0 <= j < es.len() - 1 implies has_account(accs, (#[trigger] es.drop_first()[j]).account_id) by {
            assert(es.drop_first()[j] == es[j + 1]);
        }
        assert(has_account(accs, es[0].account_id));
        lemma_first_unknown_none(accs, es.drop_first());
    }
}

/// Each transaction with the date of its first entry.
fn key_by_first_date(ts: Vec<Transaction>) -> (r: Vec<(Date, Transaction)>)
    ensures
        r@ == keyed_by_first_date(ts@),
{
    let ghost s = ts@;
    let mut ts = ts;
    let mut r: Vec<(Date, Transaction)> = Vec::new();
    while ts.len() > 0
        invariant
            s.len() == r@.len() + ts@.len(),
            ts@ == s.skip(r@.len() as int),
            r@ == keyed_by_first_date(s.take(r@.len() as int)),
        decreases ts@.len(),
    {
        let ghost k = r@.len() as int;
        let t = ts.remove(0);
        assert(t == s[k]);
        let d = if t.entries.len() > 0 {
            t.entries[0].date
        } else {
            Date { year: MIN_YEAR, month: 1, day: 1 }
        };
        r.push((d, t));
        proof {
            assert(keyed_by_first_date(s.take(k + 1)) =~= keyed_by_first_date(s.take(k)).push(
                (first_date(s[k]), s[k]),
            ));
            assert(ts@ =~= s.skip(k + 1));
        }
    }
    proof {
        assert(s.take(s.len() as int) =~= s);
    }
    r
}

/// `a` comes before `b` or equals it, comparing character by character; a prefix comes first.
pub open spec fn chars_le(a: Seq<char>, b: Seq<char>) -> bool
    decreases a.len(),
{
    if a.len() == 0 {
        true
    } else if b.len() == 0 {
        false
    } else if a[0] as u32 != b[0] as u32 {
        (a[0] as u32) < (b[0] as u32)
    } else {
        chars_le(a.drop_first(), b.drop_first())
    }
}

proof fn lemma_chars_le_total(a: Seq<char>, b: Seq<char>)
    ensures
        chars_le(a, b) || chars_le(b, a),
    decreases a.len(),
{
    if a.len() > 0 && b.len() > 0 && a[0] as u32 == b[0] as u32 {
        lemma_chars_le_total(a.drop_first(), b.drop_first());
    }
}

proof fn lemma_chars_le_trans(a: Seq<char>, b: Seq<char>, c: Seq<char>)
    requires
        chars_le(a, b),
        chars_le(b, c),
    ensures
        chars_le(a, c),
    decreases a.len(),
{
    if a.len() > 0 && b.len() > 0 && c.len() > 0 && a[0] as u32 == b[0] as u32 && b[0] as u32
        == c[0] as u32 {
        lemma_chars_le_trans(a.drop_first(), b.drop_first(), c.drop_first());
    }
}

/// Listing order of accounts: by type, then by name.
pub open spec fn listed_le(a: Account, b: Account) -> bool {
    type_rank(a.account_type) < type_rank(b.account_type) || (type_rank(a.account_type)
        == type_rank(b.account_type) && chars_le(a.name@, b.name@))
}

proof fn lemma_listed_total(a: Account, b: Account)
    ensures
        listed_le(a, b) || listed_le(b, a),
{
    lemma_chars_le_total(a.name@, b.name@);
}

proof fn lemma_listed_trans(a: Account, b: Account, c: Account)
    requires
        listed_le(a, b),
        listed_le(b, c),
    ensures
        listed_le(a, c),
{
    if type_rank(a.account_type) == type_rank(b.account_type) && type_rank(b.account_type)
        == type_rank(c.account_type) {
        lemma_chars_le_trans(a.name@, b.name@, c.name@);
    }
}

/// Whether `a` comes before `b` or equals it, character by character.
pub fn name_le(a: &String, b: &String) -> (r: bool)
    ensures
        r == chars_le(a@, b@),
{
    broadcast use vstd::string::axiom_spec_iter, vstd::string::next_postcondition;
    let mut ia = a.as_str().chars();
    let mut ib = b.as_str().chars();
    let ghost mut k: int = 0;
    loop
        invariant
            0 <= k <= a@.len(),
            k <= b@.len(),
            ia.remaining() == a@.skip(k),
            ib.remaining() == b@.skip(k),
            chars_le(a@, b@) == chars_le(a@.skip(k), b@.skip(k)),
            ia.obeys_prophetic_iter_laws(),
            ib.obeys_prophetic_iter_laws(),
        decreases a@.len() - k,
    {
        let x = ia.next();
        let y = ib.next();
        match x {
            None => {
                return true;
            },
            Some(cx) => match y {
                None => {
                    return false;
                },
                Some(cy) => {
                    if cx as u32 != cy as u32 {
                        return (cx as u32) < (cy as u32);
                    }
                    proof {
                        assert(a@.skip(k).drop_first() =~= a@.skip(k + 1));
                        assert(b@.skip(k).drop_first() =~= b@.skip(k + 1));
                        k = k + 1;
                    }
                },
            },
        }
    }
}

impl Books {
    /// Copies of the accounts, ordered by type (assets, liabilities, revenue, expenses, equity)
    /// and then by name.
    pub fn accounts(&self) -> (r: Vec<Account>)
        ensures
            r@.to_multiset() == self.accounts@.to_multiset(),
            forall|i: int, j: int| 0 <= i < j < r@.len() ==> listed_le(r@[i], r@[j]),
    {
        let mut r: Vec<Account> = Vec::new();
        let mut i: usize = 0;
        proof {
            assert(self.accounts@.take(0) =~= Seq::<Account>::empty());
            assert(r@ =~= Seq::<Account>::empty());
        }
        while i < self.accounts.len()
            invariant
                i <= self.accounts@.len(),
                r@.to_multiset() == self.accounts@.take(i as int).to_multiset(),
                forall|x: int, y: int| 0 <= x < y < r@.len() ==> listed_le(r@[x], r@[y]),
            decreases self.accounts@.len() - i,
        {
            let a = self.accounts[i].duplicate();
            let mut p: usize = r.len();
            while p > 0 && !(r[p - 1].order() < a.order() || (r[p - 1].order() == a.order()
                && name_le(&r[p - 1].name, &a.name)))
                invariant
                    p <= r@.len(),
                    forall|k: int| p <= k < r@.len() ==> !listed_le(#[trigger] r@[k], a),
                decreases p,
            {
                p = p - 1;
            }
            let ghost before = r@;
            proof {
                assert forall|k: int| p <= k < before.len() implies listed_le(a, #[trigger] before[k]) by {
                    lemma_listed_total(a, before[k]);
                }
                if p > 0 {
                    assert forall|k: int| 0 <= k < p implies listed_le(#[trigger] before[k], a) by {
                        if k < p - 1 {
                            lemma_listed_trans(before[k], before[p - 1], a);
                        }
                    }
                }
            }
            r.insert(p, a);
            proof {
                assert(self.accounts@.take(i as int + 1) == self.accounts@.take(i as int).push(
                    self.accounts@[i as int],
                ));
                vstd::seq_lib::to_multiset_insert(before, p as int, a);
                vstd::seq_lib::to_multiset_build(self.accounts@.take(i as int), self.accounts@[i as int]);
                assert forall|x: int, y: int| 0 <= x < y < r@.len() implies listed_le(r@[x], r@[y]) by {
                    if x < p && y > p {
                        lemma_listed_trans(before[x], a, before[y - 1]);
                    } else if x < p && y < p {
                    } else if x > p {
                        assert(r@[x] == before[x - 1] && r@[y] == before[y - 1]);
                    }
                }
            }
            i = i + 1;
        }
        proof {
            assert(self.accounts@.take(self.accounts@.len() as int) == self.accounts@);
        }
        r
    }
}

} // verus!
