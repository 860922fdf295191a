use vstd::prelude::*;
use crate::account::{entries_of, involves, normal_side, Entry, Side, Transaction};
use crate::books::{account_with, find_account, has_account, wf_books, Books};
use crate::date::Date;
use crate::error::{id_text, BooksError};
use crate::modifier::fits;
use crate::sort::{seconds, sort_by_date, stable_sort};

verus! {

/// The date of the first entry of `t` on account `a`.
pub open spec fn account_date(t: Transaction, a: u128) -> Date {
    entries_of(t.entries@, a)[0].date
}

/// The transactions of `ts` that book on `a`, each with the date of its entry on `a`.
pub open spec fn keyed_for(ts: Seq<Transaction>, a: u128) -> Seq<(Date, Transaction)> {
    ts.filter(|t: Transaction| involves(t, a)).map_values(|t: Transaction| (account_date(t, a), t))
}

/// The transactions of `ts` that book on `a`, ordered by the date of their entry on `a`; ties
/// keep the order of the ledger.
pub open spec fn ordered_for(ts: Seq<Transaction>, a: u128) -> Seq<Transaction> {
    stable_sort(keyed_for(ts, a)).map_values(|p: (Date, Transaction)| p.1)
}

/// The entries on `a` of the transactions `ts`, transaction after transaction.
pub open spec fn lines_of(ts: Seq<Transaction>, a: u128) -> Seq<Entry>
    decreases ts.len(),
{
    if ts.len() == 0 {
        Seq::empty()
    } else {
        lines_of(ts.drop_last(), a) + entries_of(ts.last().entries@, a)
    }
}

/// What entry `e` does to a balance kept on side `side`.
pub open spec fn signed_amount(e: Entry, side: Side) -> int {
    if e.entry_type == side {
        e.amount as int
    } else {
        -(e.amount as int)
    }
}

/// The balance after the entries `es`, from `start`.
pub open spec fn balance_after(start: int, es: Seq<Entry>, side: Side) -> int
    decreases es.len(),
{
    if es.len() == 0 {
        start
    } else {
        balance_after(start, es.drop_last(), side) + signed_amount(es.last(), side)
    }
}

/// Every running balance along `es` fits in `i128`.
pub open spec fn balances_fit(start: int, es: Seq<Entry>, side: Side) -> bool {
    forall|i: int| 0 < i <= es.len() ==> fits(#[trigger] balance_after(start, es.take(i), side))
}

/// The entries `es`, each carrying the running balance after it.
pub open spec fn with_balances(start: int, es: Seq<Entry>, side: Side) -> Seq<Entry> {
    Seq::new(
        es.len(),
        |i: int| Entry { balance: Some(balance_after(start, es.take(i + 1), side) as i128), ..es[i] },
    )
}

/// `e2` is `e` with, on account `a` only, another balance.
pub open spec fn same_but_balance(e: Entry, e2: Entry, a: u128) -> bool {
    &&& e2 == (Entry { balance: e2.balance, ..e })
    &&& e.account_id != a ==> e2.balance == e.balance
}

/// `t2` is a copy of `t` whose entries on `a` may carry other balances.
pub open spec fn annotated_copy(t: Transaction, t2: Transaction, a: u128) -> bool {
    &&& t2.id == t.id
    &&& t2.status == t.status
    &&& t2.schedule_id == t.schedule_id
    &&& t2.entries@.len() == t.entries@.len()
    &&& forall|k: int| 0 <= k < t.entries@.len() ==> same_but_balance(t.entries@[k], #[trigger] t2.entries@[k], a)
}

/// `ts` are the transactions of ledger `b` that book on account `a`, in the account's order,
/// with the running balance of the account written on their entries on it.
pub open spec fn account_view(b: Books, a: u128, ts: Seq<Transaction>) -> bool {
    let os = ordered_for(b.transactions@, a);
    &&& ts.len() == os.len()
    &&& lines_of(ts, a) == with_balances(account_start(b, a), account_lines(b, a), account_side(b, a))
    &&& forall|j: int| 0 <= j < ts.len() ==> annotated_copy(os[j], #[trigger] ts[j], a)
}

/// The entries on account `a` of ledger `b` with their running balances, in the account's order.
pub open spec fn account_lines(b: Books, a: u128) -> Seq<Entry> {
    lines_of(ordered_for(b.transactions@, a), a)
}

pub open spec fn account_start(b: Books, a: u128) -> int {
    account_with(b.accounts@, a).starting_balance as int
}

pub open spec fn account_side(b: Books, a: u128) -> Side {
    normal_side(account_with(b.accounts@, a).account_type)
}

proof fn lemma_entries_of_prefix(es: Seq<Entry>, a: u128, k: int)
    requires
        0 <= k <= es.len(),
    ensures
        entries_of(es.take(k), a) == entries_of(es, a).take(entries_of(es.take(k), a).len() as int),
        entries_of(es.take(k), a).len() <= entries_of(es, a).len(),
    decreases es.len() - k,
{
    reveal(Seq::filter);
    if k < es.len() {
        lemma_entries_of_prefix(es, a, k + 1);
        assert(es.take(k + 1).drop_last() == es.take(k));
        let f1 = entries_of(es.take(k), a);
        let f2 = entries_of(es.take(k + 1), a);
        let full = entries_of(es, a);
        assert(f1 == f2 || f1 == f2.drop_last());
        assert(f1 =~= full.take(f1.len() as int));
    } else {
        assert(es.take(k) == es);
    }
}

proof fn lemma_lines_prefix(ts: Seq<Transaction>, a: u128, j: int)
    requires
        0 <= j <= ts.len(),
    ensures
        lines_of(ts.take(j), a) == lines_of(ts, a).take(lines_of(ts.take(j), a).len() as int),
        lines_of(ts.take(j), a).len() <= lines_of(ts, a).len(),
    decreases ts.len() - j,
{
    if j < ts.len() {
        lemma_lines_prefix(ts, a, j + 1);
        assert(ts.take(j + 1).drop_last() == ts.take(j));
        let l1 = lines_of(ts.take(j), a);
        let l2 = lines_of(ts.take(j + 1), a);
        assert(l1 =~= l2.take(l1.len() as int));
        assert(l1 =~= lines_of(ts, a).take(l1.len() as int));
    } else {
        assert(ts.take(j) == ts);
    }
}

/// The date of the first entry of `t` on `a`.
fn first_account_date(t: &Transaction, a: u128) -> (r: Date)
    requires
        involves(*t, a),
    ensures
        r == account_date(*t, a),
{
    let i = first_entry_index(t, a);
    t.entries[i].date
}

/// The position of the first entry of `t` on `a`.
pub fn first_entry_index(t: &Transaction, a: u128) -> (r: usize)
    requires
        involves(*t, a),
    ensures
        r < t.entries@.len(),
        entries_of(t.entries@, a).len() > 0,
        t.entries@[r as int] == entries_of(t.entries@, a)[0],
{
    let mut i: usize = 0;
    proof {
        reveal(Seq::filter);
    }
    while i < t.entries.len()
        invariant
            i <= t.entries@.len(),
            involves(*t, a),
            entries_of(t.entries@.take(i as int), a).len() == 0,
        decreases t.entries@.len() - i,
    {
        proof {
            reveal(Seq::filter);
            assert(t.entries@.take(i as int + 1).drop_last() == t.entries@.take(i as int));
        }
        if t.entries[i].account_id == a {
            proof {
                lemma_entries_of_prefix(t.entries@, a, i as int + 1);
                assert(entries_of(t.entries@.take(i as int + 1), a) =~= seq![t.entries@[i as int]]);
                let full = entries_of(t.entries@, a);
                assert(full.take(1)[0] == full[0]);
            }
            return i;
        }
        i = i + 1;
    }
    proof {
        assert(t.entries@.take(i as int) == t.entries@);
        let k = choose|k: int| 0 <= k < t.entries@.len() && (#[trigger] t.entries@[k]).account_id == a;
        broadcast use vstd::seq_lib::group_filter_ensures;
        assert(t.entries@.filter(|e: Entry| e.account_id == a).contains(t.entries@[k]));
    }
    0
}

/// The transactions that book on `account_id`, copied, ordered by the date of their entry
/// on that account; ties keep the order of the ledger.
pub fn order_for_account(ts_in: &Vec<Transaction>, account_id: u128) -> (r: Vec<Transaction>)
    ensures
        r@.len() == ordered_for(ts_in@, account_id).len(),
        forall|i: int|
            0 <= i < r@.len() ==> {
                let t = ordered_for(ts_in@, account_id)[i];
                &&& (#[trigger] r@[i]).id == t.id
                &&& r@[i].entries@ == t.entries@
                &&& r@[i].status == t.status
                &&& r@[i].schedule_id == t.schedule_id
            },
{
    let ghost ts = ts_in@;
    let mut keyed: Vec<(Date, Transaction)> = Vec::new();
    let ghost mut model: Seq<(Date, Transaction)> = Seq::empty();
    let mut i: usize = 0;
    while i < ts_in.len()
        invariant
            i <= ts.len(),
            ts == ts_in@,
            model == keyed_for(ts.take(i as int), account_id),
            keyed@.len() == model.len(),
            forall|k: int|
                0 <= k < model.len() ==> {
                    &&& (#[trigger] keyed@[k]).0 == model[k].0
                    &&& keyed@[k].1.id == model[k].1.id
                    &&& keyed@[k].1.entries@ == model[k].1.entries@
                    &&& keyed@[k].1.status == model[k].1.status
                    &&& keyed@[k].1.schedule_id == model[k].1.schedule_id
                },
        decreases ts.len() - i,
    {
        proof {
            reveal(Seq::filter);
            assert(ts.take(i as int + 1).drop_last() == ts.take(i as int));
        }
        let t = &ts_in[i];
        if t.involves_account(&account_id) {
            let d = first_account_date(t, account_id);
            keyed.push((d, t.duplicate()));
            proof {
                model = model.push((d, ts[i as int]));
                assert(model =~= keyed_for(ts.take(i as int + 1), account_id));
            }
        } else {
            proof {
                assert(model =~= keyed_for(ts.take(i as int + 1), account_id));
            }
        }
        i = i + 1;
    }
    proof {
        assert(ts.take(ts.len() as int) == ts);
    }
    let sorted = sort_by_date(keyed);
    proof {
        let same = |x: Transaction, y: Transaction|
            x.id == y.id && x.entries@ == y.entries@ && x.status == y.status && x.schedule_id
                == y.schedule_id;
        assert forall|k: int| 0 <= k < keyed@.len() implies (#[trigger] keyed@[k]).0 == model[k].0
            && same(keyed@[k].1, model[k].1) by {}
        crate::sort::lemma_sort_related(keyed@, model, same);
        assert forall|k: int| 0 <= k < stable_sort(keyed@).len() implies same(
            #[trigger] stable_sort(keyed@)[k].1,
            stable_sort(model)[k].1,
        ) by {}
    }
    seconds(sorted)
}


impl Books {
    /// Copies of the entries on `account_id`, in the account's order, each with the running
    /// balance of the account after it: from the starting balance, an entry on the account's
    /// normal side adds its amount and one on the other side subtracts it. Fails when the
    /// account is unknown or a running balance leaves `i128`.
    pub fn account_entries(&self, account_id: u128) -> (r: Result<Vec<Entry>, BooksError>)
        requires
            wf_books(*self),
        ensures
            !has_account(self.accounts@, account_id) ==> (r matches Err(e) && e.error@
                == "Account not found for id "@ + id_text(account_id)),
            r is Ok <==> has_account(self.accounts@, account_id) && balances_fit(
                account_start(*self, account_id),
                account_lines(*self, account_id),
                account_side(*self, account_id),
            ),
            r matches Ok(es) ==> es@ == with_balances(
                account_start(*self, account_id),
                account_lines(*self, account_id),
                account_side(*self, account_id),
            ),
    {
        let ai = match find_account(&self.accounts, account_id) {
            None => {
                let e = BooksError::with_id("Account not found for id ", account_id, "");
                proof {
                    reveal_strlit("");
                    assert(e.error@ =~= "Account not found for id "@ + id_text(account_id));
                }
                return Err(e);
            },
            Some(i) => i,
        };
        let start = self.accounts[ai].starting_balance;
        let side = self.accounts[ai].normal_balance();
        let ordered = order_for_account(&self.transactions, account_id);
        let ghost os = ordered_for(self.transactions@, account_id);
        let ghost full = lines_of(os, account_id);
        let mut out: Vec<Entry> = Vec::new();
        let mut balance: i128 = start;
        let ghost mut done: Seq<Entry> = Seq::empty();
        let mut j: usize = 0;
        while j < ordered.len()
            invariant
                j <= ordered@.len(),
                ordered@.len() == os.len(),
                forall|x: int|
                    0 <= x < ordered@.len() ==> (#[trigger] ordered@[x]).entries@ == os[x].entries@,
                done == lines_of(os.take(j as int), account_id),
                full == lines_of(os, account_id),
                full == account_lines(*self, account_id),
                has_account(self.accounts@, account_id),
                start as int == account_start(*self, account_id),
                side == account_side(*self, account_id),
                balance as int == balance_after(start as int, done, side),
                balances_fit(start as int, done, side),
                out@ == with_balances(start as int, done, side),
            decreases ordered@.len() - j,
        {
            let t = &ordered[j];
            let ghost es = os[j as int].entries@;
            let mut k: usize = 0;
            proof {
                assert(t.entries@ == es);
                reveal(Seq::filter);
                assert(es.take(0) =~= Seq::<Entry>::empty());
                assert(done + entries_of(es.take(0), account_id) =~= done);
            }
            let ghost base = done;
            while k < t.entries.len()
                invariant
                    k <= es.len(),
                    t.entries@ == es,
                    es == os[j as int].entries@,
                    j < os.len(),
                    base == lines_of(os.take(j as int), account_id),
                    full == lines_of(os, account_id),
                    full == account_lines(*self, account_id),
                    has_account(self.accounts@, account_id),
                    start as int == account_start(*self, account_id),
                    side == account_side(*self, account_id),
                full == account_lines(*self, account_id),
                has_account(self.accounts@, account_id),
                start as int == account_start(*self, account_id),
                side == account_side(*self, account_id),
                    done == base + entries_of(es.take(k as int), account_id),
                    balance as int == balance_after(start as int, done, side),
                    balances_fit(start as int, done, side),
                    out@ == with_balances(start as int, done, side),
                decreases es.len() - k,
            {
                proof {
                    reveal(Seq::filter);
                    assert(es.take(k as int + 1).drop_last() == es.take(k as int));
                }
                let e = &t.entries[k];
                if e.account_id == account_id {
                    let next = if e.entry_type == side {
                        balance.checked_add(e.amount)
                    } else {
                        balance.checked_sub(e.amount)
                    };
                    let ghost done2 = done.push(*e);
                    proof {
                        assert(done2.drop_last() == done);
                        assert(entries_of(es.take(k as int + 1), account_id) == entries_of(
                            es.take(k as int),
                            account_id,
                        ).push(es[k as int]));
                        assert(done2 == base + entries_of(es.take(k as int + 1), account_id));
                    }
                    match next {
                        None => {
                            proof {
                                lemma_done_prefix(os, account_id, j as int, k as int + 1);
                                assert(done2.take(done2.len() as int) == done2);
                                assert(full.take(done2.len() as int) == done2);
                                assert(!fits(balance_after(start as int, full.take(done2.len() as int), side)));
                            }
                            return Err(BooksError::from_str("An account balance does not fit."));
                        },
                        Some(b) => {
                            balance = b;
                        },
                    }
                    let mut copy = e.duplicate();
                    copy.set_balance(Some(balance));
                    out.push(copy);
                    proof {
                        assert forall|x: int| 0 < x <= done2.len() implies fits(
                            #[trigger] balance_after(start as int, done2.take(x), side),
                        ) by {
                            if x < done2.len() {
                                assert(done2.take(x) == done.take(x));
                            } else {
                                assert(done2.take(x) == done2);
                            }
                        }
                        assert forall|x: int| 0 <= x < done.len() implies #[trigger] done2.take(x + 1)
                            == done.take(x + 1) by {}
                        assert(done2.take(done2.len() as int) == done2);
                        assert(out@ =~= with_balances(start as int, done2, side));
                        done = done2;
                    }
                } else {
                    proof {
                        assert(entries_of(es.take(k as int + 1), account_id) == entries_of(
                            es.take(k as int),
                            account_id,
                        ));
                    }
                }
                k = k + 1;
            }
            proof {
                assert(es.take(es.len() as int) == es);
                assert(os.take(j as int + 1).drop_last() == os.take(j as int));
                assert(os.take(j as int + 1).last() == os[j as int]);
            }
            j = j + 1;
        }
        proof {
            assert(os.take(os.len() as int) == os);
        }
        Ok(out)
    }

    /// Copies of the transactions that book on `account_id`, in the account's order, with the
    /// running balance of the account written on each of their entries on it; their other entries
    /// are copied as they are. Fails as `account_entries` does.
    pub fn account_transactions(&self, account_id: u128) -> (r: Result<Vec<Transaction>, BooksError>)
        requires
            wf_books(*self),
        ensures
            !has_account(self.accounts@, account_id) ==> (r matches Err(e) && e.error@
                == "Account not found for id "@ + id_text(account_id)),
            r is Ok <==> has_account(self.accounts@, account_id) && balances_fit(
                account_start(*self, account_id),
                account_lines(*self, account_id),
                account_side(*self, account_id),
            ),
            r matches Ok(ts) ==> account_view(*self, account_id, ts@),
    {
        let ai = match find_account(&self.accounts, account_id) {
            None => {
                let e = BooksError::with_id("Account not found for id ", account_id, "");
                proof {
                    reveal_strlit("");
                    assert(e.error@ =~= "Account not found for id "@ + id_text(account_id));
                }
                return Err(e);
            },
            Some(i) => i,
        };
        let start = self.accounts[ai].starting_balance;
        let side = self.accounts[ai].normal_balance();
        let ordered = order_for_account(&self.transactions, account_id);
        let ghost os = ordered_for(self.transactions@, account_id);
        let ghost full = lines_of(os, account_id);
        let mut out: Vec<Transaction> = Vec::new();
        let mut balance: i128 = start;
        let ghost mut done: Seq<Entry> = Seq::empty();
        let mut j: usize = 0;
        while j < ordered.len()
            invariant
                j <= ordered@.len(),
                ordered@.len() == os.len(),
                forall|x: int|
                    0 <= x < ordered@.len() ==> {
                        &&& (#[trigger] ordered@[x]).entries@ == os[x].entries@
                        &&& ordered@[x].id == os[x].id
                        &&& ordered@[x].status == os[x].status
                        &&& ordered@[x].schedule_id == os[x].schedule_id
                    },
                done == lines_of(os.take(j as int), account_id),
                full == lines_of(os, account_id),
                full == account_lines(*self, account_id),
                has_account(self.accounts@, account_id),
                start as int == account_start(*self, account_id),
                side == account_side(*self, account_id),
                balance as int == balance_after(start as int, done, side),
                balances_fit(start as int, done, side),
                out@.len() == j,
                lines_of(out@, account_id) == with_balances(start as int, done, side),
                forall|x: int| 0 <= x < j ==> annotated_copy(os[x], #[trigger] out@[x], account_id),
            decreases ordered@.len() - j,
        {
            let t = &ordered[j];
            let ghost es = os[j as int].entries@;
            let ghost base = done;
            let mut entries: Vec<Entry> = Vec::new();
            let mut k: usize = 0;
            proof {
                reveal(Seq::filter);
                assert(es.take(0) =~= Seq::<Entry>::empty());
                assert(done + entries_of(es.take(0), account_id) =~= done);
                assert(lines_of(out@, account_id) + entries_of(entries@, account_id) =~= lines_of(out@, account_id));
            }
            while k < t.entries.len()
                invariant
                    k <= es.len(),
                    t.entries@ == es,
                    es == os[j as int].entries@,
                    j < os.len(),
                    base == lines_of(os.take(j as int), account_id),
                    full == lines_of(os, account_id),
                    full == account_lines(*self, account_id),
                    has_account(self.accounts@, account_id),
                    start as int == account_start(*self, account_id),
                    side == account_side(*self, account_id),
                    done == base + entries_of(es.take(k as int), account_id),
                    balance as int == balance_after(start as int, done, side),
                    balances_fit(start as int, done, side),
                    out@.len() == j,
                    lines_of(out@, account_id) + entries_of(entries@, account_id) == with_balances(
                        start as int,
                        done,
                        side,
                    ),
                    entries@.len() == k,
                    forall|y: int| 0 <= y < k ==> same_but_balance(es[y], #[trigger] entries@[y], account_id),
                decreases es.len() - k,
            {
                proof {
                    reveal(Seq::filter);
                    assert(es.take(k as int + 1).drop_last() == es.take(k as int));
                }
                let e = &t.entries[k];
                let mut copy = e.duplicate();
                let ghost before_entries = entries@;
                if e.account_id == account_id {
                    let next = if e.entry_type == side {
                        balance.checked_add(e.amount)
                    } else {
                        balance.checked_sub(e.amount)
                    };
                    let ghost done2 = done.push(*e);
                    proof {
                        assert(done2.drop_last() == done);
                        assert(entries_of(es.take(k as int + 1), account_id) == entries_of(
                            es.take(k as int),
                            account_id,
                        ).push(es[k as int]));
                        assert(done2 == base + entries_of(es.take(k as int + 1), account_id));
                    }
                    match next {
                        None => {
                            proof {
                                lemma_done_prefix(os, account_id, j as int, k as int + 1);
                                assert(done2.take(done2.len() as int) == done2);
                                assert(full.take(done2.len() as int) == done2);
                                assert(!fits(balance_after(start as int, full.take(done2.len() as int), side)));
                            }
                            return Err(BooksError::from_str("An account balance does not fit."));
                        },
                        Some(b) => {
                            balance = b;
                        },
                    }
                    copy.set_balance(Some(balance));
                    entries.push(copy);
                    proof {
                        assert forall|x: int| 0 < x <= done2.len() implies fits(
                            #[trigger] balance_after(start as int, done2.take(x), side),
                        ) by {
                            if x < done2.len() {
                                assert(done2.take(x) == done.take(x));
                            } else {
                                assert(done2.take(x) == done2);
                            }
                        }
                        assert forall|x: int| 0 <= x < done.len() implies #[trigger] done2.take(x + 1)
                            == done.take(x + 1) by {}
                        assert(done2.take(done2.len() as int) == done2);
                        assert(entries@.drop_last() == before_entries);
                        assert(entries_of(entries@, account_id) == entries_of(before_entries, account_id).push(copy));
                        assert(lines_of(out@, account_id) + entries_of(entries@, account_id) =~= (
                        lines_of(out@, account_id) + entries_of(before_entries, account_id)).push(
                            copy,
                        ));
                        assert(balance as int == balance_after(start as int, done2, side));
                        assert(copy == (Entry { balance: Some(balance), ..*e }));
                        assert(with_balances(start as int, done, side).push(copy) =~= with_balances(
                            start as int,
                            done2,
                            side,
                        ));
                        done = done2;
                    }
                } else {
                    entries.push(copy);
                    proof {
                        assert(entries_of(es.take(k as int + 1), account_id) == entries_of(
                            es.take(k as int),
                            account_id,
                        ));
                        assert(entries@.drop_last() == before_entries);
                        assert(entries_of(entries@, account_id) == entries_of(before_entries, account_id));
                    }
                }
                k = k + 1;
            }
            let nt = Transaction {
                id: t.id,
                entries,
                status: t.status,
                schedule_id: t.schedule_id,
            };
            let ghost before_out = out@;
            out.push(nt);
            proof {
                assert(es.take(es.len() as int) == es);
                assert(os.take(j as int + 1).drop_last() == os.take(j as int));
                assert(os.take(j as int + 1).last() == os[j as int]);
                assert(out@.drop_last() == before_out);
                assert(annotated_copy(os[j as int], out@[j as int], account_id));
                assert forall|x: int| 0 <= x < j + 1 implies annotated_copy(os[x], #[trigger] out@[x], account_id) by {
                    if x < j {
                        assert(out@[x] == before_out[x]);
                    }
                }
            }
            j = j + 1;
        }
        proof {
            assert(os.take(os.len() as int) == os);
        }
        Ok(out)
    }
}

/// Transactions on an account that all fall on one day keep the order of the ledger, and so
/// do the running balances written on their entries.
pub proof fn lemma_same_day_keeps_ledger_order(ts: Seq<Transaction>, a: u128)
    requires
        forall|i: int, j: int|
            0 <= i < ts.len() && 0 <= j < ts.len() && involves(ts[i], a) && involves(ts[j], a)
                ==> #[trigger] account_date(ts[i], a) == #[trigger] account_date(ts[j], a),
    ensures
        ordered_for(ts, a) == ts.filter(|t: Transaction| involves(t, a)),
{
    broadcast use vstd::seq_lib::group_filter_ensures;
    let f = ts.filter(|t: Transaction| involves(t, a));
    let ks = keyed_for(ts, a);
    assert forall|i: int, j: int| 0 <= i < ks.len() && 0 <= j < ks.len() implies #[trigger] ks[i].0
        == #[trigger] ks[j].0 by {
        assert(ks[i] == (account_date(f[i], a), f[i]));
        assert(ks[j] == (account_date(f[j], a), f[j]));
        assert(f.contains(f[i]) && f.contains(f[j]));
        ts.lemma_filter_contains_rev(|t: Transaction| involves(t, a), f[i]);
        ts.lemma_filter_contains_rev(|t: Transaction| involves(t, a), f[j]);
        let x = choose|x: int| 0 <= x < ts.len() && ts[x] == f[i];
        let y = choose|y: int| 0 <= y < ts.len() && ts[y] == f[j];
        assert(involves(f[i], a) && involves(f[j], a));
        assert(account_date(ts[x], a) == account_date(ts[y], a));
    }
    crate::sort::lemma_stable_sort_same_date(ks);
    assert(ordered_for(ts, a) =~= f);
}

/// Every transaction in the account's order books on the account.
pub proof fn lemma_ordered_for_involves(ts: Seq<Transaction>, a: u128)
    ensures
        forall|k: int|
            0 <= k < ordered_for(ts, a).len() ==> involves(#[trigger] ordered_for(ts, a)[k], a),
{
    let ks = keyed_for(ts, a);
    crate::sort::lemma_stable_sort_members(ks);
    broadcast use vstd::seq_lib::group_filter_ensures;
    assert forall|k: int| 0 <= k < ordered_for(ts, a).len() implies involves(
        #[trigger] ordered_for(ts, a)[k],
        a,
    ) by {
        let p = stable_sort(ks)[k];
        assert(ks.contains(p));
        let m = choose|m: int| 0 <= m < ks.len() && ks[m] == p;
        let f = ts.filter(|t: Transaction| involves(t, a));
        assert(f[m] == p.1);
        assert(f.contains(p.1));
    }
}

/// The entries already folded, with one more, are a prefix of all the entries on the account.
proof fn lemma_done_prefix(os: Seq<Transaction>, a: u128, j: int, k: int)
    requires
        0 <= j < os.len(),
        0 <= k <= os[j].entries@.len(),
    ensures
        ({
            let done = lines_of(os.take(j), a) + entries_of(os[j].entries@.take(k), a);
            lines_of(os, a).take(done.len() as int) == done && done.len() <= lines_of(os, a).len()
        }),
{
    let es = os[j].entries@;
    lemma_lines_prefix(os, a, j + 1);
    lemma_entries_of_prefix(es, a, k);
    assert(os.take(j + 1).drop_last() == os.take(j));
    assert(os.take(j + 1).last() == os[j]);
    let l1 = lines_of(os.take(j), a);
    let l2 = lines_of(os.take(j + 1), a);
    let done = l1 + entries_of(es.take(k), a);
    assert(l2 == l1 + entries_of(es, a));
    assert(done =~= l2.take(done.len() as int));
    assert(done =~= lines_of(os, a).take(done.len() as int));
}

} // verus!
