use vstd::prelude::*;
use crate::account::{entries_of, involves, Account, Cutoff, Entry, Transaction};
use crate::balance::{account_date, keyed_for};
use crate::balance::{
    account_lines, account_side, account_start, account_view, balances_fit, first_entry_index,
    lemma_ordered_for_involves, order_for_account, ordered_for,
};
use crate::books::{account_with, find_account, find_transaction, has_account, position_of, wf_books, Books};
use crate::date::{add_days, day_number, lemma_day_number_order, valid_date, Date};
use crate::error::{id_text, BooksError};

verus! {

/// How an outside transaction relates to the ledger.
#[derive(Clone, Copy, Debug, PartialEq, Eq, Structural)]
pub enum MatchStatus {
    Matched,
    PartialMatch,
    Mismatch,
    Unmatched,
}

/// The verdict on one outside transaction.
#[derive(Debug)]
pub struct ReconciliationResult {
    pub transaction: Transaction,
    pub status: MatchStatus,
    /// The ledger transaction it was matched with.
    pub matched_id: Option<u128>,
    /// The ledger's running balance of the account at the matched transaction.
    pub expected_balance: Option<i128>,
}

/// The first entry of `t` on account `a`.
pub open spec fn first_line(t: Transaction, a: u128) -> Entry {
    entries_of(t.entries@, a)[0]
}

pub open spec fn first_lines(ts: Seq<Transaction>, a: u128) -> Seq<Entry> {
    ts.map_values(|t: Transaction| first_line(t, a))
}

/// Two calendar dates at most a day apart.
pub open spec fn within_a_day(x: Date, y: Date) -> bool {
    valid_date(x) && valid_date(y) && -1 <= day_number(x) - day_number(y) <= 1
}

/// Same date, amount, side and balance.
pub open spec fn exact_match(x: Entry, c: Entry) -> bool {
    x.date == c.date && x.amount == c.amount && x.entry_type == c.entry_type && x.balance == c.balance
}

/// How many of three things agree: the dates within a day, the amounts, the descriptions.
pub open spec fn score(x: Entry, c: Entry) -> int {
    (if within_a_day(x.date, c.date) { 1int } else { 0int }) + (if x.amount == c.amount {
        1int
    } else {
        0int
    }) + (if x.description@ == c.description@ { 1int } else { 0int })
}

pub open spec fn fits_candidate(x: Entry, c: Entry, exact: bool) -> bool {
    if exact { exact_match(x, c) } else { score(x, c) >= 2 }
}

/// The first candidate of `cs` not yet used that fits `x`; -1 when there is none.
pub open spec fn first_free(cs: Seq<Entry>, used: Seq<bool>, x: Entry, exact: bool) -> int
    decreases cs.len(),
{
    if cs.len() == 0 {
        -1
    } else if !used[0] && fits_candidate(x, cs[0], exact) {
        0
    } else {
        let k = first_free(cs.drop_first(), used.drop_first(), x, exact);
        if k < 0 { -1 } else { k + 1 }
    }
}

/// The verdict on `x` and the candidate it takes (-1 for none): an exact match first, else a
/// candidate that agrees on two of three things, a mismatch when the balances differ.
pub open spec fn classify(x: Entry, cs: Seq<Entry>, used: Seq<bool>) -> (MatchStatus, int) {
    let e = first_free(cs, used, x, true);
    let n = first_free(cs, used, x, false);
    if e >= 0 {
        (MatchStatus::Matched, e)
    } else if n >= 0 {
        (if x.balance != cs[n].balance { MatchStatus::Mismatch } else { MatchStatus::PartialMatch }, n)
    } else {
        (MatchStatus::Unmatched, -1)
    }
}

/// The candidate `p` stands for position `k`, -1 meaning none.
pub open spec fn picked(p: Option<usize>, k: int) -> bool {
    match p {
        Some(i) => i as int == k,
        None => k == -1,
    }
}

/// Which of `n` candidates the verdicts `rs` have taken.
pub open spec fn used_by(rs: Seq<(MatchStatus, int)>, n: int) -> Seq<bool> {
    Seq::new(n as nat, |k: int| exists|i: int| 0 <= i < rs.len() && (#[trigger] rs[i]).1 == k)
}

/// The verdicts on the outside entries `xs`, in order, each taking a candidate of `cs` that no
/// earlier one took.
pub open spec fn classify_all(xs: Seq<Entry>, cs: Seq<Entry>) -> Seq<(MatchStatus, int)>
    decreases xs.len(),
{
    if xs.len() == 0 {
        Seq::empty()
    } else {
        let prev = classify_all(xs.drop_last(), cs);
        prev.push(classify(xs.last(), cs, used_by(prev, cs.len() as int)))
    }
}

/// The first verdict from `j` on that is not a mismatch is a match or a partial match.
pub open spec fn next_settled(ss: Seq<MatchStatus>, j: int) -> bool
    decreases ss.len() - j,
{
    if j < 0 || j >= ss.len() {
        false
    } else if ss[j] == MatchStatus::Mismatch {
        next_settled(ss, j + 1)
    } else {
        ss[j] == MatchStatus::Matched || ss[j] == MatchStatus::PartialMatch
    }
}

/// A run of mismatches followed by a match or a partial match becomes partial matches; a run
/// that ends in an unmatched verdict, or at the end, stays.
pub open spec fn promote(ss: Seq<MatchStatus>) -> Seq<MatchStatus> {
    Seq::new(
        ss.len(),
        |i: int|
            if ss[i] == MatchStatus::Mismatch && next_settled(ss, i + 1) {
                MatchStatus::PartialMatch
            } else {
                ss[i]
            },
    )
}

/// What `reconcile` gives for the outside transactions `ext` against the account's view `ts`.
pub open spec fn reconciled_as(
    ext: Seq<Transaction>,
    ts: Seq<Transaction>,
    a: u128,
    rs: Seq<ReconciliationResult>,
) -> bool {
    let xt = ordered_for(ext, a);
    let cs = first_lines(ts, a);
    let cls = classify_all(first_lines(xt, a), cs);
    let st = promote(cls.map_values(|c: (MatchStatus, int)| c.0));
    &&& rs.len() == xt.len()
    &&& forall|i: int|
        0 <= i < rs.len() ==> {
            let r = #[trigger] rs[i];
            &&& r.transaction.id == xt[i].id
            &&& r.transaction.entries@ == xt[i].entries@
            &&& r.transaction.status == xt[i].status
            &&& r.transaction.schedule_id == xt[i].schedule_id
            &&& r.status == st[i]
            &&& r.matched_id == (if cls[i].1 >= 0 { Some(ts[cls[i].1].id) } else { None })
            &&& r.expected_balance == (if cls[i].1 >= 0 { cs[cls[i].1].balance } else { None })
        }
}

/// Whether `x` and `y` are calendar dates at most a day apart.
pub fn is_within_a_day(x: Date, y: Date) -> (r: bool)
    ensures
        r == within_a_day(x, y),
{
    if !crate::schedule::is_valid(x) || !crate::schedule::is_valid(y) {
        return false;
    }
    proof {
        lemma_day_number_order(x, y);
    }
    if x == y {
        return true;
    }
    let nx = add_days(x, 1);
    let ny = add_days(y, 1);
    proof {
        if let Some(z) = nx {
            lemma_day_number_order(z, y);
        }
        if let Some(z) = ny {
            lemma_day_number_order(z, x);
        }
        if within_a_day(x, y) {
            if day_number(x) < day_number(y) {
                lemma_day_number_order(y, crate::date::last_date());
            } else {
                lemma_day_number_order(x, crate::date::last_date());
            }
        }
    }
    nx == Some(y) || ny == Some(x)
}

/// Whether `c` fits `x`, exactly or on two of three things.
fn fits_exec(x: &Entry, c: &Entry, exact: bool) -> (r: bool)
    ensures
        r == fits_candidate(*x, *c, exact),
{
    if exact {
        x.date == c.date && x.amount == c.amount && x.entry_type == c.entry_type && x.balance
            == c.balance
    } else {
        let mut n: u8 = 0;
        if is_within_a_day(x.date, c.date) {
            n = n + 1;
        }
        if x.amount == c.amount {
            n = n + 1;
        }
        if x.description == c.description {
            n = n + 1;
        }
        n >= 2
    }
}

proof fn lemma_first_free(cs: Seq<Entry>, used: Seq<bool>, x: Entry, exact: bool)
    requires
        used.len() == cs.len(),
    ensures
        first_free(cs, used, x, exact) < cs.len(),
        first_free(cs, used, x, exact) >= 0 ==> !used[first_free(cs, used, x, exact)]
            && fits_candidate(x, cs[first_free(cs, used, x, exact)], exact),
        forall|j: int|
            0 <= j < cs.len() && (first_free(cs, used, x, exact) < 0 || j < first_free(
                cs,
                used,
                x,
                exact,
            )) ==> used[j] || !fits_candidate(x, #[trigger] cs[j], exact),
    decreases cs.len(),
{
    if cs.len() > 0 {
        lemma_first_free(cs.drop_first(), used.drop_first(), x, exact);
        assert forall|j: int| 1 <= j < cs.len() implies cs[j] == cs.drop_first()[j - 1] && used[j]
            == used.drop_first()[j - 1] by {}
    }
}

/// The first candidate not yet used that fits `x`.
fn find_free(cs: &Vec<Entry>, used: &Vec<bool>, x: &Entry, exact: bool) -> (r: Option<usize>)
    requires
        used@.len() == cs@.len(),
    ensures
        r is None <==> first_free(cs@, used@, *x, exact) < 0,
        r matches Some(k) ==> k as int == first_free(cs@, used@, *x, exact),
{
    proof {
        lemma_first_free(cs@, used@, *x, exact);
    }
    let mut k: usize = 0;
    while k < cs.len()
        invariant
            k <= cs@.len(),
            used@.len() == cs@.len(),
            forall|j: int| 0 <= j < k ==> used@[j] || !fits_candidate(*x, #[trigger] cs@[j], exact),
            first_free(cs@, used@, *x, exact) < cs@.len(),
            first_free(cs@, used@, *x, exact) >= 0 ==> !used@[first_free(cs@, used@, *x, exact)]
                && fits_candidate(*x, cs@[first_free(cs@, used@, *x, exact)], exact),
            forall|j: int|
                0 <= j < cs@.len() && (first_free(cs@, used@, *x, exact) < 0 || j < first_free(
                    cs@,
                    used@,
                    *x,
                    exact,
                )) ==> used@[j] || !fits_candidate(*x, #[trigger] cs@[j], exact),
        decreases cs@.len() - k,
    {
        if !used[k] && fits_exec(x, &cs[k], exact) {
            return Some(k);
        }
        k = k + 1;
    }
    None
}

/// The verdicts on `xs` against the candidates `cs`.
fn classify_exec(xs: &Vec<Entry>, cs: &Vec<Entry>) -> (r: Vec<(MatchStatus, Option<usize>)>)
    ensures
        r@.len() == xs@.len(),
        forall|i: int|
            0 <= i < r@.len() ==> (#[trigger] r@[i]).0 == classify_all(xs@, cs@)[i].0 && picked(
                r@[i].1,
                classify_all(xs@, cs@)[i].1,
            ) && classify_all(xs@, cs@)[i].1 < cs@.len(),
{
    let mut used: Vec<bool> = Vec::new();
    let mut k: usize = 0;
    while k < cs.len()
        invariant
            k <= cs@.len(),
            used@.len() == k,
            forall|m: int| 0 <= m < k ==> !(#[trigger] used@[m]),
        decreases cs@.len() - k,
    {
        used.push(false);
        k = k + 1;
    }
    let mut r: Vec<(MatchStatus, Option<usize>)> = Vec::new();
    let ghost mut model: Seq<(MatchStatus, int)> = Seq::empty();
    proof {
        assert(used@ =~= used_by(model, cs@.len() as int));
    }
    let mut i: usize = 0;
    while i < xs.len()
        invariant
            i <= xs@.len(),
            model == classify_all(xs@.take(i as int), cs@),
            used@ == used_by(model, cs@.len() as int),
            r@.len() == model.len(),
            model.len() == i,
            forall|j: int|
                0 <= j < i ==> (#[trigger] r@[j]).0 == model[j].0 && picked(r@[j].1, model[j].1),
            forall|j: int| 0 <= j < i ==> -1 <= (#[trigger] model[j]).1 < cs@.len(),
        decreases xs@.len() - i,
    {
        let x = &xs[i];
        proof {
            assert(xs@.take(i as int + 1).drop_last() == xs@.take(i as int));
            assert(xs@.take(i as int + 1).last() == xs@[i as int]);
            lemma_first_free(cs@, used@, *x, true);
            lemma_first_free(cs@, used@, *x, false);
        }
        let (status, pick): (MatchStatus, Option<usize>) = match find_free(cs, &used, x, true) {
            Some(k) => (MatchStatus::Matched, Some(k)),
            None => match find_free(cs, &used, x, false) {
                Some(k) => {
                    if x.balance != cs[k].balance {
                        (MatchStatus::Mismatch, Some(k))
                    } else {
                        (MatchStatus::PartialMatch, Some(k))
                    }
                },
                None => (MatchStatus::Unmatched, None),
            },
        };
        let ghost c = classify(*x, cs@, used@);
        assert(status == c.0 && picked(pick, c.1));
        r.push((status, pick));
        if let Some(k) = pick {
            used.set(k, true);
        }
        proof {
            let model2 = model.push(c);
            assert(model2 == classify_all(xs@.take(i as int + 1), cs@));
            assert forall|m: int| 0 <= m < cs@.len() implies used@[m] == used_by(model2, cs@.len() as int)[m] by {
                if m == c.1 {
                    assert(model2[model2.len() - 1].1 == m);
                } else {
                    if used_by(model2, cs@.len() as int)[m] {
                        let w = choose|w: int| 0 <= w < model2.len() && (#[trigger] model2[w]).1 == m;
                        assert(w < model.len());
                        assert(model[w].1 == m);
                    }
                    if used_by(model, cs@.len() as int)[m] {
                        let w = choose|w: int| 0 <= w < model.len() && (#[trigger] model[w]).1 == m;
                        assert(model2[w].1 == m);
                    }
                }
            }
            assert(used@ =~= used_by(model2, cs@.len() as int));
            model = model2;
        }
        i = i + 1;
    }
    proof {
        assert(xs@.take(xs@.len() as int) == xs@);
    }
    r
}

/// Applies the promotion of mismatch runs to the verdicts `ss`.
pub fn promote_statuses(ss: &Vec<MatchStatus>) -> (r: Vec<MatchStatus>)
    ensures
        r@ == promote(ss@),
{
    let mut r: Vec<MatchStatus> = Vec::new();
    let mut k: usize = 0;
    while k < ss.len()
        invariant
            k <= ss@.len(),
            r@ == ss@.take(k as int),
        decreases ss@.len() - k,
    {
        r.push(ss[k]);
        proof {
            assert(ss@.take(k as int + 1) == ss@.take(k as int).push(ss@[k as int]));
        }
        k = k + 1;
    }
    proof {
        assert(ss@.take(ss@.len() as int) == ss@);
    }
    let mut settled = false;
    let mut i: usize = ss.len();
    while i > 0
        invariant
            i <= ss@.len(),
            r@.len() == ss@.len(),
            settled == next_settled(ss@, i as int),
            forall|j: int| 0 <= j < i ==> #[trigger] r@[j] == ss@[j],
            forall|j: int| i <= j < ss@.len() ==> #[trigger] r@[j] == promote(ss@)[j],
        decreases i,
    {
        i = i - 1;
        match ss[i] {
            MatchStatus::Mismatch => {
                if settled {
                    r.set(i, MatchStatus::PartialMatch);
                }
            },
            MatchStatus::Unmatched => {
                settled = false;
            },
            _ => {
                settled = true;
            },
        }
    }
    proof {
        assert(r@ =~= promote(ss@));
    }
    r
}

impl Books {
    /// Classifies the outside transactions `external` that book on `account_id` against the
    /// ledger's own transactions on that account. The outside ones are taken oldest first (ties
    /// in the order given); each takes the first ledger transaction not taken yet that matches
    /// its entry on the account exactly (date, amount, side and balance), else the first that
    /// agrees on two of date within a day, amount and description: a mismatch when the balances
    /// differ, a partial match otherwise; else it stays unmatched. Mismatches directly followed
    /// by a match or partial match become partial matches.
    pub fn reconcile(&self, account_id: u128, external: &Vec<Transaction>) -> (r: Result<
        Vec<ReconciliationResult>,
        BooksError,
    >)
        requires
            wf_books(*self),
        ensures
            !has_account(self.accounts@, account_id) ==> (r matches Err(e) && e.error@
                == "Account not found for id "@ + id_text(account_id)),
            r is Ok <==> has_account(self.accounts@, account_id) && balances_fit(
                account_start(*self, account_id),
                account_lines(*self, account_id),
                account_side(*self, account_id),
            ),
            r matches Ok(rs) ==> exists|ts: Seq<Transaction>|
                account_view(*self, account_id, ts) && reconciled_as(external@, ts, account_id, rs@),
    {
        let ts = match self.account_transactions(account_id) {
            Err(e) => {
                return Err(e);
            },
            Ok(ts) => ts,
        };
        let xt = order_for_account(external, account_id);
        let ghost oxt = ordered_for(external@, account_id);
        proof {
            lemma_ordered_for_involves(self.transactions@, account_id);
            lemma_ordered_for_involves(external@, account_id);
            lemma_view_involves(*self, account_id, ts@);
            assert forall|j: int| 0 <= j < xt@.len() implies involves(#[trigger] xt@[j], account_id) by {
                assert(involves(oxt[j], account_id));
                let w = choose|w: int|
                    0 <= w < oxt[j].entries@.len() && (#[trigger] oxt[j].entries@[w]).account_id
                        == account_id;
                assert(xt@[j].entries@[w] == oxt[j].entries@[w]);
            }
        }
        let cs = first_lines_exec(&ts, account_id);
        let xs = first_lines_exec(&xt, account_id);
        let ghost csm = first_lines(ts@, account_id);
        let ghost xsm = first_lines(oxt, account_id);
        proof {
            assert(xs@ =~= xsm);
        }
        let cls = classify_exec(&xs, &cs);
        let ghost model = classify_all(xsm, csm);
        let mut st_in: Vec<MatchStatus> = Vec::new();
        let mut k: usize = 0;
        while k < cls.len()
            invariant
                k <= cls@.len(),
                st_in@.len() == k,
                forall|j: int| 0 <= j < k ==> #[trigger] st_in@[j] == cls@[j].0,
            decreases cls@.len() - k,
        {
            st_in.push(cls[k].0);
            k = k + 1;
        }
        proof {
            lemma_classify_len(xsm, csm);
            assert(st_in@ =~= model.map_values(|c: (MatchStatus, int)| c.0));
        }
        let st = promote_statuses(&st_in);
        let mut out: Vec<ReconciliationResult> = Vec::new();
        let mut i: usize = 0;
        while i < xt.len()
            invariant
                i <= xt@.len(),
                xt@.len() == oxt.len(),
                cls@.len() == xt@.len(),
                st@.len() == xt@.len(),
                cs@ == csm,
                ts@.len() == cs@.len(),
                st@ == promote(model.map_values(|c: (MatchStatus, int)| c.0)),
                forall|j: int|
                    0 <= j < cls@.len() ==> (#[trigger] cls@[j]).0 == model[j].0 && picked(
                        cls@[j].1,
                        model[j].1,
                    ) && model[j].1 < cs@.len(),
                forall|j: int|
                    0 <= j < xt@.len() ==> {
                        &&& (#[trigger] xt@[j]).id == oxt[j].id
                        &&& xt@[j].entries@ == oxt[j].entries@
                        &&& xt@[j].status == oxt[j].status
                        &&& xt@[j].schedule_id == oxt[j].schedule_id
                    },
                out@.len() == i,
                forall|j: int|
                    0 <= j < i ==> {
                        let r = #[trigger] out@[j];
                        &&& r.transaction.id == oxt[j].id
                        &&& r.transaction.entries@ == oxt[j].entries@
                        &&& r.transaction.status == oxt[j].status
                        &&& r.transaction.schedule_id == oxt[j].schedule_id
                        &&& r.status == st@[j]
                        &&& r.matched_id == (if model[j].1 >= 0 {
                            Some(ts@[model[j].1].id)
                        } else {
                            None
                        })
                        &&& r.expected_balance == (if model[j].1 >= 0 {
                            csm[model[j].1].balance
                        } else {
                            None
                        })
                    },
            decreases xt@.len() - i,
        {
            let (matched_id, expected_balance) = match cls[i].1 {
                Some(p) => (Some(ts[p].id), cs[p].balance),
                None => (None, None),
            };
            out.push(
                ReconciliationResult {
                    transaction: xt[i].duplicate(),
                    status: st[i],
                    matched_id,
                    expected_balance,
                },
            );
            i = i + 1;
        }
        proof {
            assert(reconciled_as(external@, ts@, account_id, out@));
        }
        Ok(out)
    }
}

proof fn lemma_classify_len(xs: Seq<Entry>, cs: Seq<Entry>)
    ensures
        classify_all(xs, cs).len() == xs.len(),
    decreases xs.len(),
{
    if xs.len() > 0 {
        lemma_classify_len(xs.drop_last(), cs);
    }
}

/// Every transaction of an account's view books on the account.
proof fn lemma_view_involves(b: Books, a: u128, ts: Seq<Transaction>)
    requires
        account_view(b, a, ts),
        forall|k: int|
            0 <= k < ordered_for(b.transactions@, a).len() ==> involves(
                #[trigger] ordered_for(b.transactions@, a)[k],
                a,
            ),
    ensures
        forall|j: int| 0 <= j < ts.len() ==> involves(#[trigger] ts[j], a),
{
    let os = ordered_for(b.transactions@, a);
    assert forall|j: int| 0 <= j < ts.len() implies involves(#[trigger] ts[j], a) by {
        assert(involves(os[j], a));
        assert(crate::balance::annotated_copy(os[j], ts[j], a));
        let w = choose|w: int| 0 <= w < os[j].entries@.len() && (#[trigger] os[j].entries@[w]).account_id == a;
        assert(crate::balance::same_but_balance(os[j].entries@[w], ts[j].entries@[w], a));
    }
}

/// The first entry on `a` of each transaction.
fn first_lines_exec(ts: &Vec<Transaction>, a: u128) -> (r: Vec<Entry>)
    requires
        forall|j: int| 0 <= j < ts@.len() ==> involves(#[trigger] ts@[j], a),
    ensures
        r@ == first_lines(ts@, a),
{
    let mut r: Vec<Entry> = Vec::new();
    let mut j: usize = 0;
    while j < ts.len()
        invariant
            j <= ts@.len(),
            forall|m: int| 0 <= m < ts@.len() ==> involves(#[trigger] ts@[m], a),
            r@ == first_lines(ts@.take(j as int), a),
        decreases ts@.len() - j,
    {
        let t = &ts[j];
        let k = first_entry_index(t, a);
        r.push(t.entries[k].duplicate());
        proof {
            assert(first_lines(ts@.take(j as int + 1), a) =~= first_lines(ts@.take(j as int), a).push(
                first_line(ts@[j as int], a),
            ));
        }
        j = j + 1;
    }
    proof {
        assert(ts@.take(ts@.len() as int) == ts@);
    }
    r
}

/// `t2` is `t` with its entries on `a` marked reconciled when `mark` holds.
pub open spec fn marked(t: Transaction, t2: Transaction, a: u128, mark: bool) -> bool {
    &&& t2.id == t.id
    &&& t2.status == t.status
    &&& t2.schedule_id == t.schedule_id
    &&& t2.entries@.len() == t.entries@.len()
    &&& forall|k: int|
        0 <= k < t.entries@.len() ==> #[trigger] t2.entries@[k] == if mark && t.entries@[k].account_id
            == a {
            Entry { reconciled: true, ..t.entries@[k] }
        } else {
            t.entries@[k]
        }
}

/// Some transaction among the first `p + 1` of `ts` has id `id`.
pub open spec fn among_first(ts: Seq<Transaction>, p: int, id: u128) -> bool {
    exists|m: int| 0 <= m <= p && m < ts.len() && (#[trigger] ts[m]).id == id
}

/// The position of the current cutoff of account `acc` in the account's view `ts`; -1 when
/// there is none.
pub open spec fn cutoff_position(acc: Account, ts: Seq<Transaction>) -> int {
    match acc.cutoff {
        Some(c) => position_of(ts, c.transaction_id),
        None => -1,
    }
}

/// What committing the cutoff at transaction `tid` does to ledger `b`, whose account `a` has
/// the view `ts`, giving `b2`.
pub open spec fn committed(b: Books, a: u128, tid: u128, ts: Seq<Transaction>, b2: Books) -> bool {
    let p = position_of(ts, tid);
    let acc = account_with(b.accounts@, a);
    let line = first_line(ts[p], a);
    if cutoff_position(acc, ts) >= p {
        b2.accounts@ == b.accounts@ && b2.transactions@ == b.transactions@
    } else {
        &&& exists|i: int|
            0 <= i < b.accounts@.len() && b.accounts@[i].id == a && b2.accounts@ == b.accounts@.update(
                i,
                Account {
                    cutoff: Some(
                        Cutoff { date: line.date, balance: line.balance.unwrap(), transaction_id: tid },
                    ),
                    ..acc
                },
            )
        &&& b2.transactions@.len() == b.transactions@.len()
        &&& forall|i: int|
            0 <= i < b.transactions@.len() ==> marked(
                b.transactions@[i],
                #[trigger] b2.transactions@[i],
                a,
                among_first(ts, p, b.transactions@[i].id),
            )
    }
}

impl Books {
    /// Commits the reconciliation of account `account_id` up to the transaction
    /// `transaction_id`: the account's cutoff becomes that transaction's date, running balance
    /// and id, and the entries on the account of every transaction up to it in the account's
    /// order are marked reconciled. A cutoff only moves forward: when the current one is at or
    /// after the transaction, nothing changes. Fails when the account is unknown, its balances
    /// do not fit, the transaction is not among the account's, or it carries no balance.
    pub fn reconcile_account(&mut self, account_id: u128, transaction_id: u128) -> (r: Result<
        (),
        BooksError,
    >)
        requires
            wf_books(*old(self)),
        ensures
            wf_books(*final(self)),
            same_but_ledger(*old(self), *final(self)),
            !has_account(old(self).accounts@, account_id) ==> (r matches Err(e) && e.error@
                == "Account not found for id "@ + id_text(account_id)),
            r is Err ==> final(self).accounts@ == old(self).accounts@ && final(self).transactions@
                == old(self).transactions@,
            r is Ok <==> has_account(old(self).accounts@, account_id) && balances_fit(
                account_start(*old(self), account_id),
                account_lines(*old(self), account_id),
                account_side(*old(self), account_id),
            ) && exists|ts: Seq<Transaction>|
                account_view(*old(self), account_id, ts) && position_of(ts, transaction_id) >= 0,
            r is Ok ==> exists|ts: Seq<Transaction>|
                account_view(*old(self), account_id, ts) && committed(
                    *old(self),
                    account_id,
                    transaction_id,
                    ts,
                    *final(self),
                ),
    {
        let ts = match self.account_transactions(account_id) {
            Err(e) => {
                return Err(e);
            },
            Ok(ts) => ts,
        };
        proof {
            lemma_ordered_for_involves(self.transactions@, account_id);
            lemma_view_involves(*self, account_id, ts@);
        }
        let p = match find_transaction(&ts, transaction_id) {
            None => {
                proof {
                    assert forall|ts2: Seq<Transaction>| #[trigger]
                        account_view(*self, account_id, ts2) implies position_of(ts2, transaction_id)
                        < 0 by {
                        lemma_view_ids(*self, account_id, ts@, ts2);
                        lemma_position_same_ids(ts@, ts2, transaction_id);
                    }
                }
                return Err(BooksError::with_id("Transaction ", transaction_id, " not found for the account."));
            },
            Some(p) => p,
        };
        let k = first_entry_index(&ts[p], account_id);
        let date = ts[p].entries[k].date;
        proof {
            lemma_view_balances(*self, account_id, ts@, p as int);
        }
        let balance = ts[p].entries[k].balance.unwrap();
        let ai = find_account(&self.accounts, account_id).unwrap();
        if let Some(c) = self.accounts[ai].cutoff {
            if let Some(q) = find_transaction(&ts, c.transaction_id) {
                if q >= p {
                    return Ok(());
                }
            }
        }
        let mut ids: Vec<u128> = Vec::new();
        let mut m: usize = 0;
        while m < ts.len() && m <= p
            invariant
                p < ts@.len(),
                m <= p + 1,
                ids@.len() == m,
                forall|x: int| 0 <= x < m ==> #[trigger] ids@[x] == ts@[x].id,
            decreases p + 1 - m,
        {
            ids.push(ts[m].id);
            m = m + 1;
        }
        let mut acc = self.accounts[ai].duplicate();
        acc.cutoff = Some(Cutoff { date, balance, transaction_id });
        let ghost acc_before = self.accounts@;
        self.accounts.set(ai, acc);
        proof {
            let accs = self.accounts@;
            assert forall|x: int, y: int| 0 <= x < y < accs.len() implies accs[x].id != accs[y].id by {
                if x != ai {
                    assert(accs[x] == acc_before[x]);
                }
                if y != ai {
                    assert(accs[y] == acc_before[y]);
                }
            }
        }
        let ghost old_ts = self.transactions@;
        let mut rest: Vec<Transaction> = Vec::new();
        std::mem::swap(&mut rest, &mut self.transactions);
        let mut done: Vec<Transaction> = Vec::new();
        while rest.len() > 0
            invariant
                old_ts.len() == done@.len() + rest@.len(),
                rest@ == old_ts.skip(done@.len() as int),
                ids@.len() == p + 1,
                p < ts@.len(),
                forall|x: int| 0 <= x <= p ==> #[trigger] ids@[x] == ts@[x].id,
                forall|x: int|
                    0 <= x < done@.len() ==> marked(
                        old_ts[x],
                        #[trigger] done@[x],
                        account_id,
                        among_first(ts@, p as int, old_ts[x].id),
                    ),
            decreases rest@.len(),
        {
            let ghost d = done@.len() as int;
            let t = rest.remove(0);
            assert(t == old_ts[d]);
            proof {
                assert(rest@ =~= old_ts.skip(d + 1));
            }
            let mark = contains_id(&ids, t.id);
            proof {
                if mark {
                    let w = choose|w: int| 0 <= w < ids@.len() && ids@[w] == t.id;
                    assert(ts@[w].id == t.id);
                }
                if among_first(ts@, p as int, t.id) {
                    let w = choose|w: int| 0 <= w <= p && w < ts@.len() && (#[trigger] ts@[w]).id == t.id;
                    assert(ids@[w] == t.id);
                }
            }
            let t2 = mark_entries(t, account_id, mark);
            done.push(t2);
        }
        self.transactions = done;
        proof {
            assert(committed(*old(self), account_id, transaction_id, ts@, *self));
        }
        Ok(())
    }
}

/// Two views of one account agree on the ids of their transactions.
proof fn lemma_view_ids(b: Books, a: u128, ts: Seq<Transaction>, ts2: Seq<Transaction>)
    requires
        account_view(b, a, ts),
        account_view(b, a, ts2),
    ensures
        ts.len() == ts2.len(),
        forall|j: int| 0 <= j < ts.len() ==> (#[trigger] ts[j]).id == ts2[j].id,
{
    let os = ordered_for(b.transactions@, a);
    assert forall|j: int| 0 <= j < ts.len() implies (#[trigger] ts[j]).id == ts2[j].id by {
        assert(crate::balance::annotated_copy(os[j], ts[j], a));
        assert(crate::balance::annotated_copy(os[j], ts2[j], a));
    }
}

proof fn lemma_position_same_ids(ts: Seq<Transaction>, ts2: Seq<Transaction>, id: u128)
    requires
        ts.len() == ts2.len(),
        forall|j: int| 0 <= j < ts.len() ==> (#[trigger] ts[j]).id == ts2[j].id,
    ensures
        position_of(ts, id) == position_of(ts2, id),
    decreases ts.len(),
{
    if ts.len() > 0 {
        assert forall|j: int| 0 <= j < ts.drop_first().len() implies (#[trigger] ts.drop_first()[j]).id
            == ts2.drop_first()[j].id by {
            assert(ts.drop_first()[j] == ts[j + 1]);
            assert(ts2.drop_first()[j] == ts2[j + 1]);
        }
        lemma_position_same_ids(ts.drop_first(), ts2.drop_first(), id);
    }
}

/// Every entry on `a` of a transaction of `ts` is among the entries on `a` of all of them.
proof fn lemma_lines_contain(ts: Seq<Transaction>, a: u128, j: int, k: int)
    requires
        0 <= j < ts.len(),
        0 <= k < entries_of(ts[j].entries@, a).len(),
    ensures
        crate::balance::lines_of(ts, a).contains(entries_of(ts[j].entries@, a)[k]),
    decreases ts.len(),
{
    let x = entries_of(ts[j].entries@, a)[k];
    let pre = crate::balance::lines_of(ts.drop_last(), a);
    let last = entries_of(ts.last().entries@, a);
    assert(crate::balance::lines_of(ts, a) == pre + last);
    if j == ts.len() - 1 {
        assert((pre + last)[pre.len() + k] == x);
    } else {
        assert(ts.drop_last()[j] == ts[j]);
        lemma_lines_contain(ts.drop_last(), a, j, k);
        let w = choose|w: int| 0 <= w < pre.len() && pre[w] == x;
        assert((pre + last)[w] == x);
    }
}

/// In an account's view, the entries on the account carry balances.
proof fn lemma_view_balances(b: Books, a: u128, ts: Seq<Transaction>, p: int)
    requires
        account_view(b, a, ts),
        0 <= p < ts.len(),
        entries_of(ts[p].entries@, a).len() > 0,
    ensures
        first_line(ts[p], a).balance is Some,
{
    lemma_lines_contain(ts, a, p, 0);
    let lines = crate::balance::lines_of(ts, a);
    let w = choose|w: int| 0 <= w < lines.len() && lines[w] == first_line(ts[p], a);
    assert(lines[w].balance is Some);
}

/// `t2` has the id of `t` and entries on the same accounts and dates.
pub open spec fn same_shape(t: Transaction, t2: Transaction) -> bool {
    &&& t2.id == t.id
    &&& t2.entries@.len() == t.entries@.len()
    &&& forall|k: int|
        0 <= k < t.entries@.len() ==> (#[trigger] t2.entries@[k]).account_id == t.entries@[k].account_id
            && t2.entries@[k].date == t.entries@[k].date
}

/// Filtering two sequences that agree, position by position, on the predicate keeps a relation
/// that holds position by position.
proof fn lemma_filter_related<A>(s: Seq<A>, s2: Seq<A>, p: spec_fn(A) -> bool, rel: spec_fn(A, A) -> bool)
    requires
        s.len() == s2.len(),
        forall|i: int| 0 <= i < s.len() ==> p(#[trigger] s[i]) == p(s2[i]) && rel(s[i], s2[i]),
    ensures
        s.filter(p).len() == s2.filter(p).len(),
        forall|i: int| 0 <= i < s.filter(p).len() ==> rel(#[trigger] s.filter(p)[i], s2.filter(p)[i]),
    decreases s.len(),
{
    reveal(Seq::filter);
    if s.len() > 0 {
        let q = s.drop_last();
        let q2 = s2.drop_last();
        assert forall|i: int| 0 <= i < q.len() implies p(#[trigger] q[i]) == p(q2[i]) && rel(q[i], q2[i]) by {
            assert(q[i] == s[i] && q2[i] == s2[i]);
        }
        lemma_filter_related(q, q2, p, rel);
        assert(s.last() == s[s.len() - 1] && s2.last() == s2[s.len() - 1]);
    }
}

/// Transactions of the same shape fall in the same places of an account's order.
proof fn lemma_same_shape_order(ts: Seq<Transaction>, ts2: Seq<Transaction>, a: u128)
    requires
        ts.len() == ts2.len(),
        forall|i: int| 0 <= i < ts.len() ==> same_shape(#[trigger] ts[i], ts2[i]),
    ensures
        ordered_for(ts, a).len() == ordered_for(ts2, a).len(),
        forall|j: int| 0 <= j < ordered_for(ts, a).len() ==> (#[trigger] ordered_for(ts, a)[j]).id
            == ordered_for(ts2, a)[j].id,
{
    let pe = |e: Entry| e.account_id == a;
    let rele = |e: Entry, e2: Entry| e2.account_id == e.account_id && e2.date == e.date;
    let pt = |t: Transaction| involves(t, a);
    let relt = |t: Transaction, t2: Transaction| same_shape(t, t2) && (involves(t, a) ==> account_date(t, a) == account_date(t2, a));
    assert forall|i: int| 0 <= i < ts.len() implies pt(#[trigger] ts[i]) == pt(ts2[i]) && relt(ts[i], ts2[i]) by {
        let t = ts[i];
        let t2 = ts2[i];
        assert(same_shape(t, t2));
        if involves(t, a) {
            let w = choose|w: int| 0 <= w < t.entries@.len() && (#[trigger] t.entries@[w]).account_id == a;
            assert(t2.entries@[w].account_id == a);
        }
        if involves(t2, a) {
            let w = choose|w: int| 0 <= w < t2.entries@.len() && (#[trigger] t2.entries@[w]).account_id == a;
            assert(t.entries@[w].account_id == a);
        }
        assert forall|k: int| 0 <= k < t.entries@.len() implies pe(#[trigger] t.entries@[k]) == pe(t2.entries@[k])
            && rele(t.entries@[k], t2.entries@[k]) by {}
        lemma_filter_related(t.entries@, t2.entries@, pe, rele);
        if involves(t, a) {
            let w = choose|w: int| 0 <= w < t.entries@.len() && (#[trigger] t.entries@[w]).account_id == a;
            t.entries@.lemma_filter_contains(pe, w);
            assert(t.entries@.filter(pe).len() > 0);
            assert(rele(t.entries@.filter(pe)[0], t2.entries@.filter(pe)[0]));
        }
    }
    lemma_filter_related(ts, ts2, pt, relt);
    let f = ts.filter(pt);
    let f2 = ts2.filter(pt);
    let k1 = keyed_for(ts, a);
    let k2 = keyed_for(ts2, a);
    assert forall|k: int| 0 <= k < k1.len() implies (#[trigger] k1[k]).0 == k2[k].0 && relt(k1[k].1, k2[k].1) by {
        assert(relt(f[k], f2[k]));
        ts.lemma_filter_pred(pt, k);
    }
    crate::sort::lemma_sort_related(k1, k2, relt);
}

/// Account `a` of `accs2`, a list with unique ids where position `i` was replaced by an account
/// with id `a`, is that account.
proof fn lemma_account_with_update(accs: Seq<Account>, i: int, x: Account, a: u128)
    requires
        crate::books::unique_ids(accs),
        0 <= i < accs.len(),
        accs[i].id == a,
        x.id == a,
    ensures
        account_with(accs.update(i, x), a) == x,
{
    let accs2 = accs.update(i, x);
    assert(accs2[i].id == a);
    let c = choose|c: int| 0 <= c < accs2.len() && (#[trigger] accs2[c]).id == a;
    if c != i {
        assert(accs2[c] == accs[c]);
        if c < i {
            assert(accs[c].id != accs[i].id);
        } else {
            assert(accs[i].id != accs[c].id);
        }
    }
}

/// A cutoff only moves forward: once the reconciliation of an account has been committed up to
/// a transaction, committing it again up to that transaction or one before it in the account's
/// order changes neither the accounts nor the transactions.
pub proof fn lemma_cutoff_moves_forward(
    b: Books,
    a: u128,
    tid: u128,
    ts: Seq<Transaction>,
    b2: Books,
    ts2: Seq<Transaction>,
    tid2: u128,
    b3: Books,
)
    requires
        wf_books(b),
        has_account(b.accounts@, a),
        account_view(b, a, ts),
        position_of(ts, tid) >= 0,
        committed(b, a, tid, ts, b2),
        account_view(b2, a, ts2),
        0 <= position_of(ts2, tid2) <= position_of(ts2, tid),
        committed(b2, a, tid2, ts2, b3),
    ensures
        b3.accounts@ == b2.accounts@,
        b3.transactions@ == b2.transactions@,
{
    let p = position_of(ts, tid);
    let acc = account_with(b.accounts@, a);
    assert(acc.id == a);
    let tsb = b.transactions@;
    let tsb2 = b2.transactions@;
    if cutoff_position(acc, ts) >= p {
        assert(account_view(b, a, ts2));
        lemma_view_ids(b, a, ts, ts2);
        lemma_position_same_ids(ts, ts2, tid);
        let c = acc.cutoff.unwrap();
        lemma_position_same_ids(ts, ts2, c.transaction_id);
    } else {
        assert forall|i: int| 0 <= i < tsb.len() implies same_shape(#[trigger] tsb[i], tsb2[i]) by {
            assert(marked(tsb[i], tsb2[i], a, among_first(ts, p, tsb[i].id)));
        }
        lemma_same_shape_order(tsb, tsb2, a);
        let os = ordered_for(tsb, a);
        let os2 = ordered_for(tsb2, a);
        assert forall|j: int| 0 <= j < ts.len() implies (#[trigger] ts[j]).id == ts2[j].id by {
            assert(crate::balance::annotated_copy(os[j], ts[j], a));
            assert(crate::balance::annotated_copy(os2[j], ts2[j], a));
        }
        lemma_position_same_ids(ts, ts2, tid);
        let line = first_line(ts[p], a);
        let acc2 = Account {
            cutoff: Some(Cutoff { date: line.date, balance: line.balance.unwrap(), transaction_id: tid }),
            ..acc
        };
        let i = choose|i: int|
            0 <= i < b.accounts@.len() && b.accounts@[i].id == a && b2.accounts@ == b.accounts@.update(i, acc2);
        lemma_account_with_update(b.accounts@, i, acc2, a);
    }
}

/// The ledger `b2` is `b` with other accounts and transactions.
pub open spec fn same_but_ledger(b: Books, b2: Books) -> bool {
    &&& b2.id == b.id
    &&& b2.name == b.name
    &&& b2.version == b.version
    &&& b2.scheduler.schedules@ == b.scheduler.schedules@
    &&& b2.scheduler.modifiers@ == b.scheduler.modifiers@
    &&& b2.scheduler.end_date == b.scheduler.end_date
    &&& b2.settings == b.settings
}

/// Whether `id` is among `ids`.
fn contains_id(ids: &Vec<u128>, id: u128) -> (r: bool)
    ensures
        r == exists|w: int| 0 <= w < ids@.len() && ids@[w] == id,
{
    let mut i: usize = 0;
    while i < ids.len()
        invariant
            i <= ids@.len(),
            forall|w: int| 0 <= w < i ==> ids@[w] != id,
        decreases ids@.len() - i,
    {
        if ids[i] == id {
            return true;
        }
        i = i + 1;
    }
    false
}

/// `t` with its entries on `a` marked reconciled when `mark` holds.
fn mark_entries(t: Transaction, a: u128, mark: bool) -> (r: Transaction)
    ensures
        marked(t, r, a, mark),
{
    let ghost es = t.entries@;
    let Transaction { id, entries, status, schedule_id } = t;
    let mut rest = entries;
    let mut out: Vec<Entry> = Vec::new();
    while rest.len() > 0
        invariant
            es.len() == out@.len() + rest@.len(),
            rest@ == es.skip(out@.len() as int),
            forall|k: int|
                0 <= k < out@.len() ==> #[trigger] out@[k] == if mark && es[k].account_id == a {
                    Entry { reconciled: true, ..es[k] }
                } else {
                    es[k]
                },
        decreases rest@.len(),
    {
        let ghost d = out@.len() as int;
        let mut e = rest.remove(0);
        assert(e == es[d]);
        proof {
            assert(rest@ =~= es.skip(d + 1));
        }
        if mark && e.account_id == a {
            e.reconciled = true;
        }
        out.push(e);
    }
    Transaction { id, entries: out, status, schedule_id }
}

} // verus!
