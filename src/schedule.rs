use vstd::prelude::*;
use crate::account::{new_id, Entry, Side, Transaction, TransactionStatus};
use crate::date::{date_le, day_number, valid_date, Date};
use crate::error::BooksError;
use crate::modifier::{compound, compound_units, wf_modifier, Modifier};
use crate::recurrence::{calculate_next_date, lemma_next_after, next_occurrence, ScheduleEnum};

verus! {

/// Template of one entry of the transactions that a schedule produces.
#[derive(Debug)]
pub struct ScheduleEntry {
    pub schedule_id: u128,
    pub description: String,
    pub account_id: u128,
    pub entry_type: Side,
    /// In ten-thousandths.
    pub amount: i128,
}

impl ScheduleEntry {
    /// A copy of this template.
    pub fn duplicate(&self) -> (r: ScheduleEntry)
        ensures
            r == *self,
    {
        ScheduleEntry {
            schedule_id: self.schedule_id,
            description: self.description.clone(),
            account_id: self.account_id,
            entry_type: self.entry_type,
            amount: self.amount,
        }
    }
}

/// The progress of one modifier on one schedule.
#[derive(Clone, Copy, Debug, PartialEq, Eq, Structural)]
pub struct ModifierBinding {
    pub modifier_id: u128,
    /// How many times the modifier has fired for this schedule.
    pub cycle_count: u64,
    /// The date at which it last fired; `None` before the first time.
    pub next_date: Option<Date>,
}

/// A recurring template of transactions.
#[derive(Debug)]
pub struct Schedule {
    pub id: u128,
    pub name: String,
    pub period: ScheduleEnum,
    pub frequency: i64,
    /// The anchor: the first occurrence.
    pub start_date: Date,
    pub end_date: Option<Date>,
    /// The last occurrence produced; `None` before the first.
    pub last_date: Option<Date>,
    pub entries: Vec<ScheduleEntry>,
    pub modifiers: Vec<ModifierBinding>,
}

pub open spec fn wf_binding(b: ModifierBinding) -> bool {
    b.next_date matches Some(d) ==> valid_date(d)
}

pub open spec fn wf_schedule(s: Schedule) -> bool {
    &&& valid_date(s.start_date)
    &&& s.frequency >= 1
    &&& (s.last_date matches Some(d) ==> valid_date(d))
    &&& (s.end_date matches Some(d) ==> valid_date(d))
    &&& forall|i: int| 0 <= i < s.modifiers@.len() ==> wf_binding(#[trigger] s.modifiers@[i])
}

/// A table of modifiers: each well formed, no id twice.
pub open spec fn wf_table(ms: Seq<Modifier>) -> bool {
    &&& forall|i: int| 0 <= i < ms.len() ==> wf_modifier(#[trigger] ms[i])
    &&& forall|i: int, j: int| 0 <= i < j < ms.len() ==> ms[i].id != ms[j].id
}

pub open spec fn has_modifier(ms: Seq<Modifier>, id: u128) -> bool {
    exists|i: int| 0 <= i < ms.len() && (#[trigger] ms[i]).id == id
}

/// The modifier of the table with the given id.
pub open spec fn modifier_with(ms: Seq<Modifier>, id: u128) -> Modifier {
    ms[choose|i: int| 0 <= i < ms.len() && (#[trigger] ms[i]).id == id]
}

/// The occurrence of a schedule that comes next: its anchor at first, then the occurrence that
/// follows the last one.
pub open spec fn schedule_next_date(s: Schedule) -> Option<Date> {
    match s.last_date {
        None => Some(s.start_date),
        Some(l) => next_occurrence(l, s.period, s.frequency as int, s.start_date),
    }
}

/// The date from which a binding's next boundary is counted.
pub open spec fn binding_base(b: ModifierBinding, m: Modifier) -> Date {
    match b.next_date {
        Some(d) => d,
        None => m.start_date,
    }
}

/// The next boundary of a binding's modifier.
pub open spec fn binding_next_date(b: ModifierBinding, m: Modifier) -> Option<Date> {
    next_occurrence(binding_base(b, m), m.period, m.frequency as int, m.start_date)
}

/// A binding once an occurrence on `nd` has been reached: it fires when its next boundary is
/// on or before `nd`.
pub open spec fn advance_binding(b: ModifierBinding, m: Modifier, nd: Date) -> ModifierBinding {
    match binding_next_date(b, m) {
        Some(x) => if date_le(x, nd) {
            ModifierBinding {
                modifier_id: b.modifier_id,
                cycle_count: (b.cycle_count + 1) as u64,
                next_date: Some(x),
            }
        } else {
            b
        },
        None => b,
    }
}

pub open spec fn advance_all(bs: Seq<ModifierBinding>, ms: Seq<Modifier>, nd: Date) -> Seq<
    ModifierBinding,
> {
    Seq::new(bs.len(), |i: int| advance_binding(bs[i], modifier_with(ms, bs[i].modifier_id), nd))
}

/// Every binding names a modifier of the table.
pub open spec fn bindings_known(bs: Seq<ModifierBinding>, ms: Seq<Modifier>) -> bool {
    forall|i: int| 0 <= i < bs.len() ==> has_modifier(ms, (#[trigger] bs[i]).modifier_id)
}

/// Every binding names a modifier of the table and can still count one more cycle.
pub open spec fn bindings_ok(bs: Seq<ModifierBinding>, ms: Seq<Modifier>) -> bool {
    &&& bindings_known(bs, ms)
    &&& forall|i: int| 0 <= i < bs.len() ==> (#[trigger] bs[i]).cycle_count < u64::MAX
}

/// An amount passed through the modifiers of the bindings in order, each compounding its own
/// cycle count; `None` when a value is too large for a decimal.
pub open spec fn applied(a: int, bs: Seq<ModifierBinding>, ms: Seq<Modifier>) -> Option<int>
    decreases bs.len(),
{
    if bs.len() == 0 {
        Some(a)
    } else {
        match applied(a, bs.drop_last(), ms) {
            None => None,
            Some(v) => {
                let b = bs.last();
                let m = modifier_with(ms, b.modifier_id);
                compound_units(v, m.amount as int, m.percentage as int, b.cycle_count as nat)
            },
        }
    }
}

pub open spec fn amounts_ok(es: Seq<ScheduleEntry>, bs: Seq<ModifierBinding>, ms: Seq<Modifier>) -> bool {
    forall|i: int| 0 <= i < es.len() ==> (#[trigger] applied(es[i].amount as int, bs, ms)) is Some
}

/// An occurrence on `nd` is produced when it is within the horizon and the schedule's end.
pub open spec fn emits(s: Schedule, max_date: Date, nd: Date) -> bool {
    date_le(nd, max_date) && (s.end_date matches Some(e) ==> date_le(nd, e))
}

/// `t` is the transaction that schedule `s` produces on `nd` with the bindings `bs`.
pub open spec fn produced(s: Schedule, nd: Date, bs: Seq<ModifierBinding>, ms: Seq<Modifier>, t: Transaction) -> bool {
    &&& t.status == TransactionStatus::Projected
    &&& t.schedule_id == Some(s.id)
    &&& t.entries@.len() == s.entries@.len()
    &&& forall|i: int|
        0 <= i < t.entries@.len() ==> {
            let e = #[trigger] t.entries@[i];
            let te = s.entries@[i];
            &&& e.transaction_id == t.id
            &&& e.date == nd
            &&& e.description@ == te.description@
            &&& e.account_id == te.account_id
            &&& e.entry_type == te.entry_type
            &&& Some(e.amount as int) == applied(te.amount as int, bs, ms)
            &&& e.balance is None
            &&& !e.reconciled
        }
}

/// The schedule `s2` is `s` with new bindings and last date.
pub open spec fn same_but(s: Schedule, s2: Schedule, bs: Seq<ModifierBinding>, last: Option<Date>) -> bool {
    &&& s2.id == s.id
    &&& s2.name == s.name
    &&& s2.period == s.period
    &&& s2.frequency == s.frequency
    &&& s2.start_date == s.start_date
    &&& s2.end_date == s.end_date
    &&& s2.last_date == last
    &&& s2.entries@ == s.entries@
    &&& s2.modifiers@ == bs
}

/// The outcome `r` and schedule `s2` of asking schedule `s` for its next occurrence up to
/// `max_date`: bindings advance once the occurrence date is reached; a transaction comes out when
/// the date is within the horizon and the schedule's end; nothing changes on an error.
pub open spec fn next_step(
    s: Schedule,
    max_date: Date,
    ms: Seq<Modifier>,
    r: Result<Option<Transaction>, BooksError>,
    s2: Schedule,
) -> bool {
    match schedule_next_date(s) {
        None => r matches Ok(None) && same_but(
            s,
            s2,
            s.modifiers@,
            s.last_date,
        ),
        Some(nd) => {
            let bs = advance_all(s.modifiers@, ms, nd);
            if !bindings_ok(s.modifiers@, ms) {
                r is Err && same_but(
                    s,
                    s2,
                    s.modifiers@,
                    s.last_date,
                )
            } else if !emits(s, max_date, nd) {
                r matches Ok(None) && same_but(
                    s,
                    s2,
                    bs,
                    s.last_date,
                )
            } else if !amounts_ok(s.entries@, bs, ms) {
                r is Err && same_but(
                    s,
                    s2,
                    s.modifiers@,
                    s.last_date,
                )
            } else {
                &&& r matches Ok(Some(t)) && produced(s, nd, bs, ms, t)
                &&& same_but(s, s2, bs, Some(nd))
            }
        },
    }
}

/// The day number below which a schedule's next occurrence cannot fall.
pub open spec fn progress(s: Schedule) -> int {
    match s.last_date {
        Some(d) => day_number(d),
        None => day_number(s.start_date) - 1,
    }
}

/// `s2` holds the same values as `s`.
pub open spec fn same_schedule(s: Schedule, s2: Schedule) -> bool {
    same_but(s, s2, s.modifiers@, s.last_date)
}

/// Whether `d` is a date of the calendar.
pub fn is_valid(d: Date) -> (r: bool)
    ensures
        r == valid_date(d),
{
    Date::from_ymd(d.year, d.month, d.day).is_some()
}

/// The position of the modifier with id `id` in the table.
pub fn find_modifier(ms: &Vec<Modifier>, id: u128) -> (r: Option<usize>)
    requires
        wf_table(ms@),
    ensures
        r is None <==> !has_modifier(ms@, id),
        r matches Some(i) ==> i < ms@.len() && ms@[i as int] == modifier_with(ms@, id),
{
    let mut i: usize = 0;
    while i < ms.len()
        invariant
            i <= ms@.len(),
            wf_table(ms@),
            forall|j: int| 0 <= j < i ==> (#[trigger] ms@[j]).id != id,
        decreases ms@.len() - i,
    {
        if ms[i].id == id {
            proof {
                let c = choose|k: int| 0 <= k < ms@.len() && (#[trigger] ms@[k]).id == id;
                assert(0 <= c < ms@.len() && ms@[c].id == id);
                if c != i {
                    if c < i {
                        assert(ms@[c].id != ms@[i as int].id);
                    } else {
                        assert(ms@[i as int].id != ms@[c].id);
                    }
                }
            }
            return Some(i);
        }
        i = i + 1;
    }
    None
}

impl ModifierBinding {
    /// The next boundary of modifier `m` for this binding.
    pub fn next_modifier_date(&self, m: &Modifier) -> (r: Option<Date>)
        requires
            wf_binding(*self),
            wf_modifier(*m),
        ensures
            r == binding_next_date(*self, *m),
            r matches Some(x) ==> valid_date(x),
    {
        let base = match self.next_date {
            Some(d) => d,
            None => m.start_date,
        };
        calculate_next_date(base, m.period, m.frequency, m.start_date)
    }

    /// Counts one more cycle, fired on `new_last_date`.
    pub fn increment(&mut self, new_last_date: Date)
        requires
            old(self).cycle_count < u64::MAX,
        ensures
            *final(self) == (ModifierBinding {
                modifier_id: old(self).modifier_id,
                cycle_count: (old(self).cycle_count + 1) as u64,
                next_date: Some(new_last_date),
            }),
    {
        self.cycle_count = self.cycle_count + 1;
        self.next_date = Some(new_last_date);
    }
}

/// `amount` passed through the modifiers of `bs` in order.
pub fn apply_bindings(amount: i128, bs: &Vec<ModifierBinding>, ms: &Vec<Modifier>) -> (r: Option<
    i128,
>)
    requires
        wf_table(ms@),
        bindings_known(bs@, ms@),
    ensures
        r is Some <==> applied(amount as int, bs@, ms@) is Some,
        r matches Some(v) ==> applied(amount as int, bs@, ms@) == Some(v as int),
{
    let mut v: i128 = amount;
    let mut i: usize = 0;
    while i < bs.len()
        invariant
            i <= bs@.len(),
            wf_table(ms@),
            bindings_known(bs@, ms@),
            applied(amount as int, bs@.take(i as int), ms@) == Some(v as int),
        decreases bs@.len() - i,
    {
        let b = bs[i];
        proof {
            assert(bs@.take(i as int + 1).drop_last() == bs@.take(i as int));
            assert(has_modifier(ms@, bs@[i as int].modifier_id));
        }
        let j = find_modifier(ms, b.modifier_id).unwrap();
        let next = compound(v, ms[j].amount, ms[j].percentage, b.cycle_count);
        match next {
            None => {
                proof {
                    lemma_applied_stuck(amount as int, bs@, ms@, i as int + 1);
                }
                return None;
            },
            Some(x) => {
                v = x;
            },
        }
        i = i + 1;
    }
    proof {
        assert(bs@.take(bs@.len() as int) == bs@);
    }
    Some(v)
}

/// Once a step of the chain fails, the whole chain fails.
proof fn lemma_applied_stuck(a: int, bs: Seq<ModifierBinding>, ms: Seq<Modifier>, k: int)
    requires
        0 <= k <= bs.len(),
        applied(a, bs.take(k), ms) is None,
    ensures
        applied(a, bs, ms) is None,
    decreases bs.len() - k,
{
    if k < bs.len() {
        assert(bs.take(k + 1).drop_last() == bs.take(k));
        lemma_applied_stuck(a, bs, ms, k + 1);
    } else {
        assert(bs.take(k) == bs);
    }
}

impl Schedule {
    /// A copy of this schedule.
    pub fn duplicate(&self) -> (r: Schedule)
        ensures
            same_schedule(*self, r),
    {
        let mut entries: Vec<ScheduleEntry> = Vec::new();
        let mut i: usize = 0;
        while i < self.entries.len()
            invariant
                i <= self.entries@.len(),
                entries@ == self.entries@.take(i as int),
            decreases self.entries@.len() - i,
        {
            entries.push(self.entries[i].duplicate());
            proof {
                assert(self.entries@.take(i as int + 1) == self.entries@.take(i as int).push(
                    self.entries@[i as int],
                ));
            }
            i = i + 1;
        }
        let mut modifiers: Vec<ModifierBinding> = Vec::new();
        let mut j: usize = 0;
        while j < self.modifiers.len()
            invariant
                j <= self.modifiers@.len(),
                modifiers@ == self.modifiers@.take(j as int),
            decreases self.modifiers@.len() - j,
        {
            modifiers.push(self.modifiers[j]);
            proof {
                assert(self.modifiers@.take(j as int + 1) == self.modifiers@.take(j as int).push(
                    self.modifiers@[j as int],
                ));
            }
            j = j + 1;
        }
        proof {
            assert(self.entries@.take(self.entries@.len() as int) == self.entries@);
            assert(self.modifiers@.take(self.modifiers@.len() as int) == self.modifiers@);
        }
        let r = Schedule {
            id: self.id,
            name: self.name.clone(),
            period: self.period,
            frequency: self.frequency,
            start_date: self.start_date,
            end_date: self.end_date,
            last_date: self.last_date,
            entries,
            modifiers,
        };
        proof {
            assert(r.entries@ == self.entries@);
            assert(r.modifiers@ == self.modifiers@);
        }
        r
    }

    /// Whether the dates of this schedule and its bindings are dates of the calendar and its
    /// frequency is positive.
    pub fn has_valid_timing(&self) -> (r: bool)
        ensures
            r == wf_schedule(*self),
    {
        if !is_valid(self.start_date) || self.frequency < 1 {
            return false;
        }
        if let Some(d) = self.last_date {
            if !is_valid(d) {
                return false;
            }
        }
        if let Some(d) = self.end_date {
            if !is_valid(d) {
                return false;
            }
        }
        let mut i: usize = 0;
        while i < self.modifiers.len()
            invariant
                i <= self.modifiers@.len(),
                forall|j: int| 0 <= j < i ==> wf_binding(#[trigger] self.modifiers@[j]),
            decreases self.modifiers@.len() - i,
        {
            if let Some(d) = self.modifiers[i].next_date {
                if !is_valid(d) {
                    return false;
                }
            }
            i = i + 1;
        }
        true
    }

    /// The date of the next occurrence; `None` when it would lie outside the calendar.
    pub fn get_next_date(&self) -> (r: Option<Date>)
        requires
            wf_schedule(*self),
        ensures
            r == schedule_next_date(*self),
            r matches Some(x) ==> valid_date(x) && progress(*self) < day_number(x),
    {
        match self.last_date {
            Some(d) => {
                let r = calculate_next_date(d, self.period, self.frequency, self.start_date);
                proof {
                    if r is Some {
                        lemma_next_after(d, self.period, self.frequency as int, self.start_date, r);
                    }
                }
                r
            },
            None => Some(self.start_date),
        }
    }

    pub fn set_last_date(&mut self, last_date: Date)
        requires
            wf_schedule(*old(self)),
            valid_date(last_date),
        ensures
            wf_schedule(*final(self)),
            same_but(*old(self), *final(self), old(self).modifiers@, Some(last_date)),
    {
        self.last_date = Some(last_date);
    }

    /// The bindings once an occurrence on `nd` is reached.
    fn advanced_bindings(&self, nd: Date, ms: &Vec<Modifier>) -> (r: Result<
        Vec<ModifierBinding>,
        BooksError,
    >)
        requires
            wf_schedule(*self),
            wf_table(ms@),
        ensures
            r is Ok <==> bindings_ok(self.modifiers@, ms@),
            r matches Ok(bs) ==> bs@ == advance_all(self.modifiers@, ms@, nd) && forall|i: int|
                0 <= i < bs@.len() ==> wf_binding(#[trigger] bs@[i]),
    {
        let mut bs: Vec<ModifierBinding> = Vec::new();
        let mut i: usize = 0;
        while i < self.modifiers.len()
            invariant
                i <= self.modifiers@.len(),
                wf_schedule(*self),
                wf_table(ms@),
                bs@.len() == i,
                forall|k: int|
                    0 <= k < i ==> {
                        &&& has_modifier(ms@, (#[trigger] self.modifiers@[k]).modifier_id)
                        &&& self.modifiers@[k].cycle_count < u64::MAX
                        &&& bs@[k] == advance_binding(
                            self.modifiers@[k],
                            modifier_with(ms@, self.modifiers@[k].modifier_id),
                            nd,
                        )
                        &&& wf_binding(bs@[k])
                    },
            decreases self.modifiers@.len() - i,
        {
            let b = self.modifiers[i];
            assert(wf_binding(self.modifiers@[i as int]));
            let found = find_modifier(ms, b.modifier_id);
            if found.is_none() {
                return Err(BooksError::with_id("Modifier ", b.modifier_id, " not found."));
            }
            if b.cycle_count == u64::MAX {
                return Err(BooksError::from_str("A modifier has reached its largest cycle count."));
            }
            let j = found.unwrap();
            let md = b.next_modifier_date(&ms[j]);
            let mut nb = b;
            if let Some(x) = md {
                if x.le(&nd) {
                    nb.increment(x);
                }
            }
            bs.push(nb);
            i = i + 1;
        }
        proof {
            assert(bs@ == advance_all(self.modifiers@, ms@, nd));
        }
        Ok(bs)
    }

    /// Produces the next occurrence of this schedule when it falls on or before `max_date` and
    /// the schedule's end. The bindings advance whenever an occurrence date is reached, whether
    /// or not a transaction comes out.
    pub fn schedule_next(&mut self, max_date: Date, ms: &Vec<Modifier>) -> (r: Result<
        Option<Transaction>,
        BooksError,
    >)
        requires
            wf_schedule(*old(self)),
            valid_date(max_date),
            wf_table(ms@),
        ensures
            wf_schedule(*final(self)),
            next_step(*old(self), max_date, ms@, r, *final(self)),
            schedule_next_date(*old(self)) matches Some(nd) ==> progress(*old(self)) < day_number(
                nd,
            ),
    {
        let next = self.get_next_date();
        let nd = match next {
            None => {
                return Ok(None);
            },
            Some(d) => d,
        };
        let bs = match self.advanced_bindings(nd, ms) {
            Err(e) => {
                return Err(e);
            },
            Ok(bs) => bs,
        };
        let within = nd.le(&max_date) && match self.end_date {
            Some(e) => nd.le(&e),
            None => true,
        };
        if !within {
            self.modifiers = bs;
            return Ok(None);
        }
        proof {
            assert(bindings_known(bs@, ms@)) by {
                assert forall|i: int| 0 <= i < bs@.len() implies has_modifier(
                    ms@,
                    (#[trigger] bs@[i]).modifier_id,
                ) by {
                    assert(has_modifier(ms@, self.modifiers@[i].modifier_id));
                    assert(bs@[i].modifier_id == self.modifiers@[i].modifier_id);
                }
            }
        }
        let transaction_id = new_id();
        let mut entries: Vec<Entry> = Vec::new();
        let mut i: usize = 0;
        while i < self.entries.len()
            invariant
                i <= self.entries@.len(),
                wf_table(ms@),
                bindings_known(bs@, ms@),
                *self == *old(self),
                wf_schedule(*self),
                bindings_ok(self.modifiers@, ms@),
                bs@ == advance_all(self.modifiers@, ms@, nd),
                schedule_next_date(*self) == Some(nd),
                progress(*self) < day_number(nd),
                emits(*self, max_date, nd),
                entries@.len() == i,
                forall|k: int|
                    0 <= k < i ==> {
                        let e = #[trigger] entries@[k];
                        let te = self.entries@[k];
                        &&& e.transaction_id == transaction_id
                        &&& e.date == nd
                        &&& e.description@ == te.description@
                        &&& e.account_id == te.account_id
                        &&& e.entry_type == te.entry_type
                        &&& Some(e.amount as int) == applied(te.amount as int, bs@, ms@)
                        &&& e.balance is None
                        &&& !e.reconciled
                    },
                forall|k: int|
                    0 <= k < i ==> (#[trigger] applied(self.entries@[k].amount as int, bs@, ms@))
                        is Some,
            decreases self.entries@.len() - i,
        {
            let te = &self.entries[i];
            let amount = match apply_bindings(te.amount, &bs, ms) {
                None => {
                    return Err(BooksError::from_str("A modified amount does not fit."));
                },
                Some(v) => v,
            };
            entries.push(
                Entry {
                    id: new_id(),
                    transaction_id,
                    date: nd,
                    description: te.description.clone(),
                    account_id: te.account_id,
                    entry_type: te.entry_type,
                    amount,
                    balance: None,
                    reconciled: false,
                },
            );
            i = i + 1;
        }
        self.modifiers = bs;
        self.last_date = Some(nd);
        Ok(
            Some(
                Transaction {
                    id: transaction_id,
                    entries,
                    status: TransactionStatus::Projected,
                    schedule_id: Some(self.id),
                },
            ),
        )
    }
}

} // verus!
