use vstd::prelude::*;
use crate::account::Transaction;
use crate::date::{day_number, valid_date, Date};
use crate::error::{id_text, BooksError};
use crate::modifier::{wf_modifier, Modifier};
use crate::schedule::{
    next_step, progress, same_schedule, schedule_next_date, wf_schedule, wf_table, Schedule,
};
use crate::sort::{seconds, sort_by_date, stable_sort};

verus! {

/// Runs the schedules of a ledger: the schedules, the table of modifiers they refer to, and the
/// horizon up to which occurrences have been produced.
#[derive(Debug)]
pub struct Scheduler {
    pub schedules: Vec<Schedule>,
    pub modifiers: Vec<Modifier>,
    pub end_date: Option<Date>,
}

pub open spec fn wf_scheduler(s: Scheduler) -> bool {
    &&& forall|i: int| 0 <= i < s.schedules@.len() ==> wf_schedule(#[trigger] s.schedules@[i])
    &&& wf_table(s.modifiers@)
    &&& (s.end_date matches Some(d) ==> valid_date(d))
}

/// `ts` are the occurrences, with their dates, that schedule `s0` produces on its way to `s`.
pub open spec fn runs_to(
    s0: Schedule,
    max_date: Date,
    ms: Seq<Modifier>,
    ts: Seq<(Date, Transaction)>,
    s: Schedule,
) -> bool
    decreases ts.len(),
{
    if ts.len() == 0 {
        same_schedule(s0, s)
    } else {
        exists|s1: Schedule|
            runs_to(s0, max_date, ms, ts.drop_last(), s1) && #[trigger] next_step(
                s1,
                max_date,
                ms,
                Ok(Some(ts.last().1)),
                s,
            ) && schedule_next_date(s1) == Some(ts.last().0)
    }
}

/// `ts` are all the occurrences that schedule `s0` produces up to `max_date`, and `s` is the
/// schedule afterwards.
pub open spec fn runs(
    s0: Schedule,
    max_date: Date,
    ms: Seq<Modifier>,
    ts: Seq<(Date, Transaction)>,
    s: Schedule,
) -> bool {
    exists|s1: Schedule|
        runs_to(s0, max_date, ms, ts, s1) && #[trigger] next_step(s1, max_date, ms, Ok(None), s)
}

proof fn lemma_runs_to_same_start(
    s0: Schedule,
    c0: Schedule,
    max_date: Date,
    ms: Seq<Modifier>,
    ts: Seq<(Date, Transaction)>,
    s: Schedule,
)
    requires
        same_schedule(s0, c0),
        runs_to(c0, max_date, ms, ts, s),
    ensures
        runs_to(s0, max_date, ms, ts, s),
    decreases ts.len(),
{
    if ts.len() > 0 {
        let s1 = choose|s1: Schedule|
            runs_to(c0, max_date, ms, ts.drop_last(), s1) && #[trigger] next_step(
                s1,
                max_date,
                ms,
                Ok(Some(ts.last().1)),
                s,
            ) && schedule_next_date(s1) == Some(ts.last().0);
        lemma_runs_to_same_start(s0, c0, max_date, ms, ts.drop_last(), s1);
    }
}

/// What a copy of a schedule produces, the schedule itself produces.
proof fn lemma_runs_same_start(
    s0: Schedule,
    c0: Schedule,
    max_date: Date,
    ms: Seq<Modifier>,
    ts: Seq<(Date, Transaction)>,
    s: Schedule,
)
    requires
        same_schedule(s0, c0),
        runs(c0, max_date, ms, ts, s),
    ensures
        runs(s0, max_date, ms, ts, s),
{
    let s1 = choose|s1: Schedule|
        runs_to(c0, max_date, ms, ts, s1) && #[trigger] next_step(s1, max_date, ms, Ok(None), s);
    lemma_runs_to_same_start(s0, c0, max_date, ms, ts, s1);
}

/// `ts` is what a run of the scheduler `sch` up to `end_date` produces, leaving `sch2`: every
/// schedule produces its occurrences in turn, and all of them are ordered by date, those of
/// earlier schedules first on equal dates.
pub open spec fn generated(sch: Scheduler, end_date: Date, ts: Seq<Transaction>, sch2: Scheduler) -> bool {
    &&& sch2.end_date == Some(end_date)
    &&& sch2.modifiers@ == sch.modifiers@
    &&& generated_from(sch.schedules@, sch.modifiers@, end_date, ts, sch2.schedules@)
}

/// `ts` is what the schedules `ss`, with the modifier table `ms`, produce up to `end_date`,
/// leaving the schedules `ss2`.
pub open spec fn generated_from(
    ss: Seq<Schedule>,
    ms: Seq<Modifier>,
    end_date: Date,
    ts: Seq<Transaction>,
    ss2: Seq<Schedule>,
) -> bool {
    &&& ss2.len() == ss.len()
    &&& exists|runs_of: Seq<Seq<(Date, Transaction)>>|
        {
            &&& runs_of.len() == ss.len()
            &&& forall|i: int|
                0 <= i < runs_of.len() ==> runs(ss[i], end_date, ms, #[trigger] runs_of[i], ss2[i])
            &&& ts == stable_sort(runs_of.flatten()).map_values(|p: (Date, Transaction)| p.1)
        }
}

/// On its way up to `max_date`, schedule `s0` reaches a step that fails: a binding names no
/// modifier of the table or cannot count one more cycle, or a modified amount leaves `i128`.
pub open spec fn run_fails(s0: Schedule, max_date: Date, ms: Seq<Modifier>) -> bool {
    exists|ts: Seq<(Date, Transaction)>, s1: Schedule, e: BooksError, s2: Schedule|
        #![trigger runs_to(s0, max_date, ms, ts, s1), next_step(s1, max_date, ms, Err(e), s2)]
        runs_to(s0, max_date, ms, ts, s1) && next_step(s1, max_date, ms, Err(e), s2)
}

/// One of the schedules `ss` reaches a failing step on its way up to `max_date`.
pub open spec fn some_run_fails(ss: Seq<Schedule>, max_date: Date, ms: Seq<Modifier>) -> bool {
    exists|i: int| 0 <= i < ss.len() && run_fails(#[trigger] ss[i], max_date, ms)
}

/// What fails for a copy of a schedule fails for the schedule itself.
proof fn lemma_run_fails_same_start(s0: Schedule, c0: Schedule, max_date: Date, ms: Seq<Modifier>)
    requires
        same_schedule(s0, c0),
        run_fails(c0, max_date, ms),
    ensures
        run_fails(s0, max_date, ms),
{
    let (ts, s1, e, s2) = choose|ts: Seq<(Date, Transaction)>, s1: Schedule, e: BooksError, s2: Schedule|
        #![trigger runs_to(c0, max_date, ms, ts, s1), next_step(s1, max_date, ms, Err(e), s2)]
        runs_to(c0, max_date, ms, ts, s1) && next_step(s1, max_date, ms, Err(e), s2);
    lemma_runs_to_same_start(s0, c0, max_date, ms, ts, s1);
}

/// Produces every occurrence of `s` up to `max_date`, each with its date.
pub fn run_schedule(s: &mut Schedule, max_date: Date, ms: &Vec<Modifier>) -> (r: Result<
    Vec<(Date, Transaction)>,
    BooksError,
>)
    requires
        wf_schedule(*old(s)),
        valid_date(max_date),
        wf_table(ms@),
    ensures
        wf_schedule(*final(s)),
        r matches Ok(ts) ==> runs(*old(s), max_date, ms@, ts@, *final(s)),
        r is Err ==> run_fails(*old(s), max_date, ms@),
{
    let mut ts: Vec<(Date, Transaction)> = Vec::new();
    loop
        invariant
            wf_schedule(*s),
            valid_date(max_date),
            wf_table(ms@),
            runs_to(*old(s), max_date, ms@, ts@, *s),
        decreases day_number(max_date) - progress(*s),
    {
        let ghost before = *s;
        let step = s.schedule_next(max_date, ms);
        match step {
            Err(e) => {
                proof {
                    assert(runs_to(*old(s), max_date, ms@, ts@, before) && next_step(
                        before,
                        max_date,
                        ms@,
                        Err(e),
                        *s,
                    ));
                }
                return Err(e);
            },
            Ok(None) => {
                proof {
                    assert(next_step(before, max_date, ms@, Ok(None), *s));
                }
                return Ok(ts);
            },
            Ok(Some(t)) => {
                let nd = s.last_date.unwrap();
                proof {
                    crate::date::lemma_day_number_order(nd, max_date);
                }
                let ghost ts0 = ts@;
                ts.push((nd, t));
                proof {
                    assert(ts@.drop_last() == ts0);
                    assert(next_step(before, max_date, ms@, Ok(Some(ts@.last().1)), *s));
                }
            },
        }
    }
}

impl Scheduler {
    pub fn build_empty() -> (r: Scheduler)
        ensures
            wf_scheduler(r),
            r.schedules@.len() == 0,
            r.modifiers@.len() == 0,
            r.end_date is None,
    {
        Scheduler { schedules: Vec::new(), modifiers: Vec::new(), end_date: None }
    }

    pub fn add_schedule(&mut self, schedule: Schedule)
        requires
            wf_scheduler(*old(self)),
            wf_schedule(schedule),
        ensures
            wf_scheduler(*final(self)),
            final(self).schedules@ == old(self).schedules@.push(schedule),
            final(self).modifiers@ == old(self).modifiers@,
            final(self).end_date == old(self).end_date,
    {
        self.schedules.push(schedule);
        proof {
            assert forall|i: int| 0 <= i < self.schedules@.len() implies wf_schedule(
                #[trigger] self.schedules@[i],
            ) by {
                if i < old(self).schedules@.len() {
                    assert(self.schedules@[i] == old(self).schedules@[i]);
                }
            }
        }
    }

    /// Replaces the schedule that has the id of `schedule`.
    pub fn update_schedule(&mut self, schedule: Schedule) -> (r: Result<(), BooksError>)
        requires
            wf_scheduler(*old(self)),
            wf_schedule(schedule),
        ensures
            wf_scheduler(*final(self)),
            final(self).modifiers@ == old(self).modifiers@,
            final(self).end_date == old(self).end_date,
            r is Ok <==> exists|i: int|
                0 <= i < old(self).schedules@.len() && (#[trigger] old(
                    self,
                ).schedules@[i]).id == schedule.id,
            r matches Err(e) ==> e.error@ == "Schedule not found"@,
            r is Err ==> final(self).schedules@ == old(self).schedules@,
            r is Ok ==> exists|i: int|
                0 <= i < old(self).schedules@.len() && (forall|j: int|
                    0 <= j < i ==> (#[trigger] old(self).schedules@[j]).id != schedule.id)
                    && old(self).schedules@[i].id == schedule.id && final(self).schedules@ == old(
                    self,
                ).schedules@.update(i, schedule),
    {
        let mut i: usize = 0;
        while i < self.schedules.len()
            invariant
                i <= self.schedules@.len(),
                *self == *old(self),
                wf_scheduler(*self),
                wf_schedule(schedule),
                forall|j: int| 0 <= j < i ==> (#[trigger] self.schedules@[j]).id != schedule.id,
            decreases self.schedules@.len() - i,
        {
            if self.schedules[i].id == schedule.id {
                let ghost before = self.schedules@;
                self.schedules.set(i, schedule);
                proof {
                    assert forall|k: int| 0 <= k < self.schedules@.len() implies wf_schedule(
                        #[trigger] self.schedules@[k],
                    ) by {
                        if k != i {
                            assert(self.schedules@[k] == before[k]);
                        }
                    }
                }
                return Ok(());
            }
            i = i + 1;
        }
        Err(BooksError::from_str("Schedule not found"))
    }

    /// Adds a modifier to the table.
    pub fn add_modifier(&mut self, modifier: Modifier) -> (r: Result<(), BooksError>)
        requires
            wf_scheduler(*old(self)),
        ensures
            wf_scheduler(*final(self)),
            final(self).schedules@ == old(self).schedules@,
            final(self).end_date == old(self).end_date,
            r is Ok <==> wf_modifier(modifier) && forall|i: int|
                0 <= i < old(self).modifiers@.len() ==> (#[trigger] old(self).modifiers@[i]).id
                    != modifier.id,
            r is Ok ==> final(self).modifiers@ == old(self).modifiers@.push(modifier),
            r is Err ==> final(self).modifiers@ == old(self).modifiers@,
    {
        if crate::date::Date::from_ymd(
            modifier.start_date.year,
            modifier.start_date.month,
            modifier.start_date.day,
        ).is_none() || modifier.frequency < 1 {
            return Err(BooksError::from_str("A modifier needs a valid start date and a positive frequency."));
        }
        if crate::schedule::find_modifier(&self.modifiers, modifier.id).is_some() {
            return Err(BooksError::with_id("Modifier ", modifier.id, " already exists."));
        }
        self.modifiers.push(modifier);
        proof {
            let ms = self.modifiers@;
            assert forall|i: int| 0 <= i < ms.len() implies wf_modifier(#[trigger] ms[i]) by {
                if i < old(self).modifiers@.len() {
                    assert(ms[i] == old(self).modifiers@[i]);
                }
            }
            assert forall|i: int, j: int| 0 <= i < j < ms.len() implies ms[i].id != ms[j].id by {
                assert(ms[i] == old(self).modifiers@[i]);
                if j < old(self).modifiers@.len() {
                    assert(ms[j] == old(self).modifiers@[j]);
                } else {
                    assert(!crate::schedule::has_modifier(old(self).modifiers@, modifier.id));
                }
            }
        }
        Ok(())
    }

    pub fn schedules(&self) -> (r: &[Schedule])
        ensures
            r@ == self.schedules@,
    {
        self.schedules.as_slice()
    }

    /// The horizon: the date that `generate` was last called with.
    pub fn end_date(&self) -> (r: Option<Date>)
        ensures
            r == self.end_date,
    {
        self.end_date
    }

    /// Produces the occurrences of every schedule up to `end_date`, ordered by date; on equal
    /// dates, schedules earlier in the list come first. The horizon becomes `end_date`. On an
    /// error nothing changes.
    pub fn generate(&mut self, end_date: Date) -> (r: Result<Vec<Transaction>, BooksError>)
        requires
            wf_scheduler(*old(self)),
            valid_date(end_date),
        ensures
            wf_scheduler(*final(self)),
            final(self).modifiers@ == old(self).modifiers@,
            r is Err ==> final(self).schedules@ == old(self).schedules@ && final(self).end_date
                == old(self).end_date,
            r is Err ==> some_run_fails(old(self).schedules@, end_date, old(self).modifiers@),
            r matches Ok(ts) ==> generated(*old(self), end_date, ts@, *final(self)),
    {
        let (schedules, found) = match self.run_all(end_date) {
            Err(e) => {
                return Err(e);
            },
            Ok(x) => x,
        };
        self.schedules = schedules;
        self.end_date = Some(end_date);
        let sorted = sort_by_date(found);
        Ok(seconds(sorted))
    }

    /// Every schedule run up to `end_date` on a copy: the copies afterwards, and all that they
    /// produced, schedule after schedule.
    fn run_all(&self, end_date: Date) -> (r: Result<
        (Vec<Schedule>, Vec<(Date, Transaction)>),
        BooksError,
    >)
        requires
            wf_scheduler(*self),
            valid_date(end_date),
        ensures
            r is Err ==> some_run_fails(self.schedules@, end_date, self.modifiers@),
            r matches Ok((ss, found)) ==> {
                &&& ss@.len() == self.schedules@.len()
                &&& forall|i: int| 0 <= i < ss@.len() ==> wf_schedule(#[trigger] ss@[i])
                &&& exists|runs_of: Seq<Seq<(Date, Transaction)>>|
                    {
                        &&& runs_of.len() == self.schedules@.len()
                        &&& forall|i: int|
                            0 <= i < runs_of.len() ==> runs(
                                self.schedules@[i],
                                end_date,
                                self.modifiers@,
                                #[trigger] runs_of[i],
                                ss@[i],
                            )
                        &&& found@ == runs_of.flatten()
                    }
            },
    {
        let mut ss: Vec<Schedule> = Vec::new();
        let mut found: Vec<(Date, Transaction)> = Vec::new();
        let ghost mut runs_of: Seq<Seq<(Date, Transaction)>> = Seq::empty();
        let mut i: usize = 0;
        while i < self.schedules.len()
            invariant
                i <= self.schedules@.len(),
                wf_scheduler(*self),
                valid_date(end_date),
                ss@.len() == i,
                runs_of.len() == i,
                forall|k: int| 0 <= k < i ==> wf_schedule(#[trigger] ss@[k]),
                forall|k: int|
                    0 <= k < i ==> runs(
                        self.schedules@[k],
                        end_date,
                        self.modifiers@,
                        #[trigger] runs_of[k],
                        ss@[k],
                    ),
                found@ == runs_of.flatten(),
            decreases self.schedules@.len() - i,
        {
            let mut s = self.schedules[i].duplicate();
            let ghost s0 = s;
            assert(wf_schedule(self.schedules@[i as int]));
            let mut produced = match run_schedule(&mut s, end_date, &self.modifiers) {
                Err(e) => {
                    proof {
                        lemma_run_fails_same_start(
                            self.schedules@[i as int],
                            s0,
                            end_date,
                            self.modifiers@,
                        );
                    }
                    return Err(e);
                },
                Ok(p) => p,
            };
            let ghost p = produced@;
            proof {
                lemma_runs_same_start(self.schedules@[i as int], s0, end_date, self.modifiers@, p, s);
                assert(runs_of.push(p).drop_last() == runs_of);
                runs_of.lemma_flatten_push(p);
            }
            found.append(&mut produced);
            ss.push(s);
            proof {
                runs_of = runs_of.push(p);
            }
            i = i + 1;
        }
        Ok((ss, found))
    }

    /// Produces the occurrences of the schedule with id `schedule_id` up to `end_date`, without
    /// moving the horizon.
    pub fn generate_by_schedule(&mut self, end_date: Date, schedule_id: u128) -> (r: Result<
        Vec<Transaction>,
        BooksError,
    >)
        requires
            wf_scheduler(*old(self)),
            valid_date(end_date),
        ensures
            wf_scheduler(*final(self)),
            final(self).modifiers@ == old(self).modifiers@,
            final(self).end_date == old(self).end_date,
            r is Err ==> final(self).schedules@ == old(self).schedules@,
            r is Err ==> (forall|i: int|
                0 <= i < old(self).schedules@.len() ==> (#[trigger] old(self).schedules@[i]).id
                    != schedule_id) || exists|i: int|
                0 <= i < old(self).schedules@.len() && old(self).schedules@[i].id == schedule_id
                    && (forall|j: int|
                    0 <= j < i ==> (#[trigger] old(self).schedules@[j]).id != schedule_id)
                    && run_fails(old(self).schedules@[i], end_date, old(self).modifiers@),
            (forall|i: int|
                0 <= i < old(self).schedules@.len() ==> (#[trigger] old(self).schedules@[i]).id
                    != schedule_id) ==> (r matches Err(e) && e.error@ == "Schedule "@ + id_text(
                schedule_id,
            ) + " not found."@),
            r matches Ok(ts) ==> exists|i: int|
                0 <= i < old(self).schedules@.len() && old(self).schedules@[i].id == schedule_id
                    && (forall|j: int|
                    0 <= j < i ==> (#[trigger] old(self).schedules@[j]).id != schedule_id)
                    && exists|run: Seq<(Date, Transaction)>|
                    runs(
                        old(self).schedules@[i],
                        end_date,
                        old(self).modifiers@,
                        run,
                        final(self).schedules@[i],
                    ) && final(self).schedules@ == old(self).schedules@.update(
                        i,
                        final(self).schedules@[i],
                    ) && ts@ == run.map_values(|p: (Date, Transaction)| p.1),
    {
        let mut i: usize = 0;
        while i < self.schedules.len()
            invariant
                i <= self.schedules@.len(),
                *self == *old(self),
                wf_scheduler(*self),
                valid_date(end_date),
                forall|j: int| 0 <= j < i ==> (#[trigger] self.schedules@[j]).id != schedule_id,
            decreases self.schedules@.len() - i,
        {
            if self.schedules[i].id == schedule_id {
                let mut s = self.schedules[i].duplicate();
                let ghost s0 = s;
                assert(wf_schedule(self.schedules@[i as int]));
                let produced = match run_schedule(&mut s, end_date, &self.modifiers) {
                    Err(e) => {
                        proof {
                            lemma_run_fails_same_start(
                                self.schedules@[i as int],
                                s0,
                                end_date,
                                self.modifiers@,
                            );
                        }
                        return Err(e);
                    },
                    Ok(p) => p,
                };
                proof {
                    lemma_runs_same_start(
                        self.schedules@[i as int],
                        s0,
                        end_date,
                        self.modifiers@,
                        produced@,
                        s,
                    );
                }
                let ghost before = self.schedules@;
                self.schedules.set(i, s);
                proof {
                    assert forall|k: int| 0 <= k < self.schedules@.len() implies wf_schedule(
                        #[trigger] self.schedules@[k],
                    ) by {
                        if k != i {
                            assert(self.schedules@[k] == before[k]);
                        }
                    }
                    assert(self.schedules@ == before.update(i as int, self.schedules@[i as int]));
                }
                return Ok(seconds(produced));
            }
            i = i + 1;
        }
        Err(BooksError::with_id("Schedule ", schedule_id, " not found."))
    }
}

} // verus!
