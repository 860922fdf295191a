use vstd::prelude::*;
use crate::account::Transaction;
use crate::date::{valid_date, Date};
use crate::error::BooksError;
use crate::modifier::Modifier;
use crate::schedule::{wf_schedule, Schedule};
use crate::scheduler::{generated_from, some_run_fails, Scheduler};

verus! {

/// Produces the transactions of a list of schedules that use no modifiers.
#[derive(Debug)]
pub struct Generator {
    pub scheduled_transations: Vec<Schedule>,
}

impl Generator {
    /// The occurrences of every schedule up to `end_date`, ordered by date; on equal dates,
    /// schedules earlier in the list come first. On an error nothing changes.
    pub fn generate(&mut self, end_date: Date) -> (r: Result<Vec<Transaction>, BooksError>)
        requires
            forall|i: int|
                0 <= i < old(self).scheduled_transations@.len() ==> wf_schedule(
                    #[trigger] old(self).scheduled_transations@[i],
                ),
            valid_date(end_date),
        ensures
            forall|i: int|
                0 <= i < final(self).scheduled_transations@.len() ==> wf_schedule(
                    #[trigger] final(self).scheduled_transations@[i],
                ),
            r is Err ==> final(self).scheduled_transations@ == old(self).scheduled_transations@,
            r is Err ==> some_run_fails(
                old(self).scheduled_transations@,
                end_date,
                Seq::<Modifier>::empty(),
            ),
            r matches Ok(ts) ==> generated_from(
                old(self).scheduled_transations@,
                Seq::<Modifier>::empty(),
                end_date,
                ts@,
                final(self).scheduled_transations@,
            ),
    {
        let mut schedules: Vec<Schedule> = Vec::new();
        std::mem::swap(&mut schedules, &mut self.scheduled_transations);
        let mut scheduler = Scheduler { schedules, modifiers: Vec::new(), end_date: None };
        proof {
            assert(scheduler.modifiers@ =~= Seq::<Modifier>::empty());
        }
        let r = scheduler.generate(end_date);
        std::mem::swap(&mut self.scheduled_transations, &mut scheduler.schedules);
        r
    }
}

} // verus!
