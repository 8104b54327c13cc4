//! [`SolverPool`] — dispatch of independent proof obligations.
//!
//! Each job is solved by an independent solver instance. Jobs that arrive
//! while all slots are busy queue and run as slots free up.

use vstd::prelude::*;

#[allow(unused_imports)]
use crate::api::solver;
use crate::api::solver::{effective_conflict_budget, SatResult, SolverConfig};
use crate::text;

verus! {

/// A queued proof obligation.
#[derive(Debug)]
pub struct Job {
    /// SMT-LIB 2 script text.
    pub script: String,
    /// Optional label for telemetry / logging.
    pub label: Option<String>,
}

impl Job {
    pub fn new(script: &str) -> (j: Self)
        ensures
            j.script@ == script@,
            j.label is None,
    {
        Job { script: text::copy_str(script), label: None }
    }

    pub fn with_label(self, label: &str) -> (j: Self)
        ensures
            j.script == self.script,
            j.label is Some && j.label->0@ == label@,
    {
        Job { script: self.script, label: Some(text::copy_str(label)) }
    }
}

/// The result of one [`Job`] in a pool run.
#[derive(Debug)]
pub struct JobResult {
    pub label: Option<String>,
    pub result: SatResult,
}

/// The result that a job was given last.
pub open spec fn last_for(finished: Seq<(usize, JobResult)>, i: int) -> Option<JobResult>
    decreases finished.len(),
{
    if finished.len() == 0 {
        None
    } else if finished.last().0 == i {
        Some(finished.last().1)
    } else {
        last_for(finished.drop_last(), i)
    }
}

/// What stands for a job that has no result.
pub open spec fn not_completed(r: JobResult) -> bool {
    r.label is None && solver::gives_up(r.result, "job did not complete"@)
}

/// Solver pool for independent proof obligations: every job is dispatched to a
/// thread pool of size `num_workers`, and results come in job order.
pub struct SolverPool {
    config: SolverConfig,
}

impl SolverPool {
    pub closed spec fn configured(&self) -> SolverConfig {
        self.config
    }

    pub fn new(config: SolverConfig) -> (p: Self)
        ensures
            p.configured() == config,
    {
        SolverPool { config }
    }

    /// The conflict budget of each job.
    pub fn budget(&self) -> (b: u64)
        ensures
            b == solver::budget_of(self.configured().max_conflicts),
    {
        effective_conflict_budget(&self.config)
    }

    /// How many jobs run at a time.
    pub fn concurrency(&self) -> (n: usize)
        ensures
            n == (if self.configured().num_workers == 0 {
                1
            } else {
                self.configured().num_workers
            }),
    {
        if self.config.num_workers == 0 {
            1
        } else {
            self.config.num_workers
        }
    }

    /// Results in submission order, given those that came in, each with the
    /// number of its job, in the order in which they came.
    pub fn collect(&self, jobs: usize, finished: Vec<(usize, JobResult)>) -> (v: Vec<JobResult>)
        requires
            forall|k: int| 0 <= k < finished@.len() ==> (#[trigger] finished@[k]).0 < jobs,
        ensures
            v@.len() == jobs,
            forall|i: int|
                0 <= i < jobs ==> match last_for(finished@, i) {
                    Some(r) => #[trigger] v@[i] == r,
                    None => not_completed(v@[i]),
                },
    {
        let ghost all = finished@;
        let mut slots: Vec<Option<JobResult>> = Vec::new();
        let mut n: usize = 0;
        while n < jobs
            invariant
                n <= jobs,
                slots@.len() == n,
                forall|i: int| 0 <= i < n ==> (#[trigger] slots@[i]) is None,
            decreases jobs - n,
        {
            slots.push(None);
            n += 1;
        }
        assert(all.take(0) =~= seq![]);
        for entry in it: finished
            invariant
                it.seq() == all,
                slots@.len() == jobs,
                forall|k: int| 0 <= k < all.len() ==> (#[trigger] all[k]).0 < jobs,
                forall|i: int|
                    0 <= i < jobs ==> #[trigger] slots@[i] == last_for(
                        all.take(it.index() as int),
                        i,
                    ),
        {
            let ghost k = it.index() as int;
            assert(entry == all[k]);
            let (at, r) = entry;
            slots.set(at, Some(r));
            proof {
                assert(all.take(k + 1).drop_last() =~= all.take(k));
                assert(all.take(k + 1).last() == all[k]);
            }
        }
        assert(all.take(all.len() as int) =~= all);
        let ghost filled = slots@;
        let mut v: Vec<JobResult> = Vec::new();
        for slot in it: slots
            invariant
                it.seq() == filled,
                filled.len() == jobs,
                v@.len() == it.index(),
                forall|i: int| 0 <= i < jobs ==> #[trigger] filled[i] == last_for(all, i),
                forall|i: int|
                    0 <= i < v@.len() ==> match last_for(all, i) {
                        Some(r) => #[trigger] v@[i] == r,
                        None => not_completed(v@[i]),
                    },
        {
            assert(slot == filled[it.index() as int]);
            match slot {
                Some(r) => {
                    v.push(r);
                },
                None => {
                    v.push(
                        JobResult {
                            label: None,
                            result: SatResult::Unknown(text::copy_str("job did not complete")),
                        },
                    );
                },
            }
        }
        v
    }
}

} // verus!
