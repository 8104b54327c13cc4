//! What the coordinator answers to clients and workers.

use vstd::prelude::*;

use crate::coordinator::ids::text_of_id;
use crate::coordinator::job::{JobId, Task, TaskResult};
use crate::coordinator::state::CoordinatorState;
use crate::text;
#[allow(unused_imports)]
use crate::coordinator::ids;
#[allow(unused_imports)]
use crate::coordinator::job;
#[allow(unused_imports)]
use crate::coordinator::job::{ResultView, TaskKindView, TaskView};
#[allow(unused_imports)]
use crate::text::Text;

verus! {

broadcast use vstd::std_specs::hash::group_hash_axioms;

/// Nanoseconds in a second.
pub const SECOND: u64 = 1_000_000_000;

/// Nanoseconds in a millisecond.
pub const MILLISECOND: u64 = 1_000_000;

/// Coordinator configuration.
#[derive(Clone, Copy, Debug, PartialEq, Eq, Structural)]
pub struct CoordinatorConfig {
    /// How long a worker may hold a task without renewing before the lease is reaped.
    pub lease_ttl_secs: u64,
    /// How long without a heartbeat before a worker is declared dead.
    pub worker_timeout_secs: u64,
}

impl Default for CoordinatorConfig {
    fn default() -> (c: Self)
        ensures
            c == (CoordinatorConfig { lease_ttl_secs: 30, worker_timeout_secs: 60 }),
    {
        CoordinatorConfig { lease_ttl_secs: 30, worker_timeout_secs: 60 }
    }
}

// ---------------------------------------------------------------------------
// Long polls for work
// ---------------------------------------------------------------------------

/// A task as it is sent to a worker.
pub struct WorkResponse {
    pub task_id: String,
    pub script: String,
    pub max_conflicts: u64,
    pub lease_ttl_ms: u64,
}

/// What happened while a worker was waiting for a task.
pub enum PollEvent {
    /// No permit came within the window.
    TimedOut,
    /// The work queue is closed.
    Closed,
    /// A permit came; the task that was popped for it, if there was one.
    Permit(Option<Task>),
}

/// What is done next about a worker that waits for a task.
pub enum PollReply {
    /// Nothing is available within the window.
    NoContent,
    /// The service is unavailable.
    Unavailable,
    /// Wait for another permit.
    Retry,
    Work(WorkResponse),
}

/// How long a worker may still wait, or `None` once its window is over.
pub fn remaining_wait(now: u64, deadline: u64) -> (r: Option<u64>)
    ensures
        r == (if now < deadline {
            Some((deadline - now) as u64)
        } else {
            None
        }),
{
    if now < deadline {
        Some(deadline - now)
    } else {
        None
    }
}

pub open spec fn script_of(t: TaskView) -> Text {
    match t.kind {
        TaskKindView::Batch { script, .. } => script,
        TaskKindView::Cube { script, .. } => script,
    }
}

pub open spec fn conflicts_of(t: TaskView) -> u64 {
    match t.kind {
        TaskKindView::Batch { max_conflicts, .. } => max_conflicts,
        TaskKindView::Cube { max_conflicts, .. } => max_conflicts,
    }
}

/// The answer to a waiting worker. A permit without a task, which should not
/// happen, makes it wait on.
pub fn answer_poll(event: PollEvent, lease_ttl: u64) -> (r: PollReply)
    ensures
        match event {
            PollEvent::TimedOut => r is NoContent,
            PollEvent::Closed => r is Unavailable,
            PollEvent::Permit(None) => r is Retry,
            PollEvent::Permit(Some(task)) => r matches PollReply::Work(w) && w.task_id@
                == ids::id_text(task.id) && w.script@ == script_of(task@) && w.max_conflicts
                == conflicts_of(task@) && w.lease_ttl_ms == lease_ttl / MILLISECOND,
        },
{
    match event {
        PollEvent::TimedOut => PollReply::NoContent,
        PollEvent::Closed => PollReply::Unavailable,
        PollEvent::Permit(None) => PollReply::Retry,
        PollEvent::Permit(Some(task)) => PollReply::Work(
            WorkResponse {
                task_id: text_of_id(task.id),
                script: text::copy_str(task.script()),
                max_conflicts: task.max_conflicts(),
                lease_ttl_ms: lease_ttl / MILLISECOND,
            },
        ),
    }
}

// ---------------------------------------------------------------------------
// Job status
// ---------------------------------------------------------------------------

/// The progress of a batch.
pub struct BatchReport<'a> {
    pub status: &'static str,
    pub pending: usize,
    pub results: &'a Vec<Option<TaskResult>>,
}

/// The progress of a cube-and-conquer job.
pub struct CubeReport {
    pub status: &'static str,
    pub verdict: &'static str,
    pub nodes: usize,
}

/// What a client is told about a batch that is not known.
pub open spec fn no_batch_text(id: JobId) -> Text {
    "batch job "@ + ids::id_text(id)
}

/// What a client is told about a cube job that is not known.
pub open spec fn no_cube_text(id: JobId) -> Text {
    "cube job "@ + ids::id_text(id)
}

/// Report on a batch.
pub fn batch_report(state: &CoordinatorState, job_id: JobId) -> (r: Result<BatchReport<'_>, String>)
    ensures
        match r {
            Ok(b) => {
                &&& state@.batches.contains_key(job_id)
                &&& b.status@ == job::status_text(state@.batches[job_id].status)
                &&& b.pending == state@.batches[job_id].pending
                &&& b.results@.map_values(|x: Option<TaskResult>| job::result_view(x))
                    == state@.batches[job_id].results
            },
            Err(e) => !state@.batches.contains_key(job_id) && e@ == no_batch_text(job_id),
        },
{
    match state.batch_jobs.get(&job_id) {
        Some(j) => {
            assert(state@.batches[job_id] == j@);
            Ok(BatchReport { status: j.status.name(), pending: j.pending, results: &j.results })
        },
        None => {
            let mut e = String::from_str("batch job ");
            let id = text_of_id(job_id);
            e.append(id.as_str());
            Err(e)
        },
    }
}

/// Report on a cube-and-conquer job.
pub fn cube_report(state: &CoordinatorState, job_id: JobId) -> (r: Result<CubeReport, String>)
    ensures
        match r {
            Ok(c) => {
                &&& state@.cubes.contains_key(job_id)
                &&& c.status@ == job::status_text(state@.cubes[job_id].status)
                &&& c.verdict@ == (match state@.cubes[job_id].verdict {
                    Some(v) => job::verdict_text(v),
                    None => "unknown"@,
                })
                &&& c.nodes == state@.cubes[job_id].nodes.len()
            },
            Err(e) => !state@.cubes.contains_key(job_id) && e@ == no_cube_text(job_id),
        },
{
    match state.cube_jobs.get(&job_id) {
        Some(j) => {
            assert(state@.cubes[job_id] == j@);
            let verdict: &'static str = match j.verdict {
                Some(v) => v.name(),
                None => "unknown",
            };
            Ok(CubeReport { status: j.status.name(), verdict, nodes: j.nodes.len() })
        },
        None => {
            let mut e = String::from_str("cube job ");
            let id = text_of_id(job_id);
            e.append(id.as_str());
            Err(e)
        },
    }
}

} // verus!
