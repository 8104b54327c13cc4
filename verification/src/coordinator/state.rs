//! Shared coordinator state and all mutations.
//!
//! Times are nanoseconds on a monotonic clock. Functions that draw random
//! identifiers have a counterpart that takes them as arguments.

use vstd::prelude::*;

use crate::coordinator::ids::{fresh_id, fresh_ids, text_of_id};
use crate::coordinator::job::{
    build_script, BatchJob, CubeJob, CubeNode, CubeNodeStatus, InFlightTask, JobId, JobStatus,
    Task, TaskId, TaskKind, TaskResult, Verdict,
};
use crate::text;
use std::collections::{HashMap, VecDeque};
#[allow(unused_imports)]
use crate::coordinator::ids;
#[allow(unused_imports)]
use crate::coordinator::laws;
#[allow(unused_imports)]
use crate::coordinator::job;
#[allow(unused_imports)]
use crate::coordinator::job::{
    BatchView, CubeNodeView, CubeView, FlightView, ResultView, TaskKindView, TaskView,
};
#[allow(unused_imports)]
use crate::text::Text;

verus! {

broadcast use vstd::std_specs::hash::group_hash_axioms;

#[derive(Clone, Copy, Debug, PartialEq, Eq, Structural)]
pub struct WorkerInfo {
    pub id: u32,
    pub last_seen: u64,
}

pub struct CoordinatorState {
    pub batch_jobs: HashMap<JobId, BatchJob>,
    pub cube_jobs: HashMap<JobId, CubeJob>,
    /// Pending tasks not yet claimed by a worker.
    pub task_queue: VecDeque<Task>,
    /// Tasks currently held by a worker (lease in force).
    pub in_flight: HashMap<TaskId, InFlightTask>,
    pub workers: HashMap<u32, WorkerInfo>,
    pub lease_ttl: u64,
}

/// The contents of a coordinator.
#[verifier::ext_equal]
pub struct CoordView {
    pub batches: Map<JobId, BatchView>,
    pub cubes: Map<JobId, CubeView>,
    pub queue: Seq<TaskView>,
    pub flights: Map<TaskId, FlightView>,
    pub workers: Map<u32, WorkerInfo>,
    pub ttl: u64,
}

#[derive(Clone, Copy, Debug, PartialEq, Eq, Structural)]
pub struct StatusStats {
    pub batch_jobs: usize,
    pub cube_jobs: usize,
    pub tasks_queued: usize,
    pub tasks_in_flight: usize,
    pub workers_active: usize,
}

/// Every job is in order.
pub open spec fn coord_ok(v: CoordView) -> bool {
    &&& forall|id: JobId| #[trigger] v.batches.contains_key(id) ==> job::batch_ok(v.batches[id])
    &&& forall|id: JobId| #[trigger] v.cubes.contains_key(id) ==> job::cube_ok(v.cubes[id])
}

pub open spec fn task_views(tasks: Seq<Task>) -> Seq<TaskView> {
    tasks.map_values(|t: Task| t@)
}

pub open spec fn batch_views(jobs: Map<JobId, BatchJob>) -> Map<JobId, BatchView> {
    jobs.map_values(|j: BatchJob| j@)
}

pub open spec fn cube_views(jobs: Map<JobId, CubeJob>) -> Map<JobId, CubeView> {
    jobs.map_values(|j: CubeJob| j@)
}

pub open spec fn flight_views(flights: Map<TaskId, InFlightTask>) -> Map<TaskId, FlightView> {
    flights.map_values(|t: InFlightTask| t@)
}

/// The tasks of a batch.
pub open spec fn batch_tasks(
    job_id: JobId,
    ids: Seq<TaskId>,
    scripts: Seq<Text>,
    max_conflicts: u64,
) -> Seq<TaskView> {
    Seq::new(
        scripts.len(),
        |i: int|
            TaskView {
                id: ids[i],
                kind: TaskKindView::Batch {
                    job_id,
                    script_index: i as usize,
                    script: scripts[i],
                    max_conflicts,
                },
            },
    )
}

/// The state after a batch was submitted.
pub open spec fn batch_submitted(
    v: CoordView,
    job_id: JobId,
    ids: Seq<TaskId>,
    scripts: Seq<Text>,
    max_conflicts: u64,
) -> CoordView {
    CoordView {
        batches: v.batches.insert(job_id, job::fresh_batch(job_id, scripts.len())),
        queue: v.queue + batch_tasks(job_id, ids, scripts, max_conflicts),
        ..v
    }
}

/// A script without a trailing `(check-sat)` and the white space around it.
pub open spec fn stripped(s: Text) -> Text {
    let t = text::trim_end(s);
    if text::ends_in(t, "(check-sat)"@) {
        text::trim_end(t.take(t.len() - "(check-sat)"@.len()))
    } else {
        t
    }
}

/// A task for a node of a cube job.
pub open spec fn cube_task(
    id: TaskId,
    job_id: JobId,
    node_id: u64,
    script: Text,
    max_conflicts: u64,
) -> TaskView {
    TaskView { id, kind: TaskKindView::Cube { job_id, node_id, script, max_conflicts } }
}

/// The state after a cube-and-conquer job was submitted.
pub open spec fn cube_submitted(
    v: CoordView,
    job_id: JobId,
    task_id: TaskId,
    script: Text,
    max_conflicts: u64,
) -> CoordView {
    let job = job::fresh_cube(job_id, stripped(script), max_conflicts);
    CoordView {
        cubes: v.cubes.insert(job_id, job),
        queue: v.queue.push(
            cube_task(task_id, job_id, 0, job::node_script(job, 0), max_conflicts),
        ),
        ..v
    }
}

/// The cube jobs after the node of a task changed; tasks of batches and of
/// unknown jobs change nothing.
pub open spec fn node_set(
    cubes: Map<JobId, CubeView>,
    task: TaskView,
    status: CubeNodeStatus,
    holder: Option<TaskId>,
) -> Map<JobId, CubeView> {
    match task.kind {
        TaskKindView::Cube { job_id, node_id, .. } => if cubes.contains_key(job_id) {
            cubes.insert(job_id, job::with_node(cubes[job_id], node_id, status, holder))
        } else {
            cubes
        },
        _ => cubes,
    }
}

/// The state after the oldest task was handed to a worker.
pub open spec fn popped(v: CoordView, worker_id: u32, now: u64) -> CoordView {
    let task = v.queue[0];
    CoordView {
        cubes: node_set(v.cubes, task, CubeNodeStatus::Assigned, Some(task.id)),
        queue: v.queue.skip(1),
        flights: v.flights.insert(
            task.id,
            FlightView { task, worker_id, deadline: (now + v.ttl) as u64 },
        ),
        ..v
    }
}

/// The new nodes of a split.
pub open spec fn branch_nodes(c: CubeView, node_id: u64, branches: Seq<Text>) -> Seq<
    CubeNodeView,
> {
    Seq::new(
        branches.len(),
        |i: int|
            job::open_node(
                (c.next_node_id + i) as u64,
                Some(node_id),
                job::assertions_of(c, node_id).push(branches[i]),
            ),
    )
}

/// The new tasks of a split.
pub open spec fn branch_tasks(
    c: CubeView,
    job_id: JobId,
    node_id: u64,
    max_conflicts: u64,
    branches: Seq<Text>,
    ids: Seq<TaskId>,
) -> Seq<TaskView> {
    Seq::new(
        branches.len(),
        |i: int|
            cube_task(
                ids[i],
                job_id,
                (c.next_node_id + i) as u64,
                job::script_text(c.base, job::assertions_of(c, node_id).push(branches[i])),
                max_conflicts,
            ),
    )
}

/// The state after a worker's verdict on a cube, and how many tasks were
/// queued: SAT finishes the job; UNSAT closes the leaf and finishes the job
/// once every leaf is closed; a split adds a node and a task for each branch;
/// anything else queues the same node again.
pub open spec fn cube_result(
    v: CoordView,
    job_id: JobId,
    node_id: u64,
    max_conflicts: u64,
    code: u32,
    split: Option<Seq<Text>>,
    ids: Seq<TaskId>,
) -> (CoordView, nat) {
    if !v.cubes.contains_key(job_id) {
        (v, 0)
    } else {
        let c = v.cubes[job_id];
        if code == 0 {
            let done = CubeView {
                status: JobStatus::Complete,
                verdict: Some(Verdict::Sat),
                ..job::with_node_status(c, node_id, CubeNodeStatus::ClosedSat)
            };
            (CoordView { cubes: v.cubes.insert(job_id, done), ..v }, 0)
        } else if code == 1 {
            let closed = job::with_node_status(c, node_id, CubeNodeStatus::ClosedUnsat);
            let after = if job::all_refuted(closed.nodes) {
                CubeView {
                    status: JobStatus::Complete,
                    verdict: Some(Verdict::Unsat),
                    ..closed
                }
            } else {
                closed
            };
            (CoordView { cubes: v.cubes.insert(job_id, after), ..v }, 0)
        } else {
            match split {
                Some(branches) => {
                    let grown = CubeView {
                        nodes: c.nodes + branch_nodes(c, node_id, branches),
                        next_node_id: (c.next_node_id + branches.len()) as u64,
                        ..c
                    };
                    (
                        CoordView {
                            cubes: v.cubes.insert(job_id, grown),
                            queue: v.queue + branch_tasks(
                                c,
                                job_id,
                                node_id,
                                max_conflicts,
                                branches,
                                ids,
                            ),
                            ..v
                        },
                        branches.len(),
                    )
                },
                None => {
                    let reopened = job::with_node(c, node_id, CubeNodeStatus::Open, None);
                    (
                        CoordView {
                            cubes: v.cubes.insert(job_id, reopened),
                            queue: v.queue.push(
                                cube_task(
                                    ids[0],
                                    job_id,
                                    node_id,
                                    job::node_script(reopened, node_id),
                                    max_conflicts,
                                ),
                            ),
                            ..v
                        },
                        1,
                    )
                },
            }
        }
    }
}

/// How many identifiers the answer to a cube may need.
pub open spec fn ids_needed(split: Option<Seq<Text>>) -> nat {
    match split {
        Some(branches) => branches.len(),
        None => 1,
    }
}

/// The state after a worker's result, whether the job is complete, and how
/// many tasks were queued.
pub open spec fn result_taken(
    v: CoordView,
    task_id: TaskId,
    result: ResultView,
    split: Option<Seq<Text>>,
    ids: Seq<TaskId>,
) -> (CoordView, bool, nat) {
    let rest = CoordView { flights: v.flights.remove(task_id), ..v };
    match v.flights[task_id].task.kind {
        TaskKindView::Batch { job_id, script_index, .. } => if rest.batches.contains_key(job_id)
            && script_index < rest.batches[job_id].results.len() {
            let b = job::recorded(rest.batches[job_id], script_index as int, result);
            (CoordView { batches: rest.batches.insert(job_id, b), ..rest }, b.pending == 0, 0)
        } else {
            (rest, false, 0)
        },
        TaskKindView::Cube { job_id, node_id, max_conflicts, .. } => {
            let (after, count) = cube_result(
                rest,
                job_id,
                node_id,
                max_conflicts,
                result.code,
                split,
                ids,
            );
            (
                after,
                after.cubes.contains_key(job_id) && after.cubes[job_id].status
                    == JobStatus::Complete,
                count,
            )
        },
    }
}

/// What a worker is told about a task that is not in flight.
pub open spec fn unknown_task_text(id: TaskId) -> Text {
    "unknown task "@ + ids::id_text(id)
}

/// What a worker is told about a task that another worker holds.
pub open spec fn not_owned_text(id: TaskId, worker_id: u32) -> Text {
    "task "@ + ids::id_text(id) + " not owned by worker "@ + text::decimal(worker_id as nat)
}

/// Why a worker may not act on a task, if it may not.
pub open spec fn task_error(v: CoordView, task_id: TaskId, worker_id: u32) -> Option<Text> {
    if !v.flights.contains_key(task_id) {
        Some(unknown_task_text(task_id))
    } else if v.flights[task_id].worker_id != worker_id {
        Some(not_owned_text(task_id, worker_id))
    } else {
        None
    }
}

/// The tasks with the given identifiers.
pub open spec fn tasks_of(flights: Map<TaskId, FlightView>, ids: Seq<TaskId>) -> Seq<TaskView> {
    Seq::new(ids.len(), |i: int| flights[ids[i]].task)
}

/// The state after tasks in flight were queued again.
pub open spec fn moved_back(v: CoordView, ids: Seq<TaskId>) -> CoordView {
    CoordView {
        queue: v.queue + tasks_of(v.flights, ids),
        flights: v.flights.remove_keys(ids.to_set()),
        ..v
    }
}

/// The state after the lease of a task was renewed.
pub open spec fn renewed(v: CoordView, task_id: TaskId, now: u64) -> CoordView {
    CoordView {
        flights: v.flights.insert(
            task_id,
            FlightView { deadline: (now + v.ttl) as u64, ..v.flights[task_id] },
        ),
        ..v
    }
}

/// The state after a sign of life of a worker.
pub open spec fn touched(v: CoordView, worker_id: u32, now: u64) -> CoordView {
    CoordView {
        workers: v.workers.insert(worker_id, WorkerInfo { id: worker_id, last_seen: now }),
        ..v
    }
}

/// The state after tasks whose lease has expired were queued again, and their
/// nodes opened.
pub open spec fn expired_reaped(v: CoordView, ids: Seq<TaskId>) -> CoordView {
    CoordView {
        cubes: reopened(v.cubes, tasks_of(v.flights, ids), ids.len() as int),
        ..moved_back(v, ids)
    }
}

/// The state after silent workers were forgotten and their tasks queued again.
pub open spec fn dead_reaped(v: CoordView, dead: Seq<u32>, ids: Seq<TaskId>) -> CoordView {
    CoordView { workers: v.workers.remove_keys(dead.to_set()), ..moved_back(v, ids) }
}

/// The cube jobs after the nodes of the first `n` tasks were opened again.
pub open spec fn reopened(
    cubes: Map<JobId, CubeView>,
    tasks: Seq<TaskView>,
    n: int,
) -> Map<JobId, CubeView>
    decreases n,
{
    if n <= 0 {
        cubes
    } else {
        node_set(reopened(cubes, tasks, n - 1), tasks[n - 1], CubeNodeStatus::Open, None)
    }
}

/// Identifiers of tasks in flight, each once: all those that satisfy a
/// condition and no others.
pub open spec fn picks(
    flights: Map<TaskId, FlightView>,
    ids: Seq<TaskId>,
    p: spec_fn(FlightView) -> bool,
) -> bool {
    &&& ids.no_duplicates()
    &&& forall|id: TaskId| #[trigger]
        ids.contains(id) <==> flights.contains_key(id) && p(flights[id])
}

/// All tasks whose lease has expired, each once.
pub open spec fn picks_expired(
    flights: Map<TaskId, FlightView>,
    ids: Seq<TaskId>,
    now: u64,
) -> bool {
    picks(flights, ids, |f: FlightView| f.deadline <= now)
}

/// All tasks that some workers hold, each once.
pub open spec fn picks_held(
    flights: Map<TaskId, FlightView>,
    ids: Seq<TaskId>,
    workers: Seq<u32>,
) -> bool {
    picks(flights, ids, |f: FlightView| workers.contains(f.worker_id))
}

/// A worker has been silent for too long.
pub open spec fn silent(w: WorkerInfo, timeout: u64, now: u64) -> bool {
    now - w.last_seen > timeout
}

/// Workers, each once: all those that are silent and no others.
pub open spec fn picks_silent(
    workers: Map<u32, WorkerInfo>,
    dead: Seq<u32>,
    timeout: u64,
    now: u64,
) -> bool {
    &&& dead.no_duplicates()
    &&& forall|w: u32| #[trigger]
        dead.contains(w) <==> workers.contains_key(w) && silent(workers[w], timeout, now)
}

// ---------------------------------------------------------------------------
// Laws
// ---------------------------------------------------------------------------

/// Requeueing loses no task: one that was in flight is in flight still or in
/// the queue, and what was queued stays queued.
pub proof fn requeueing_loses_nothing(v: CoordView, ids: Seq<TaskId>, id: TaskId)
    requires
        v.flights.contains_key(id),
    ensures
        moved_back(v, ids).flights.contains_key(id) && moved_back(v, ids).flights[id]
            == v.flights[id] || moved_back(v, ids).queue.contains(v.flights[id].task),
        v.queue.is_prefix_of(moved_back(v, ids).queue),
{
    let after = moved_back(v, ids);
    if ids.contains(id) {
        let i = choose|i: int| 0 <= i < ids.len() && ids[i] == id;
        assert(after.queue[v.queue.len() + i] == v.flights[id].task);
    }
    assert(after.queue.take(v.queue.len() as int) =~= v.queue);
}

/// A job is declared unsatisfiable only when every leaf is closed-UNSAT.
pub proof fn unsat_needs_every_leaf(
    v: CoordView,
    job_id: JobId,
    node_id: u64,
    max_conflicts: u64,
    code: u32,
    split: Option<Seq<Text>>,
    ids: Seq<TaskId>,
)
    requires
        v.cubes.contains_key(job_id),
        v.cubes[job_id].verdict is None,
        cube_result(v, job_id, node_id, max_conflicts, code, split, ids).0.cubes[job_id].verdict
            == Some(Verdict::Unsat),
    ensures
        job::all_refuted(
            cube_result(
                v,
                job_id,
                node_id,
                max_conflicts,
                code,
                split,
                ids,
            ).0.cubes[job_id].nodes,
        ),
{
}

/// The verdict of a cube on one job leaves every other job alone.
pub proof fn jobs_are_independent(
    v: CoordView,
    job_id: JobId,
    node_id: u64,
    max_conflicts: u64,
    code: u32,
    split: Option<Seq<Text>>,
    ids: Seq<TaskId>,
    other: JobId,
)
    requires
        other != job_id,
        v.cubes.contains_key(other),
    ensures
        ({
            let after = cube_result(v, job_id, node_id, max_conflicts, code, split, ids).0;
            &&& after.cubes.contains_key(other)
            &&& after.cubes[other] == v.cubes[other]
            &&& after.batches == v.batches
            &&& after.flights == v.flights
        }),
{
}

/// A worker's verdict on a cube keeps every job in order.
proof fn cube_result_keeps_order(
    v: CoordView,
    job_id: JobId,
    node_id: u64,
    max_conflicts: u64,
    code: u32,
    split: Option<Seq<Text>>,
    ids: Seq<TaskId>,
)
    requires
        coord_ok(v),
        code > 1 && split is Some && v.cubes.contains_key(job_id) ==> v.cubes[job_id].nodes.len()
            + split->0.len() <= u64::MAX,
    ensures
        coord_ok(cube_result(v, job_id, node_id, max_conflicts, code, split, ids).0),
{
    if v.cubes.contains_key(job_id) {
        let c = v.cubes[job_id];
        let after = cube_result(v, job_id, node_id, max_conflicts, code, split, ids).0;
        assert(job::cube_ok(after.cubes[job_id])) by {
            if code > 1 && split is Some {
                let branches = split->0;
                let kids = branch_nodes(c, node_id, branches);
                let all = c.nodes + kids;
                assert forall|i: int| 0 <= i < all.len() implies (#[trigger] all[i]).id == i by {
                    if i < c.nodes.len() {
                        assert(all[i] == c.nodes[i]);
                    } else {
                        assert(all[i] == kids[i - c.nodes.len()]);
                    }
                }
            }
        }
    }
}

/// The order of the jobs depends on the jobs alone.
proof fn order_of_jobs(a: CoordView, b: CoordView)
    requires
        coord_ok(a),
        a.batches == b.batches,
        a.cubes == b.cubes,
    ensures
        coord_ok(b),
{
    assert forall|id: JobId| #[trigger] b.batches.contains_key(id) implies job::batch_ok(
        b.batches[id],
    ) by {
        assert(a.batches.contains_key(id));
    }
    assert forall|id: JobId| #[trigger] b.cubes.contains_key(id) implies job::cube_ok(
        b.cubes[id],
    ) by {
        assert(a.cubes.contains_key(id));
    }
}

/// Changing nodes keeps every cube job in order.
proof fn node_set_keeps_order(
    cubes: Map<JobId, CubeView>,
    task: TaskView,
    status: CubeNodeStatus,
    holder: Option<TaskId>,
)
    requires
        forall|id: JobId| #[trigger] cubes.contains_key(id) ==> job::cube_ok(cubes[id]),
    ensures
        forall|id: JobId| #[trigger]
            node_set(cubes, task, status, holder).contains_key(id) ==> job::cube_ok(
                node_set(cubes, task, status, holder)[id],
            ),
{
}

/// Which tasks in flight to pick.
#[derive(Clone, Copy)]
enum Choice {
    Expired { now: u64 },
    HeldBy { worker: u32 },
}

spec fn chosen(choice: Choice, f: FlightView) -> bool {
    match choice {
        Choice::Expired { now } => f.deadline <= now,
        Choice::HeldBy { worker } => f.worker_id == worker,
    }
}

impl CoordinatorState {
    pub open spec fn view(&self) -> CoordView {
        CoordView {
            batches: batch_views(self.batch_jobs@),
            cubes: cube_views(self.cube_jobs@),
            queue: task_views(self.task_queue@),
            flights: flight_views(self.in_flight@),
            workers: self.workers@,
            ttl: self.lease_ttl,
        }
    }

    pub open spec fn well_formed(&self) -> bool {
        coord_ok(self@)
    }

    pub fn new(lease_ttl: u64) -> (s: Self)
        ensures
            s.well_formed(),
            laws::plan_ok(s@),
            s@ == (CoordView {
                batches: Map::empty(),
                cubes: Map::empty(),
                queue: Seq::empty(),
                flights: Map::empty(),
                workers: Map::empty(),
                ttl: lease_ttl,
            }),
    {
        let s = CoordinatorState {
            batch_jobs: HashMap::new(),
            cube_jobs: HashMap::new(),
            task_queue: VecDeque::new(),
            in_flight: HashMap::new(),
            workers: HashMap::new(),
            lease_ttl,
        };
        proof {
            assert(s@.batches =~= Map::<JobId, BatchView>::empty());
            assert(s@.cubes =~= Map::<JobId, CubeView>::empty());
            assert(s@.queue =~= Seq::<TaskView>::empty());
            assert(s@.flights =~= Map::<TaskId, FlightView>::empty());
        }
        s
    }

    // -- Submit --------------------------------------------------------------

    /// Enqueue a batch of independent SMT scripts. Returns `(job_id, task_count)`;
    /// the caller adds `task_count` semaphore permits.
    pub fn submit_batch(&mut self, scripts: Vec<String>, max_conflicts: u64) -> (r: (JobId, usize))
        requires
            old(self).well_formed(),
        ensures
            final(self).well_formed(),
            laws::plan_ok(old(self)@) ==> laws::plan_ok(final(self)@),
            r.1 == scripts@.len(),
            exists|ids: Seq<TaskId>|
                ids.len() == scripts@.len() && final(self)@ == #[trigger] batch_submitted(
                    old(self)@,
                    r.0,
                    ids,
                    text::string_texts(scripts@),
                    max_conflicts,
                ),
    {
        let job_id: JobId = fresh_id();
        let ids: Vec<TaskId> = fresh_ids(scripts.len());
        let ghost texts = text::string_texts(scripts@);
        let count: usize = self.submit_batch_with(job_id, &ids, scripts, max_conflicts);
        let r = (job_id, count);
        assert(self@ == batch_submitted(old(self)@, r.0, ids@, texts, max_conflicts));
        assert(ids@.len() == scripts@.len());
        r
    }

    /// As [`CoordinatorState::submit_batch`], with given identifiers.
    pub fn submit_batch_with(
        &mut self,
        job_id: JobId,
        ids: &Vec<TaskId>,
        scripts: Vec<String>,
        max_conflicts: u64,
    ) -> (count: usize)
        requires
            old(self).well_formed(),
            ids@.len() == scripts@.len(),
        ensures
            final(self).well_formed(),
            laws::plan_ok(old(self)@) ==> laws::plan_ok(final(self)@),
            count == scripts@.len(),
            final(self)@ == batch_submitted(
                old(self)@,
                job_id,
                ids@,
                text::string_texts(scripts@),
                max_conflicts,
            ),
    {
        let count: usize = scripts.len();
        let ghost before = self@;
        let ghost texts = text::string_texts(scripts@);
        let ghost tasks = batch_tasks(job_id, ids@, texts, max_conflicts);
        let mut i: usize = 0;
        assert(self@.queue =~= before.queue + tasks.take(0));
        for script in it: scripts
            invariant
                texts == text::string_texts(it.seq()),
                tasks == batch_tasks(job_id, ids@, texts, max_conflicts),
                ids@.len() == it.seq().len(),
                i == it.index(),
                it.seq().len() == count,
                self@ == (CoordView { queue: self@.queue, ..before }),
                self@.queue == before.queue + tasks.take(it.index() as int),
        {
            let ghost here = self@.queue;
            let task = Task {
                id: ids[i],
                kind: TaskKind::Batch { job_id, script_index: i, script, max_conflicts },
            };
            let ghost t = task@;
            self.task_queue.push_back(task);
            proof {
                assert(t == tasks[i as int]);
                assert(self@.queue =~= here.push(t));
                assert(tasks.take(i + 1) =~= tasks.take(i as int).push(t));
                assert(self@.queue =~= before.queue + tasks.take(i + 1));
            }
            i += 1;
        }
        assert(tasks.take(count as int) =~= tasks);
        self.batch_jobs.insert(job_id, BatchJob::new(job_id, count));
        assert(self@.batches =~= before.batches.insert(
            job_id,
            job::fresh_batch(job_id, count as nat),
        ));
        proof {
            if laws::plan_ok(before) {
                laws::batch_keeps_plan(before, job_id, ids@, texts, max_conflicts);
            }
        }
        count
    }

    /// Enqueue a cube-and-conquer job (one open root node initially). Returns
    /// `(job_id, 1)`; the caller adds 1 semaphore permit.
    pub fn submit_cube(&mut self, script: String, max_conflicts: u64) -> (r: (JobId, usize))
        requires
            old(self).well_formed(),
        ensures
            final(self).well_formed(),
            laws::plan_ok(old(self)@) && !old(self)@.cubes.contains_key(r.0) ==> laws::plan_ok(
                final(self)@,
            ),
            r.1 == 1,
            exists|task_id: TaskId|
                final(self)@ == #[trigger] cube_submitted(
                    old(self)@,
                    r.0,
                    task_id,
                    script@,
                    max_conflicts,
                ),
    {
        let job_id: JobId = fresh_id();
        let task_id: TaskId = fresh_id();
        let ghost given = script@;
        let count: usize = self.submit_cube_with(job_id, task_id, script, max_conflicts);
        let r = (job_id, count);
        assert(self@ == cube_submitted(old(self)@, r.0, task_id, given, max_conflicts));
        r
    }

    /// As [`CoordinatorState::submit_cube`], with given identifiers.
    pub fn submit_cube_with(
        &mut self,
        job_id: JobId,
        task_id: TaskId,
        script: String,
        max_conflicts: u64,
    ) -> (count: usize)
        requires
            old(self).well_formed(),
        ensures
            final(self).well_formed(),
            laws::plan_ok(old(self)@) && !old(self)@.cubes.contains_key(job_id) ==> laws::plan_ok(
                final(self)@,
            ),
            count == 1,
            final(self)@ == cube_submitted(
                old(self)@,
                job_id,
                task_id,
                script@,
                max_conflicts,
            ),
    {
        let ghost before = self@;
        proof {
            if laws::plan_ok(before) && !before.cubes.contains_key(job_id) {
                laws::cube_keeps_plan(before, job_id, task_id, script@, max_conflicts);
            }
        }
        let base_script: String = strip_check_sat(script.as_str());
        let cube = CubeJob::new(job_id, base_script, max_conflicts);
        let ghost c = cube@;
        let task_script: String = match cube.script_for(0) {
            Some(s) => s,
            None => String::new(),
        };
        let task = Task {
            id: task_id,
            kind: TaskKind::Cube { job_id, node_id: 0, script: task_script, max_conflicts },
        };
        let ghost t = task@;
        self.task_queue.push_back(task);
        assert(self@.queue =~= before.queue.push(t));
        self.cube_jobs.insert(job_id, cube);
        proof {
            assert(self@.cubes =~= before.cubes.insert(job_id, c));
            order_of_jobs(
                CoordView { cubes: before.cubes.insert(job_id, c), ..before },
                self@,
            );
        }
        1
    }

    // -- Dispatch ------------------------------------------------------------

    /// Change the node of a cube task.
    fn set_task_node(&mut self, task: &Task, status: CubeNodeStatus, holder: Option<TaskId>)
        requires
            old(self).well_formed(),
        ensures
            final(self).well_formed(),
            final(self)@ == (CoordView {
                cubes: node_set(old(self)@.cubes, task@, status, holder),
                ..old(self)@
            }),
    {
        let ghost before = self@;
        proof {
            node_set_keeps_order(before.cubes, task@, status, holder);
        }
        if let TaskKind::Cube { job_id, node_id, .. } = &task.kind {
            let ghost m0 = self.cube_jobs@;
            match self.cube_jobs.remove(job_id) {
                Some(mut cube) => {
                    let ghost c0 = cube@;
                    assert(before.cubes.contains_key(*job_id));
                    assert(before.cubes[*job_id] == c0);
                    let i: u64 = *node_id;
                    if let Some(node) = cube.get_node_mut(i) {
                        node.status = status;
                        node.task_id = holder;
                    }
                    proof {
                        assert(cube@ == job::with_node(c0, i, status, holder));
                    }
                    let ghost c1 = cube@;
                    self.cube_jobs.insert(*job_id, cube);
                    assert(self@.cubes =~= before.cubes.insert(*job_id, c1));
                },
                None => {
                    assert(self.cube_jobs@ =~= m0);
                },
            }
        }
        proof {
            let cubes = node_set(before.cubes, task@, status, holder);
            assert(self@.cubes =~= cubes);
            order_of_jobs(CoordView { cubes, ..before }, self@);
        }
    }

    /// Pop the next queued task and mark it in-flight. The caller must have
    /// already consumed a semaphore permit.
    pub fn pop_task(&mut self, worker_id: u32, now: u64) -> (t: Option<Task>)
        requires
            old(self).well_formed(),
            now + old(self)@.ttl <= u64::MAX,
        ensures
            final(self).well_formed(),
            laws::plan_ok(old(self)@) ==> laws::plan_ok(final(self)@),
            match t {
                Some(task) => {
                    &&& old(self)@.queue.len() > 0
                    &&& task@ == old(self)@.queue[0]
                    &&& final(self)@ == popped(old(self)@, worker_id, now)
                    &&& final(self)@.flights[task@.id].deadline == now + old(self)@.ttl
                    &&& final(self)@.flights[task@.id].worker_id == worker_id
                },
                None => old(self)@.queue.len() == 0 && final(self)@ == old(self)@,
            },
    {
        let ghost before = self@;
        proof {
            if laws::plan_ok(before) && before.queue.len() > 0 {
                laws::popping_keeps_plan(before, worker_id, now);
            }
        }
        let ghost q0 = self.task_queue@;
        match self.task_queue.pop_front() {
            None => None,
            Some(task) => {
                let ghost t = task@;
                assert(t == task_views(q0)[0]);
                assert(self@.queue =~= before.queue.skip(1));
                proof {
                    order_of_jobs(before, self@);
                }
                let id: TaskId = task.id;
                self.set_task_node(&task, CubeNodeStatus::Assigned, Some(id));
                let flight = InFlightTask {
                    task: task.clone(),
                    worker_id,
                    deadline: now + self.lease_ttl,
                };
                let ghost f = flight@;
                let ghost here = self@;
                self.in_flight.insert(id, flight);
                assert(self@.flights =~= before.flights.insert(id, f));
                Some(task)
            },
        }
    }

    // -- Report result -------------------------------------------------------

    /// Record a worker result. Returns `(job_complete, new_task_count)`; the
    /// caller adds `new_task_count` semaphore permits (cube splits push new
    /// tasks).
    pub fn report_result(
        &mut self,
        task_id: TaskId,
        worker_id: u32,
        code: u32,
        model: String,
        split: Option<Vec<String>>,
        _now: u64,
    ) -> (r: Result<(bool, usize), String>)
        requires
            old(self).well_formed(),
        ensures
            final(self).well_formed(),
            laws::plan_ok(old(self)@) ==> laws::plan_ok(final(self)@),
            match r {
                Ok((done, count)) => {
                    &&& task_error(old(self)@, task_id, worker_id) is None
                    &&& exists|ids: Seq<TaskId>|
                        ids.len() == ids_needed(split_texts(split)) && (
                            final(self)@,
                            done,
                            count as nat,
                        ) == #[trigger] result_taken(
                            old(self)@,
                            task_id,
                            ResultView { code, model: model@ },
                            split_texts(split),
                            ids,
                        )
                },
                Err(e) => task_error(old(self)@, task_id, worker_id) == Some(e@) && final(self)@
                    == old(self)@,
            },
    {
        let n: usize = match &split {
            Some(branches) => branches.len(),
            None => 1,
        };
        let ids: Vec<TaskId> = fresh_ids(n);
        self.report_result_with(task_id, worker_id, code, model, split, &ids)
    }

    /// As [`CoordinatorState::report_result`], with given identifiers for new
    /// tasks.
    pub fn report_result_with(
        &mut self,
        task_id: TaskId,
        worker_id: u32,
        code: u32,
        model: String,
        split: Option<Vec<String>>,
        ids: &Vec<TaskId>,
    ) -> (r: Result<(bool, usize), String>)
        requires
            old(self).well_formed(),
            ids@.len() == ids_needed(split_texts(split)),
        ensures
            final(self).well_formed(),
            laws::plan_ok(old(self)@) ==> laws::plan_ok(final(self)@),
            match r {
                Ok((done, count)) => {
                    &&& task_error(old(self)@, task_id, worker_id) is None
                    &&& (final(self)@, done, count as nat) == result_taken(
                        old(self)@,
                        task_id,
                        ResultView { code, model: model@ },
                        split_texts(split),
                        ids@,
                    )
                },
                Err(e) => task_error(old(self)@, task_id, worker_id) == Some(e@) && final(self)@
                    == old(self)@,
            },
    {
        if let Err(e) = self.check_owner(task_id, worker_id) {
            return Err(e);
        }
        let ghost before = self@;
        let ghost result = ResultView { code, model: model@ };
        let ghost texts = split_texts(split);
        match self.in_flight.remove(&task_id) {
            None => {
                assert(false);
                Err(String::new())
            },
            Some(inf) => {
                let ghost rest = CoordView { flights: before.flights.remove(task_id), ..before };
                assert(inf@ == before.flights[task_id]);
                assert(self@.flights =~= rest.flights);
                match &inf.task.kind {
                    TaskKind::Batch { job_id, script_index, .. } => {
                        let complete: bool = self.record_batch(
                            *job_id,
                            *script_index,
                            TaskResult { code, model },
                        );
                        proof {
                            if laws::plan_ok(before) {
                                laws::reporting_keeps_plan(before, task_id, result, texts, ids@);
                            }
                        }
                        Ok((complete, 0))
                    },
                    TaskKind::Cube { job_id, node_id, max_conflicts, .. } => {
                        let count: usize = self.process_cube_result(
                            *job_id,
                            *node_id,
                            *max_conflicts,
                            code,
                            split,
                            ids,
                        );
                        let done: bool = match self.cube_jobs.get(job_id) {
                            Some(j) => {
                                assert(self@.cubes.contains_key(*job_id));
                                assert(self@.cubes[*job_id] == j@);
                                j.status == JobStatus::Complete
                            },
                            None => false,
                        };
                        proof {
                            if laws::plan_ok(before) {
                                laws::reporting_keeps_plan(before, task_id, result, texts, ids@);
                            }
                        }
                        Ok((done, count))
                    },
                }
            },
        }
    }

    /// Record the result of a script of a batch; false if there is no such
    /// script or others are missing.
    fn record_batch(&mut self, job_id: JobId, script_index: usize, result: TaskResult) -> (b: bool)
        requires
            old(self).well_formed(),
        ensures
            final(self).well_formed(),
            ({
                let v = old(self)@;
                if v.batches.contains_key(job_id) && script_index
                    < v.batches[job_id].results.len() {
                    let after = job::recorded(v.batches[job_id], script_index as int, result@);
                    &&& final(self)@ == (CoordView {
                        batches: v.batches.insert(job_id, after),
                        ..v
                    })
                    &&& b == (after.pending == 0)
                } else {
                    final(self)@ == v && !b
                }
            }),
    {
        let ghost before = self@;
        let ghost m0 = self.batch_jobs@;
        let ghost r = result@;
        match self.batch_jobs.remove(&job_id) {
            None => {
                assert(self.batch_jobs@ =~= m0);
                false
            },
            Some(mut batch) => {
                let ghost b0 = batch@;
                assert(before.batches.contains_key(job_id));
                assert(before.batches[job_id] == b0);
                let mut complete: bool = false;
                if script_index < batch.results.len() {
                    proof {
                        job::recording_keeps_order(b0, script_index as int, r);
                    }
                    complete = batch.record(script_index, result);
                }
                let ghost b1 = batch@;
                self.batch_jobs.insert(job_id, batch);
                proof {
                    assert(self@.batches =~= before.batches.insert(job_id, b1));
                    if script_index >= b0.results.len() {
                        assert(before.batches.insert(job_id, b0) =~= before.batches);
                    }
                }
                complete
            },
        }
    }

    /// Act on a worker's verdict on a cube. Returns how many tasks were queued.
    fn process_cube_result(
        &mut self,
        job_id: JobId,
        node_id: u64,
        max_conflicts: u64,
        code: u32,
        split: Option<Vec<String>>,
        ids: &Vec<TaskId>,
    ) -> (count: usize)
        requires
            old(self).well_formed(),
            ids@.len() == ids_needed(split_texts(split)),
        ensures
            final(self).well_formed(),
            (final(self)@, count as nat) == cube_result(
                old(self)@,
                job_id,
                node_id,
                max_conflicts,
                code,
                split_texts(split),
                ids@,
            ),
            code > 1 && split is Some && old(self)@.cubes.contains_key(job_id)
                ==> old(self)@.cubes[job_id].nodes.len() + split_texts(split)->0.len() <= u64::MAX,
    {
        let ghost before = self@;
        let ghost m0 = self.cube_jobs@;
        let ghost branches_text = split_texts(split);
        match self.cube_jobs.remove(&job_id) {
            None => {
                assert(self.cube_jobs@ =~= m0);
                0
            },
            Some(mut cube) => {
                let ghost c0 = cube@;
                assert(before.cubes.contains_key(job_id));
                assert(before.cubes[job_id] == c0);
                let count: usize;
                if code == 0 {
                    // SAT: mark leaf, finish job.
                    if let Some(n) = cube.get_node_mut(node_id) {
                        n.status = CubeNodeStatus::ClosedSat;
                    }
                    assert(cube@ == job::with_node_status(
                        c0,
                        node_id,
                        CubeNodeStatus::ClosedSat,
                    ));
                    cube.status = JobStatus::Complete;
                    cube.verdict = Some(Verdict::Sat);
                    count = 0;
                } else if code == 1 {
                    // UNSAT: close leaf, look whether all are done.
                    if let Some(n) = cube.get_node_mut(node_id) {
                        n.status = CubeNodeStatus::ClosedUnsat;
                    }
                    assert(cube@ == job::with_node_status(
                        c0,
                        node_id,
                        CubeNodeStatus::ClosedUnsat,
                    ));
                    if cube.is_unsat() {
                        cube.status = JobStatus::Complete;
                        cube.verdict = Some(Verdict::Unsat);
                    }
                    count = 0;
                } else {
                    match split {
                        Some(branches) => {
                            // Worker requests a cube split.
                            count = self.grow(
                                &mut cube,
                                job_id,
                                node_id,
                                max_conflicts,
                                branches,
                                ids,
                            );
                        },
                        None => {
                            // UNKNOWN: re-queue the same node for retry.
                            if let Some(n) = cube.get_node_mut(node_id) {
                                n.status = CubeNodeStatus::Open;
                                n.task_id = None;
                            }
                            assert(cube@ == job::with_node(
                                c0,
                                node_id,
                                CubeNodeStatus::Open,
                                None,
                            ));
                            let script: String = match cube.script_for(node_id) {
                                Some(s) => s,
                                None => {
                                    let s = String::new();
                                    assert(s@ =~= Seq::<char>::empty());
                                    s
                                },
                            };
                            let task = Task {
                                id: ids[0],
                                kind: TaskKind::Cube { job_id, node_id, script, max_conflicts },
                            };
                            let ghost t = task@;
                            self.task_queue.push_back(task);
                            assert(self@.queue =~= before.queue.push(t));
                            count = 1;
                        },
                    }
                }
                let ghost c1 = cube@;
                self.cube_jobs.insert(job_id, cube);
                proof {
                    assert(self@.cubes =~= before.cubes.insert(job_id, c1));
                    cube_result_keeps_order(
                        before,
                        job_id,
                        node_id,
                        max_conflicts,
                        code,
                        branches_text,
                        ids@,
                    );
                }
                count
            },
        }
    }

    /// Add a node and a task for each branch of a split.
    fn grow(
        &mut self,
        cube: &mut CubeJob,
        job_id: JobId,
        node_id: u64,
        max_conflicts: u64,
        branches: Vec<String>,
        ids: &Vec<TaskId>,
    ) -> (count: usize)
        requires
            job::cube_ok(old(cube)@),
            ids@.len() == branches@.len(),
        ensures
            count == branches@.len(),
            old(cube)@.nodes.len() + branches@.len() <= u64::MAX,
            final(cube)@ == ({
                let c = old(cube)@;
                let texts = text::string_texts(branches@);
                CubeView {
                    nodes: c.nodes + branch_nodes(c, node_id, texts),
                    next_node_id: (c.next_node_id + texts.len()) as u64,
                    ..c
                }
            }),
            final(self).cube_jobs == old(self).cube_jobs,
            final(self)@ == (CoordView {
                queue: old(self)@.queue + branch_tasks(
                    old(cube)@,
                    job_id,
                    node_id,
                    max_conflicts,
                    text::string_texts(branches@),
                    ids@,
                ),
                ..old(self)@
            }),
    {
        let ghost before = self@;
        let ghost c0 = cube@;
        let ghost texts = text::string_texts(branches@);
        let ghost kids = branch_nodes(c0, node_id, texts);
        let ghost tasks = branch_tasks(c0, job_id, node_id, max_conflicts, texts, ids@);
        let count: usize = branches.len();
        let start: u64 = cube.next_node_id;
        let parent_assertions: Vec<String> = if node_id < cube.nodes.len() as u64 {
            assert(c0.nodes[node_id as int] == cube.nodes@[node_id as int]@);
            text::copy_strings(&cube.nodes[node_id as usize].extra_assertions)
        } else {
            Vec::new()
        };
        assert(text::string_texts(parent_assertions@) =~= job::assertions_of(c0, node_id));
        let base: String = text::copy_str(cube.base_script.as_str());
        let mut i: usize = 0;
        proof {
            assert(cube@.nodes =~= c0.nodes + kids.take(0));
            assert(self@.queue =~= before.queue + tasks.take(0));
        }
        for branch in it: branches
            invariant
                texts == text::string_texts(it.seq()),
                it.seq().len() == count,
                i == it.index(),
                ids@.len() == count,
                start == c0.next_node_id,
                start == c0.nodes.len(),
                base@ == c0.base,
                text::string_texts(parent_assertions@) == job::assertions_of(c0, node_id),
                kids == branch_nodes(c0, node_id, texts),
                tasks == branch_tasks(c0, job_id, node_id, max_conflicts, texts, ids@),
                cube.nodes@.len() == c0.nodes.len() + i,
                cube@ == (CubeView { nodes: cube@.nodes, ..c0 }),
                cube@.nodes == c0.nodes + kids.take(i as int),
                self.cube_jobs == old(self).cube_jobs,
                self@ == (CoordView { queue: self@.queue, ..before }),
                self@.queue == before.queue + tasks.take(i as int),
        {
            let ghost here = self@.queue;
            let ghost nodes_here = cube@.nodes;
            let child_id: u64 = cube.nodes.len() as u64;
            let mut assertions: Vec<String> = text::copy_strings(&parent_assertions);
            let ghost so_far = text::string_texts(assertions@);
            let ghost bt = branch@;
            assertions.push(branch);
            assert(text::string_texts(assertions@) =~= so_far.push(bt));
            assert(bt == texts[i as int]);
            let script: String = build_script(base.as_str(), &assertions);
            let node = CubeNode {
                id: child_id,
                parent: Some(node_id),
                extra_assertions: assertions,
                status: CubeNodeStatus::Open,
                task_id: None,
            };
            let ghost nv = node@;
            cube.nodes.push(node);
            let task = Task {
                id: ids[i],
                kind: TaskKind::Cube { job_id, node_id: child_id, script, max_conflicts },
            };
            let ghost t = task@;
            self.task_queue.push_back(task);
            proof {
                assert(nv == kids[i as int]);
                assert(t == tasks[i as int]);
                assert(cube@.nodes =~= nodes_here.push(nv));
                assert(self@.queue =~= here.push(t));
                assert(kids.take(i + 1) =~= kids.take(i as int).push(nv));
                assert(tasks.take(i + 1) =~= tasks.take(i as int).push(t));
                assert(cube@.nodes =~= c0.nodes + kids.take(i + 1));
                assert(self@.queue =~= before.queue + tasks.take(i + 1));
            }
            i += 1;
        }
        proof {
            assert(kids.take(count as int) =~= kids);
            assert(tasks.take(count as int) =~= tasks);
            assert(c0.nodes.len() + count == cube.nodes.len());
        }
        cube.next_node_id = cube.nodes.len() as u64;
        count
    }

    // -- Lease management ----------------------------------------------------

    /// Refuse a worker that does not hold a task.
    fn check_owner(&self, task_id: TaskId, worker_id: u32) -> (r: Result<(), String>)
        ensures
            match r {
                Ok(_) => task_error(self@, task_id, worker_id) is None,
                Err(e) => task_error(self@, task_id, worker_id) == Some(e@),
            },
    {
        match self.in_flight.get(&task_id) {
            None => {
                let mut e = String::from_str("unknown task ");
                let id = text_of_id(task_id);
                e.append(id.as_str());
                Err(e)
            },
            Some(inf) => {
                assert(self@.flights[task_id] == inf@);
                if inf.worker_id != worker_id {
                    let mut e = String::from_str("task ");
                    let id = text_of_id(task_id);
                    e.append(id.as_str());
                    e.append(" not owned by worker ");
                    text::push_decimal(&mut e, worker_id as u64);
                    Err(e)
                } else {
                    Ok(())
                }
            },
        }
    }

    pub fn renew_lease(&mut self, task_id: TaskId, worker_id: u32, now: u64) -> (r: Result<
        (),
        String,
    >)
        requires
            old(self).well_formed(),
            now + old(self)@.ttl <= u64::MAX,
        ensures
            final(self).well_formed(),
            laws::plan_ok(old(self)@) ==> laws::plan_ok(final(self)@),
            match r {
                Ok(_) => {
                    &&& task_error(old(self)@, task_id, worker_id) is None
                    &&& final(self)@ == renewed(old(self)@, task_id, now)
                    &&& final(self)@.flights[task_id].deadline == now + old(self)@.ttl
                },
                Err(e) => task_error(old(self)@, task_id, worker_id) == Some(e@) && final(self)@
                    == old(self)@,
            },
    {
        if let Err(e) = self.check_owner(task_id, worker_id) {
            return Err(e);
        }
        let ghost before = self@;
        proof {
            if laws::plan_ok(before) {
                laws::renewal_keeps_plan(before, task_id, now);
            }
        }
        let ghost m0 = self.in_flight@;
        match self.in_flight.remove(&task_id) {
            Some(inf) => {
                let renewed = InFlightTask {
                    task: inf.task,
                    worker_id: inf.worker_id,
                    deadline: now + self.lease_ttl,
                };
                let ghost f = renewed@;
                self.in_flight.insert(task_id, renewed);
                assert(self@.flights =~= before.flights.insert(task_id, f));
            },
            None => {
                assert(false);
            },
        }
        Ok(())
    }

    /// The tasks in flight that satisfy a condition, in the order in which the
    /// map is walked.
    fn pick_flights(
        &self,
        choice: Choice,
    ) -> (ids: Vec<TaskId>)
        ensures
            picks(self@.flights, ids@, |f: FlightView| chosen(choice, f)),
    {
        let ghost p = |f: FlightView| chosen(choice, f);
        let mut ids: Vec<TaskId> = Vec::new();
        for entry in it: self.in_flight.iter()
            invariant
                it.seq().no_duplicates(),
                forall|i: int|
                    0 <= i < it.seq().len() ==> self.in_flight@.contains_key(
                        *(#[trigger] it.seq()[i]).0,
                    ) && self.in_flight@[*it.seq()[i].0] == *it.seq()[i].1,
                forall|k: TaskId| #[trigger]
                    self.in_flight@.contains_key(k) ==> it.seq().contains(
                        (&k, &self.in_flight@[k]),
                    ),
                p == (|f: FlightView| chosen(choice, f)),
                ids@.no_duplicates(),
                forall|k: TaskId| #[trigger]
                    ids@.contains(k) <==> walked(it.seq(), it.index() as int, k, p),
        {
            let (id, flight) = entry;
            let ghost i = it.index() as int;
            let ghost before = ids@;
            proof {
                assert(it.seq()[i] == (id, flight));
                assert(!before.contains(*id)) by {
                    if before.contains(*id) {
                        let j = choose|j: int|
                            0 <= j < i && *(#[trigger] it.seq()[j]).0 == *id && p(
                                it.seq()[j].1@,
                            );
                        assert(it.seq()[j] == it.seq()[i]);
                    }
                }
            }
            let hit: bool = match choice {
                Choice::Expired { now } => flight.deadline <= now,
                Choice::HeldBy { worker } => flight.worker_id == worker,
            };
            assert(hit == p(flight@));
            if hit {
                ids.push(*id);
            }
            assert forall|k: TaskId| #[trigger] ids@.contains(k) <==> walked(
                it.seq(),
                i + 1,
                k,
                p,
            ) by {
                if ids@.contains(k) {
                    let q = choose|q: int| 0 <= q < ids@.len() && ids@[q] == k;
                    if q < before.len() {
                        assert(before[q] == k);
                        assert(before.contains(k));
                        assert(walked(it.seq(), i, k, p));
                        let j = choose|j: int|
                            0 <= j < i && *(#[trigger] it.seq()[j]).0 == k && p(it.seq()[j].1@);
                        assert(0 <= j < i + 1 && *it.seq()[j].0 == k);
                    } else {
                        assert(*it.seq()[i].0 == k);
                    }
                }
                if walked(it.seq(), i + 1, k, p) {
                    let j = choose|j: int|
                        0 <= j < i + 1 && *(#[trigger] it.seq()[j]).0 == k && p(it.seq()[j].1@);
                    if j < i {
                        assert(walked(it.seq(), i, k, p));
                        assert(before.contains(k));
                        let q = choose|q: int| 0 <= q < before.len() && before[q] == k;
                        assert(ids@[q] == k);
                    } else {
                        assert(ids@[before.len() as int] == k);
                    }
                }
            }
        }
        proof {
            assert forall|k: TaskId| #[trigger] ids@.contains(k) <==> self@.flights.contains_key(k)
                && p(self@.flights[k]) by {
                if self@.flights.contains_key(k) {
                    assert(self.in_flight@.contains_key(k));
                    assert(self@.flights[k] == self.in_flight@[k]@);
                }
            }
        }
        ids
    }

    /// Reap expired leases, re-queuing their tasks. Returns count of re-queued
    /// tasks; the caller adds that many semaphore permits. The tasks are queued
    /// in the order in which the map of tasks in flight is walked.
    pub fn reap_expired(&mut self, now: u64) -> (n: usize)
        requires
            old(self).well_formed(),
        ensures
            final(self).well_formed(),
            exists|ids: Seq<TaskId>| #[trigger]
                picks_expired(old(self)@.flights, ids, now) && n == ids.len() && final(self)@
                    == expired_reaped(old(self)@, ids),
            laws::plan_ok(old(self)@) ==> laws::plan_ok(final(self)@),
    {
        let ghost before = self@;
        let ghost p = |f: FlightView| f.deadline <= now;
        let expired: Vec<TaskId> = self.pick_flights(Choice::Expired { now });
        proof {
            same_picks(
                before.flights,
                expired@,
                |f: FlightView| chosen(Choice::Expired { now }, f),
                p,
            );
        }
        let ghost ids = expired@;
        let ghost tasks = tasks_of(before.flights, ids);
        let mut count: usize = 0;
        let mut i: usize = 0;
        proof {
            assert(self@.queue =~= before.queue + tasks.take(0));
            assert(ids.take(0).to_set() =~= Set::<TaskId>::empty());
            assert(self@.flights =~= before.flights.remove_keys(ids.take(0).to_set()));
        }
        while i < expired.len()
            invariant
                i <= expired@.len(),
                count == i,
                ids == expired@,
                picks(before.flights, ids, p),
                tasks == tasks_of(before.flights, ids),
                self.well_formed(),
                self@.batches == before.batches,
                self@.workers == before.workers,
                self@.ttl == before.ttl,
                self@.cubes == reopened(before.cubes, tasks, i as int),
                self@.queue == before.queue + tasks.take(i as int),
                self@.flights == before.flights.remove_keys(ids.take(i as int).to_set()),
            decreases expired@.len() - i,
        {
            let id: TaskId = expired[i];
            proof {
                assert(ids.contains(ids[i as int]));
                step_back(before.flights, ids, i as int);
            }
            let ghost here = self@;
            match self.in_flight.remove(&id) {
                Some(inf) => {
                    let ghost f = inf@;
                    assert(f == here.flights[id]);
                    assert(self@.flights =~= here.flights.remove(id));
                    self.set_task_node(&inf.task, CubeNodeStatus::Open, None);
                    let ghost mid = self@;
                    self.task_queue.push_back(inf.task);
                    proof {
                        assert(f.task == tasks[i as int]);
                        assert(self@.queue =~= here.queue.push(f.task));
                        assert(tasks.take(i + 1) =~= tasks.take(i as int).push(f.task));
                        assert(self@.queue =~= before.queue + tasks.take(i + 1));
                    }
                    count += 1;
                },
                None => {
                    assert(false);
                },
            }
            i += 1;
        }
        proof {
            assert(ids.take(ids.len() as int) =~= ids);
            assert(tasks.take(ids.len() as int) =~= tasks);
            assert(picks_expired(before.flights, ids, now));
            if laws::plan_ok(before) {
                laws::reaping_keeps_plan(before, ids, |f: FlightView| f.deadline <= now);
            }
        }
        count
    }

    /// Reap workers whose heartbeat has timed out, re-queuing their tasks.
    /// Returns count of re-queued tasks; the caller adds that many semaphore
    /// permits. The tasks are queued in the order in which the maps are walked.
    pub fn reap_dead_workers(&mut self, timeout: u64, now: u64) -> (n: usize)
        requires
            old(self).well_formed(),
        ensures
            final(self).well_formed(),
            exists|dead: Seq<u32>, ids: Seq<TaskId>|
                #[trigger] picks_silent(old(self)@.workers, dead, timeout, now)
                    && #[trigger] picks_held(old(self)@.flights, ids, dead) && n == ids.len()
                    && final(self)@ == dead_reaped(old(self)@, dead, ids),
            laws::plan_ok(old(self)@) ==> laws::plan_ok(final(self)@),
    {
        let ghost before = self@;
        let queued: usize = self.task_queue.len();
        let dead: Vec<u32> = self.find_silent(timeout, now);
        let mut k: usize = 0;
        let ghost mut done: Seq<TaskId> = Seq::empty();
        proof {
            assert(dead@.take(0) =~= Seq::<u32>::empty());
            assert(done.to_set() =~= Set::<TaskId>::empty());
            assert(dead@.take(0).to_set() =~= Set::<u32>::empty());
            assert(self@.workers =~= before.workers.remove_keys(dead@.take(0).to_set()));
            assert(self@.flights =~= before.flights.remove_keys(done.to_set()));
            assert(self@.queue =~= before.queue + tasks_of(before.flights, done));
        }
        while k < dead.len()
            invariant
                k <= dead@.len(),
                picks_silent(before.workers, dead@, timeout, now),
                self.well_formed(),
                picks(
                    before.flights,
                    done,
                    |f: FlightView| dead@.take(k as int).contains(f.worker_id),
                ),
                self@ == (CoordView {
                    workers: before.workers.remove_keys(dead@.take(k as int).to_set()),
                    ..moved_back(before, done)
                }),
            decreases dead@.len() - k,
        {
            let wid: u32 = dead[k];
            let ghost here = self@;
            let ghost p = |f: FlightView| f.worker_id == wid;
            self.workers.remove(&wid);
            proof {
                let taken = dead@.take(k as int);
                assert(dead@.take(k + 1) =~= taken.push(wid));
                assert(dead@.take(k + 1).to_set() =~= taken.to_set().insert(wid)) by {
                    push_to_set(taken, wid);
                }
                assert(self@.workers =~= before.workers.remove_keys(dead@.take(k + 1).to_set()));
                order_of_jobs(here, self@);
            }
            let tasks: Vec<TaskId> = self.pick_flights(Choice::HeldBy { worker: wid });
            proof {
                same_picks(
                    here.flights,
                    tasks@,
                    |f: FlightView| chosen(Choice::HeldBy { worker: wid }, f),
                    p,
                );
            }
            proof {
                assert forall|i: int| 0 <= i < tasks@.len() implies
                    #[trigger] self@.flights.contains_key(tasks@[i]) by {
                    assert(tasks@.contains(tasks@[i]));
                }
            }
            self.requeue(&tasks);
            proof {
                silent_step(before.flights, dead@, done, tasks@, k as int);
                let all = done + tasks@;
                assert(self@.flights =~= before.flights.remove_keys(all.to_set())) by {
                    add_to_set(done, tasks@);
                }
                assert(tasks_of(before.flights, all) =~= tasks_of(before.flights, done)
                    + tasks_of(here.flights, tasks@)) by {
                    assert forall|i: int| 0 <= i < tasks@.len() implies
                        #[trigger] here.flights[tasks@[i]] == before.flights[tasks@[i]] by {
                        assert(tasks@.contains(tasks@[i]));
                    }
                }
                assert(self@.queue =~= before.queue + tasks_of(before.flights, all));
                done = all;
            }
            k += 1;
        }
        assert(dead@.take(dead@.len() as int) =~= dead@);
        proof {
            let p1 = |f: FlightView| dead@.take(k as int).contains(f.worker_id);
            let p2 = |f: FlightView| dead@.contains(f.worker_id);
            assert(picks(before.flights, done, p1));
            assert(picks(before.flights, done, p2)) by {
                assert forall|id: TaskId| #[trigger] done.contains(id)
                    <==> before.flights.contains_key(id) && p2(before.flights[id]) by {
                    assert(done.contains(id) <==> before.flights.contains_key(id) && p1(
                        before.flights[id],
                    ));
                }
            }
            assert(self@ == (CoordView {
                workers: before.workers.remove_keys(dead@.to_set()),
                ..moved_back(before, done)
            }));
            assert(picks_silent(before.workers, dead@, timeout, now));
            assert(picks_held(before.flights, done, dead@));
            if laws::plan_ok(before) {
                laws::dismissal_keeps_plan(before, dead@, done, p2);
            }
        }
        assert(self@.queue.len() == before.queue.len() + done.len());
        self.task_queue.len() - queued
    }

    /// Queue tasks in flight again.
    fn requeue(&mut self, ids: &Vec<TaskId>) -> (n: usize)
        requires
            old(self).well_formed(),
            ids@.no_duplicates(),
            forall|i: int| 0 <= i < ids@.len() ==> old(self)@.flights.contains_key(
                #[trigger] ids@[i],
            ),
        ensures
            final(self).well_formed(),
            n == ids@.len(),
            final(self)@ == moved_back(old(self)@, ids@),
    {
        let ghost before = self@;
        let ghost tasks = tasks_of(before.flights, ids@);
        let mut i: usize = 0;
        proof {
            assert(self@.queue =~= before.queue + tasks.take(0));
            assert(ids@.take(0).to_set() =~= Set::<TaskId>::empty());
            assert(self@.flights =~= before.flights.remove_keys(ids@.take(0).to_set()));
        }
        while i < ids.len()
            invariant
                i <= ids@.len(),
                ids@.no_duplicates(),
                forall|j: int| 0 <= j < ids@.len() ==> before.flights.contains_key(
                    #[trigger] ids@[j],
                ),
                tasks == tasks_of(before.flights, ids@),
                self.well_formed(),
                self@ == (CoordView { queue: self@.queue, flights: self@.flights, ..before }),
                self@.queue == before.queue + tasks.take(i as int),
                self@.flights == before.flights.remove_keys(ids@.take(i as int).to_set()),
            decreases ids@.len() - i,
        {
            let id: TaskId = ids[i];
            proof {
                assert(before.flights.contains_key(ids@[i as int]));
                step_back(before.flights, ids@, i as int);
            }
            let ghost here = self@;
            match self.in_flight.remove(&id) {
                Some(inf) => {
                    let ghost f = inf@;
                    assert(f == here.flights[id]);
                    assert(self@.flights =~= here.flights.remove(id));
                    self.task_queue.push_back(inf.task);
                    proof {
                        assert(f.task == tasks[i as int]);
                        assert(self@.queue =~= here.queue.push(f.task));
                        assert(tasks.take(i + 1) =~= tasks.take(i as int).push(f.task));
                        assert(self@.queue =~= before.queue + tasks.take(i + 1));
                        order_of_jobs(here, self@);
                    }
                },
                None => {
                    assert(false);
                },
            }
            i += 1;
        }
        proof {
            assert(ids@.take(ids@.len() as int) =~= ids@);
            assert(tasks.take(ids@.len() as int) =~= tasks);
        }
        i
    }

    /// The workers that have been silent for too long.
    fn find_silent(&self, timeout: u64, now: u64) -> (dead: Vec<u32>)
        ensures
            picks_silent(self@.workers, dead@, timeout, now),
    {
        let mut dead: Vec<u32> = Vec::new();
        for entry in it: self.workers.iter()
            invariant
                it.seq().no_duplicates(),
                forall|i: int|
                    0 <= i < it.seq().len() ==> self.workers@.contains_key(
                        *(#[trigger] it.seq()[i]).0,
                    ) && self.workers@[*it.seq()[i].0] == *it.seq()[i].1,
                forall|k: u32| #[trigger]
                    self.workers@.contains_key(k) ==> it.seq().contains((&k, &self.workers@[k])),
                dead@.no_duplicates(),
                forall|w: u32| #[trigger]
                    dead@.contains(w) <==> heard_silent(
                        it.seq(),
                        it.index() as int,
                        w,
                        timeout,
                        now,
                    ),
        {
            let (id, info) = entry;
            let ghost i = it.index() as int;
            let ghost before = dead@;
            proof {
                assert(it.seq()[i] == (id, info));
                assert(!before.contains(*id)) by {
                    if before.contains(*id) {
                        let j = choose|j: int|
                            0 <= j < i && *(#[trigger] it.seq()[j]).0 == *id && silent(
                                *it.seq()[j].1,
                                timeout,
                                now,
                            );
                        assert(it.seq()[j] == it.seq()[i]);
                    }
                }
            }
            let hit: bool = now > info.last_seen && now - info.last_seen > timeout;
            if hit {
                dead.push(*id);
            }
            assert forall|w: u32| #[trigger] dead@.contains(w) <==> heard_silent(
                it.seq(),
                i + 1,
                w,
                timeout,
                now,
            ) by {
                if dead@.contains(w) {
                    let q = choose|q: int| 0 <= q < dead@.len() && dead@[q] == w;
                    if q < before.len() {
                        assert(before[q] == w);
                        assert(before.contains(w));
                        assert(heard_silent(it.seq(), i, w, timeout, now));
                        let j = choose|j: int|
                            0 <= j < i && *(#[trigger] it.seq()[j]).0 == w && silent(
                                *it.seq()[j].1,
                                timeout,
                                now,
                            );
                        assert(0 <= j < i + 1 && *it.seq()[j].0 == w);
                    } else {
                        assert(*it.seq()[i].0 == w);
                    }
                }
                if heard_silent(it.seq(), i + 1, w, timeout, now) {
                    let j = choose|j: int|
                        0 <= j < i + 1 && *(#[trigger] it.seq()[j]).0 == w && silent(
                            *it.seq()[j].1,
                            timeout,
                            now,
                        );
                    if j < i {
                        assert(heard_silent(it.seq(), i, w, timeout, now));
                        assert(before.contains(w));
                        let q = choose|q: int| 0 <= q < before.len() && before[q] == w;
                        assert(dead@[q] == w);
                    } else {
                        assert(dead@[before.len() as int] == w);
                    }
                }
            }
        }
        dead
    }

    pub fn touch_worker(&mut self, worker_id: u32, now: u64)
        requires
            old(self).well_formed(),
        ensures
            final(self).well_formed(),
            final(self)@ == touched(old(self)@, worker_id, now),
            laws::plan_ok(old(self)@) ==> laws::plan_ok(final(self)@),
    {
        let ghost before = self@;
        proof {
            if laws::plan_ok(before) {
                laws::touching_keeps_plan(before, worker_id, now);
            }
        }
        self.workers.insert(worker_id, WorkerInfo { id: worker_id, last_seen: now });
        proof {
            order_of_jobs(before, self@);
        }
    }

    pub fn stats(&self) -> (s: StatusStats)
        ensures
            s.batch_jobs == self@.batches.dom().len(),
            s.cube_jobs == self@.cubes.dom().len(),
            s.tasks_queued == self@.queue.len(),
            s.tasks_in_flight == self@.flights.dom().len(),
            s.workers_active == self@.workers.dom().len(),
    {
        proof {
            assert(self@.batches.dom() =~= self.batch_jobs@.dom());
            assert(self@.cubes.dom() =~= self.cube_jobs@.dom());
            assert(self@.flights.dom() =~= self.in_flight@.dom());
        }
        StatusStats {
            batch_jobs: self.batch_jobs.len(),
            cube_jobs: self.cube_jobs.len(),
            tasks_queued: self.task_queue.len(),
            tasks_in_flight: self.in_flight.len(),
            workers_active: self.workers.len(),
        }
    }
}

/// The texts of the branches of a split.
pub open spec fn split_texts(split: Option<Vec<String>>) -> Option<Seq<Text>> {
    match split {
        Some(branches) => Some(text::string_texts(branches@)),
        None => None,
    }
}

/// Conditions that agree pick the same tasks.
proof fn same_picks(
    flights: Map<TaskId, FlightView>,
    ids: Seq<TaskId>,
    p: spec_fn(FlightView) -> bool,
    q: spec_fn(FlightView) -> bool,
)
    requires
        picks(flights, ids, p),
        forall|f: FlightView| #[trigger] p(f) == q(f),
    ensures
        picks(flights, ids, q),
{
    assert forall|id: TaskId| #[trigger] ids.contains(id) <==> flights.contains_key(id) && q(
        flights[id],
    ) by {
        assert(p(flights[id]) == q(flights[id]));
    }
}

/// An entry with a key and the condition occurs in the first part of a walk.
spec fn walked(
    s: Seq<(&TaskId, &InFlightTask)>,
    n: int,
    k: TaskId,
    p: spec_fn(FlightView) -> bool,
) -> bool {
    exists|j: int| 0 <= j < n && *(#[trigger] s[j]).0 == k && p(s[j].1@)
}

/// A silent worker occurs in the first part of a walk.
spec fn heard_silent(
    s: Seq<(&u32, &WorkerInfo)>,
    n: int,
    w: u32,
    timeout: u64,
    now: u64,
) -> bool {
    exists|j: int| 0 <= j < n && *(#[trigger] s[j]).0 == w && silent(*s[j].1, timeout, now)
}

proof fn push_to_set<A>(s: Seq<A>, a: A)
    ensures
        s.push(a).to_set() == s.to_set().insert(a),
{
    let t = s.push(a);
    assert forall|x: A| #[trigger] t.to_set().contains(x) <==> s.to_set().insert(a).contains(
        x,
    ) by {
        if t.contains(x) {
            let i = choose|i: int| 0 <= i < t.len() && t[i] == x;
            if i < s.len() {
                assert(s[i] == x);
            }
        }
        if s.contains(x) {
            let i = choose|i: int| 0 <= i < s.len() && s[i] == x;
            assert(t[i] == x);
        }
        assert(t[s.len() as int] == a);
    }
    assert(t.to_set() =~= s.to_set().insert(a));
}

proof fn add_to_set<A>(s: Seq<A>, t: Seq<A>)
    ensures
        (s + t).to_set() == s.to_set().union(t.to_set()),
{
    let u = s + t;
    assert forall|x: A| #[trigger] u.to_set().contains(x) <==> s.to_set().union(
        t.to_set(),
    ).contains(x) by {
        if u.contains(x) {
            let i = choose|i: int| 0 <= i < u.len() && u[i] == x;
            if i < s.len() {
                assert(s[i] == x);
            } else {
                assert(t[i - s.len()] == x);
            }
        }
        if s.contains(x) {
            let i = choose|i: int| 0 <= i < s.len() && s[i] == x;
            assert(u[i] == x);
        }
        if t.contains(x) {
            let i = choose|i: int| 0 <= i < t.len() && t[i] == x;
            assert(u[i + s.len()] == x);
        }
    }
    assert(u.to_set() =~= s.to_set().union(t.to_set()));
}

/// Taking one more task out of flight.
proof fn step_back(flights: Map<TaskId, FlightView>, ids: Seq<TaskId>, i: int)
    requires
        0 <= i < ids.len(),
        ids.no_duplicates(),
        flights.contains_key(ids[i]),
    ensures
        flights.remove_keys(ids.take(i).to_set()).contains_key(ids[i]),
        flights.remove_keys(ids.take(i).to_set())[ids[i]] == flights[ids[i]],
        flights.remove_keys(ids.take(i + 1).to_set()) == flights.remove_keys(
            ids.take(i).to_set(),
        ).remove(ids[i]),
{
    let taken = ids.take(i);
    assert(!taken.contains(ids[i])) by {
        if taken.contains(ids[i]) {
            let k = choose|k: int| 0 <= k < taken.len() && taken[k] == ids[i];
            assert(ids[k] == ids[i]);
        }
    }
    assert(ids.take(i + 1) =~= taken.push(ids[i]));
    push_to_set(taken, ids[i]);
    assert(flights.remove_keys(ids.take(i + 1).to_set()) =~= flights.remove_keys(
        taken.to_set(),
    ).remove(ids[i]));
}

/// The tasks of one more silent worker join those moved already.
proof fn silent_step(
    flights: Map<TaskId, FlightView>,
    dead: Seq<u32>,
    done: Seq<TaskId>,
    more: Seq<TaskId>,
    k: int,
)
    requires
        0 <= k < dead.len(),
        dead.no_duplicates(),
        picks(flights, done, |f: FlightView| dead.take(k).contains(f.worker_id)),
        picks(
            flights.remove_keys(done.to_set()),
            more,
            |f: FlightView| f.worker_id == dead[k],
        ),
    ensures
        picks(flights, done + more, |f: FlightView| dead.take(k + 1).contains(f.worker_id)),
{
    let p0 = |f: FlightView| dead.take(k).contains(f.worker_id);
    let p1 = |f: FlightView| f.worker_id == dead[k];
    let p2 = |f: FlightView| dead.take(k + 1).contains(f.worker_id);
    let rest = flights.remove_keys(done.to_set());
    let all = done + more;
    assert(dead.take(k + 1) =~= dead.take(k).push(dead[k]));
    assert forall|id: TaskId| #[trigger] more.contains(id) implies !done.contains(id) by {
        assert(rest.contains_key(id));
    }
    assert(all.no_duplicates()) by {
        assert forall|i: int, j: int|
            0 <= i < all.len() && 0 <= j < all.len() && i != j implies all[i] != all[j] by {
            if i < done.len() && j >= done.len() {
                assert(more.contains(more[j - done.len()]));
                assert(done.contains(done[i]));
            }
            if j < done.len() && i >= done.len() {
                assert(more.contains(more[i - done.len()]));
                assert(done.contains(done[j]));
            }
        }
    }
    assert forall|id: TaskId| #[trigger] all.contains(id) <==> flights.contains_key(id) && p2(
        flights[id],
    ) by {
        let w = flights[id].worker_id;
        assert(dead.take(k + 1).contains(w) <==> dead.take(k).contains(w) || w == dead[k]) by {
            let a = dead.take(k);
            let b = dead.take(k + 1);
            if a.contains(w) {
                let q = choose|q: int| 0 <= q < a.len() && a[q] == w;
                assert(b[q] == w);
            }
            assert(b[k] == dead[k]);
            if b.contains(w) && w != dead[k] {
                let q = choose|q: int| 0 <= q < b.len() && b[q] == w;
                assert(a[q] == w);
            }
        }
        assert(all.contains(id) <==> done.contains(id) || more.contains(id)) by {
            if done.contains(id) {
                let q = choose|q: int| 0 <= q < done.len() && done[q] == id;
                assert(all[q] == id);
            }
            if more.contains(id) {
                let q = choose|q: int| 0 <= q < more.len() && more[q] == id;
                assert(all[q + done.len()] == id);
            }
            if all.contains(id) {
                let q = choose|q: int| 0 <= q < all.len() && all[q] == id;
                if q < done.len() {
                    assert(done[q] == id);
                } else {
                    assert(more[q - done.len()] == id);
                }
            }
        }
        assert(done.contains(id) <==> flights.contains_key(id) && p0(flights[id]));
        assert(more.contains(id) <==> rest.contains_key(id) && p1(rest[id]));
    }
}

/// A script without a trailing `(check-sat)`.
pub fn strip_check_sat(s: &str) -> (r: String)
    ensures
        r@ == stripped(s@),
{
    let chars: Vec<char> = text::to_chars(s);
    let t: &[char] = text::trim_right(chars.as_slice());
    if text::ends_with(t, "(check-sat)") {
        proof {
            reveal_strlit("(check-sat)");
        }
        let head: &[char] = vstd::slice::slice_subrange(t, 0, t.len() - 11);
        assert(head@ =~= t@.take(t@.len() - "(check-sat)"@.len()));
        text::from_chars(text::trim_right(head))
    } else {
        text::from_chars(t)
    }
}

} // verus!
