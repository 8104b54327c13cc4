//! What the coordinator is for: cubes that refine each other, scripts that ask
//! for exactly their cube, leases that run their time, and results that land
//! where they belong.

use vstd::prelude::*;

#[allow(unused_imports)]
use crate::certify::proof_text;
#[allow(unused_imports)]
use crate::coordinator::job;
#[allow(unused_imports)]
use crate::coordinator::job::{
    BatchView, CubeNodeStatus, CubeNodeView, CubeView, FlightView, JobId, JobStatus, ResultView,
    TaskId, TaskKindView, TaskView, Verdict,
};
#[allow(unused_imports)]
use crate::coordinator::reply;
#[allow(unused_imports)]
use crate::coordinator::state;
#[allow(unused_imports)]
use crate::coordinator::state::{CoordView, WorkerInfo};
#[allow(unused_imports)]
use crate::text;
#[allow(unused_imports)]
use crate::text::Text;

verus! {

// ---------------------------------------------------------------------------
// Scripts
// ---------------------------------------------------------------------------

/// A script that asks for a cube: the base, every assertion on a line of its
/// own, in order, and the question.
pub open spec fn asks_for(script: Text, base: Text, assertions: Seq<Text>) -> bool {
    script == base + seq!['\n'] + proof_text::unlines(assertions) + "(check-sat)\n"@
}

proof fn lines_are_unlines(a: Seq<Text>)
    ensures
        job::lines(a) == proof_text::unlines(a),
    decreases a.len(),
{
    if a.len() == 0 {
        assert(job::lines(a) =~= proof_text::unlines(a));
    } else {
        lines_are_unlines(a.drop_last());
        proof_text::unlines_push(a.drop_last(), a.last());
        assert(a.drop_last().push(a.last()) =~= a);
        assert(job::lines(a) =~= proof_text::unlines(a));
    }
}

/// The script of a cube asks for the cube.
pub proof fn scripts_ask_for_their_cube(base: Text, assertions: Seq<Text>)
    ensures
        asks_for(job::script_text(base, assertions), base, assertions),
{
    lines_are_unlines(assertions);
    assert(base.push('\n') =~= base + seq!['\n']);
}

/// A script read line by line, if its assertions are single lines: the lines of
/// the base, then the assertions, then the question.
pub proof fn scripts_by_lines(base: Text, assertions: Seq<Text>)
    requires
        forall|i: int|
            0 <= i < assertions.len() ==> proof_text::no_feed(#[trigger] assertions[i]),
        proof_text::no_feed(base),
    ensures
        text::pieces(job::script_text(base, assertions), '\n') == seq![base] + assertions + seq![
            "(check-sat)"@,
            Seq::empty(),
        ],
{
    lines_are_unlines(assertions);
    reveal_strlit("(check-sat)\n");
    reveal_strlit("(check-sat)");
    assert("(check-sat)\n"@ =~= "(check-sat)"@.push('\n'));
    let body = seq![base] + assertions;
    let all = body.push("(check-sat)"@);
    assert(body.drop_first() =~= assertions);
    proof_text::unlines_push(body, "(check-sat)"@);
    assert(proof_text::unlines(all) =~= job::script_text(base, assertions));
    assert forall|i: int| 0 <= i < all.len() implies proof_text::no_feed(#[trigger] all[i]) by {
        if 0 < i < all.len() - 1 {
            assert(all[i] == assertions[i - 1]);
        }
    }
    proof_text::pieces_unlines(all);
    assert(all.push(Seq::empty()) =~= seq![base] + assertions + seq![
        "(check-sat)"@,
        Seq::<char>::empty(),
    ]);
}

/// The base of a submitted script: nothing of it is lost but a question at its
/// end and white space.
pub proof fn only_the_question_is_stripped(script: Text, gap: Text, end: Text)
    requires
        text::blank(gap),
        text::blank(end),
        script.len() > 0 ==> !text::is_space(script.last()),
    ensures
        state::stripped(script + gap + "(check-sat)"@ + end) == script,
        !text::ends_in(script, "(check-sat)"@) ==> state::stripped(script + end) == script,
{
    reveal_strlit("(check-sat)");
    let q = "(check-sat)"@;
    let t = script + gap + q;
    assert(t.last() == ')');
    text::trim_end_blank(t, end);
    assert(t.take(t.len() - q.len()) =~= script + gap);
    assert(t.skip(t.len() - q.len()) =~= q);
    assert(text::ends_in(t, q));
    text::trim_end_blank(script, gap);
    text::trim_end_blank(script, end);
}

// ---------------------------------------------------------------------------
// The plan of the jobs
// ---------------------------------------------------------------------------

/// The cubes of a job refine each other: the root has no assertions, and every
/// other node has those of an earlier node, its parent, and one more.
pub open spec fn tree_ok(c: CubeView) -> bool {
    &&& c.nodes.len() > 0
    &&& c.nodes[0].parent is None
    &&& c.nodes[0].assertions.len() == 0
    &&& forall|i: int| 0 < i < c.nodes.len() ==> refines_parent(c, #[trigger] c.nodes[i], i)
}

pub open spec fn refines_parent(c: CubeView, n: CubeNodeView, i: int) -> bool {
    &&& n.parent is Some
    &&& n.parent->0 < i
    &&& n.assertions.len() == c.nodes[n.parent->0 as int].assertions.len() + 1
    &&& n.assertions.drop_last() == c.nodes[n.parent->0 as int].assertions
}

/// A task of a cube job is for a node of the job, and its script asks for the
/// cube of the node.
pub open spec fn task_fits(v: CoordView, t: TaskView) -> bool {
    match t.kind {
        TaskKindView::Cube { job_id, node_id, script, max_conflicts } => {
            &&& v.cubes.contains_key(job_id)
            &&& node_id < v.cubes[job_id].nodes.len()
            &&& asks_for(
                script,
                v.cubes[job_id].base,
                v.cubes[job_id].nodes[node_id as int].assertions,
            )
            &&& max_conflicts == v.cubes[job_id].max_conflicts
        },
        TaskKindView::Batch { .. } => true,
    }
}

/// Every cube job is a tree of cubes that refine each other, and every task,
/// queued or in flight, asks for the cube of its node.
pub open spec fn plan_ok(v: CoordView) -> bool {
    &&& forall|id: JobId| #[trigger] v.cubes.contains_key(id) ==> tree_ok(v.cubes[id])
    &&& forall|i: int| 0 <= i < v.queue.len() ==> task_fits(v, #[trigger] v.queue[i])
    &&& forall|id: TaskId| #[trigger]
        v.flights.contains_key(id) ==> task_fits(v, v.flights[id].task)
}

/// Jobs keep what their tasks rest on.
spec fn jobs_grow(a: Map<JobId, CubeView>, b: Map<JobId, CubeView>) -> bool {
    forall|id: JobId| #[trigger]
        a.contains_key(id) ==> b.contains_key(id) && job_grows(a[id], b[id])
}

spec fn job_grows(a: CubeView, b: CubeView) -> bool {
    &&& b.base == a.base
    &&& b.max_conflicts == a.max_conflicts
    &&& b.nodes.len() >= a.nodes.len()
    &&& forall|i: int|
        0 <= i < a.nodes.len() ==> (#[trigger] b.nodes[i]).assertions == a.nodes[i].assertions
            && b.nodes[i].parent == a.nodes[i].parent
}

/// A task that fits goes on to fit.
proof fn fits_later(v: CoordView, w: CoordView, t: TaskView)
    requires
        task_fits(v, t),
        jobs_grow(v.cubes, w.cubes),
    ensures
        task_fits(w, t),
{
    if let TaskKindView::Cube { job_id, node_id, .. } = t.kind {
        assert(v.cubes.contains_key(job_id));
        assert(job_grows(v.cubes[job_id], w.cubes[job_id]));
        assert(w.cubes[job_id].nodes[node_id as int].assertions
            == v.cubes[job_id].nodes[node_id as int].assertions);
    }
}

/// The plan holds on when jobs grow, their trees are in order, and every task
/// is an old one or fits.
proof fn plan_later(v: CoordView, w: CoordView)
    requires
        plan_ok(v),
        jobs_grow(v.cubes, w.cubes),
        forall|id: JobId| #[trigger] w.cubes.contains_key(id) ==> tree_ok(w.cubes[id]),
        forall|i: int|
            0 <= i < w.queue.len() ==> task_fits(v, #[trigger] w.queue[i]) || task_fits(
                w,
                w.queue[i],
            ),
        forall|id: TaskId| #[trigger]
            w.flights.contains_key(id) ==> task_fits(v, w.flights[id].task),
    ensures
        plan_ok(w),
{
    assert forall|i: int| 0 <= i < w.queue.len() implies task_fits(w, #[trigger] w.queue[i]) by {
        if task_fits(v, w.queue[i]) {
            fits_later(v, w, w.queue[i]);
        }
    }
    assert forall|id: TaskId| #[trigger] w.flights.contains_key(id) implies task_fits(
        w,
        w.flights[id].task,
    ) by {
        fits_later(v, w, w.flights[id].task);
    }
}

/// The same cubes, whatever is known of their nodes.
proof fn tree_of_same_cubes(a: CubeView, b: CubeView)
    requires
        tree_ok(a),
        job_grows(a, b),
        b.nodes.len() == a.nodes.len(),
    ensures
        tree_ok(b),
{
    assert forall|i: int| 0 < i < b.nodes.len() implies refines_parent(
        b,
        #[trigger] b.nodes[i],
        i,
    ) by {
        assert(refines_parent(a, a.nodes[i], i));
        assert(b.nodes[i].parent == a.nodes[i].parent);
        let p = a.nodes[i].parent->0 as int;
        assert(b.nodes[p].assertions == a.nodes[p].assertions);
    }
    assert(b.nodes[0].assertions == a.nodes[0].assertions);
}

/// Changing what is known of a node leaves the cubes alone.
proof fn node_set_keeps_trees(
    cubes: Map<JobId, CubeView>,
    task: TaskView,
    status: CubeNodeStatus,
    holder: Option<TaskId>,
)
    requires
        forall|id: JobId| #[trigger] cubes.contains_key(id) ==> tree_ok(cubes[id]),
    ensures
        ({
            let after = state::node_set(cubes, task, status, holder);
            &&& jobs_grow(cubes, after)
            &&& forall|id: JobId| #[trigger] after.contains_key(id) ==> tree_ok(after[id])
        }),
{
    let after = state::node_set(cubes, task, status, holder);
    assert forall|id: JobId| #[trigger] after.contains_key(id) implies tree_ok(after[id]) by {
        assert(cubes.contains_key(id));
        assert(job_grows(cubes[id], after[id]));
        tree_of_same_cubes(cubes[id], after[id]);
    }
}

proof fn reopened_keeps_trees(cubes: Map<JobId, CubeView>, tasks: Seq<TaskView>, n: int)
    requires
        forall|id: JobId| #[trigger] cubes.contains_key(id) ==> tree_ok(cubes[id]),
    ensures
        ({
            let after = state::reopened(cubes, tasks, n);
            &&& jobs_grow(cubes, after)
            &&& forall|id: JobId| #[trigger] after.contains_key(id) ==> tree_ok(after[id])
        }),
    decreases n,
{
    if n > 0 {
        reopened_keeps_trees(cubes, tasks, n - 1);
        let mid = state::reopened(cubes, tasks, n - 1);
        let after = state::reopened(cubes, tasks, n);
        node_set_keeps_trees(mid, tasks[n - 1], CubeNodeStatus::Open, None);
        assert forall|id: JobId| #[trigger] cubes.contains_key(id) implies after.contains_key(id)
            && job_grows(cubes[id], after[id]) by {
            assert(mid.contains_key(id));
            assert(job_grows(cubes[id], mid[id]));
            assert(job_grows(mid[id], after[id]));
            assert forall|i: int| 0 <= i < cubes[id].nodes.len() implies (
            #[trigger] after[id].nodes[i]).assertions == cubes[id].nodes[i].assertions
                && after[id].nodes[i].parent == cubes[id].nodes[i].parent by {
                assert(mid[id].nodes[i].assertions == cubes[id].nodes[i].assertions);
            }
        }
    }
}

/// Submitting a batch keeps the plan.
pub proof fn batch_keeps_plan(
    v: CoordView,
    job_id: JobId,
    ids: Seq<TaskId>,
    scripts: Seq<Text>,
    max_conflicts: u64,
)
    requires
        plan_ok(v),
    ensures
        plan_ok(state::batch_submitted(v, job_id, ids, scripts, max_conflicts)),
{
    let w = state::batch_submitted(v, job_id, ids, scripts, max_conflicts);
    let more = state::batch_tasks(job_id, ids, scripts, max_conflicts);
    assert forall|i: int| 0 <= i < w.queue.len() implies task_fits(v, #[trigger] w.queue[i])
        || task_fits(w, w.queue[i]) by {
        if i < v.queue.len() {
            assert(w.queue[i] == v.queue[i]);
        } else {
            assert(w.queue[i] == more[i - v.queue.len()]);
        }
    }
    plan_later(v, w);
}

/// Submitting a cube job under a new identifier keeps the plan.
pub proof fn cube_keeps_plan(
    v: CoordView,
    job_id: JobId,
    task_id: TaskId,
    script: Text,
    max_conflicts: u64,
)
    requires
        plan_ok(v),
        !v.cubes.contains_key(job_id),
    ensures
        plan_ok(state::cube_submitted(v, job_id, task_id, script, max_conflicts)),
{
    let w = state::cube_submitted(v, job_id, task_id, script, max_conflicts);
    let c = w.cubes[job_id];
    scripts_ask_for_their_cube(c.base, c.nodes[0].assertions);
    assert(tree_ok(c));
    assert forall|i: int| 0 <= i < w.queue.len() implies task_fits(v, #[trigger] w.queue[i])
        || task_fits(w, w.queue[i]) by {
        if i < v.queue.len() {
            assert(w.queue[i] == v.queue[i]);
        }
    }
    plan_later(v, w);
}

/// Handing out a task keeps the plan.
pub proof fn popping_keeps_plan(v: CoordView, worker_id: u32, now: u64)
    requires
        plan_ok(v),
        v.queue.len() > 0,
    ensures
        plan_ok(state::popped(v, worker_id, now)),
{
    let w = state::popped(v, worker_id, now);
    let t = v.queue[0];
    node_set_keeps_trees(v.cubes, t, CubeNodeStatus::Assigned, Some(t.id));
    assert forall|i: int| 0 <= i < w.queue.len() implies task_fits(v, #[trigger] w.queue[i])
        || task_fits(w, w.queue[i]) by {
        assert(w.queue[i] == v.queue[i + 1]);
    }
    assert(task_fits(v, t));
    plan_later(v, w);
}

/// Renewing a lease keeps the plan.
pub proof fn renewal_keeps_plan(v: CoordView, task_id: TaskId, now: u64)
    requires
        plan_ok(v),
        v.flights.contains_key(task_id),
    ensures
        plan_ok(state::renewed(v, task_id, now)),
{
    let w = state::renewed(v, task_id, now);
    assert(task_fits(v, v.flights[task_id].task));
    plan_later(v, w);
}

/// A sign of life keeps the plan.
pub proof fn touching_keeps_plan(v: CoordView, worker_id: u32, now: u64)
    requires
        plan_ok(v),
    ensures
        plan_ok(state::touched(v, worker_id, now)),
{
    plan_later(v, state::touched(v, worker_id, now));
}

proof fn moved_tasks_fit(
    v: CoordView,
    ids: Seq<TaskId>,
    p: spec_fn(FlightView) -> bool,
    queue: Seq<TaskView>,
)
    requires
        plan_ok(v),
        state::picks(v.flights, ids, p),
        queue == v.queue + state::tasks_of(v.flights, ids),
    ensures
        forall|i: int| 0 <= i < queue.len() ==> task_fits(v, #[trigger] queue[i]),
{
    assert forall|i: int| 0 <= i < queue.len() implies task_fits(v, #[trigger] queue[i]) by {
        if i < v.queue.len() {
            assert(queue[i] == v.queue[i]);
        } else {
            let k = i - v.queue.len();
            assert(ids.contains(ids[k]));
            assert(queue[i] == v.flights[ids[k]].task);
        }
    }
}

/// Queueing tasks again keeps the plan.
pub proof fn reaping_keeps_plan(v: CoordView, ids: Seq<TaskId>, p: spec_fn(FlightView) -> bool)
    requires
        plan_ok(v),
        state::picks(v.flights, ids, p),
    ensures
        plan_ok(state::expired_reaped(v, ids)),
{
    let w = state::expired_reaped(v, ids);
    reopened_keeps_trees(v.cubes, state::tasks_of(v.flights, ids), ids.len() as int);
    moved_tasks_fit(v, ids, p, w.queue);
    plan_later(v, w);
}

/// Forgetting workers and queueing their tasks again keeps the plan.
pub proof fn dismissal_keeps_plan(
    v: CoordView,
    dead: Seq<u32>,
    ids: Seq<TaskId>,
    p: spec_fn(FlightView) -> bool,
)
    requires
        plan_ok(v),
        state::picks(v.flights, ids, p),
    ensures
        plan_ok(state::dead_reaped(v, dead, ids)),
{
    let w = state::dead_reaped(v, dead, ids);
    moved_tasks_fit(v, ids, p, w.queue);
    plan_later(v, w);
}

/// A worker's verdict on a cube keeps the plan.
proof fn cube_result_keeps_plan(
    v: CoordView,
    job_id: JobId,
    node_id: u64,
    max_conflicts: u64,
    code: u32,
    split: Option<Seq<Text>>,
    ids: Seq<TaskId>,
)
    requires
        plan_ok(v),
        state::coord_ok(v),
        v.cubes.contains_key(job_id),
        node_id < v.cubes[job_id].nodes.len(),
        max_conflicts == v.cubes[job_id].max_conflicts,
        code > 1 && split is Some ==> v.cubes[job_id].nodes.len() + split->0.len() <= u64::MAX,
    ensures
        plan_ok(state::cube_result(v, job_id, node_id, max_conflicts, code, split, ids).0),
{
    let w = state::cube_result(v, job_id, node_id, max_conflicts, code, split, ids).0;
    let c = v.cubes[job_id];
    let d = w.cubes[job_id];
    assert(tree_ok(c));
    assert(job_grows(c, d));
    if code > 1 && split is Some {
        let branches = split->0;
        let kids = state::branch_nodes(c, node_id, branches);
        assert(job::cube_ok(c));
        assert forall|i: int| 0 < i < d.nodes.len() implies refines_parent(
            d,
            #[trigger] d.nodes[i],
            i,
        ) by {
            if i < c.nodes.len() {
                assert(d.nodes[i] == c.nodes[i]);
                assert(refines_parent(c, c.nodes[i], i));
                let p = c.nodes[i].parent->0 as int;
                assert(d.nodes[p] == c.nodes[p]);
            } else {
                let k = i - c.nodes.len();
                assert(d.nodes[i] == kids[k]);
                assert(d.nodes[node_id as int] == c.nodes[node_id as int]);
                assert(c.nodes[node_id as int].assertions.push(branches[k]).drop_last()
                    =~= c.nodes[node_id as int].assertions);
            }
        }
        assert(tree_ok(d));
        let tasks = state::branch_tasks(c, job_id, node_id, max_conflicts, branches, ids);
        assert forall|i: int| 0 <= i < w.queue.len() implies task_fits(v, #[trigger] w.queue[i])
            || task_fits(w, w.queue[i]) by {
            if i < v.queue.len() {
                assert(w.queue[i] == v.queue[i]);
            } else {
                let k = i - v.queue.len();
                assert(w.queue[i] == tasks[k]);
                let at = c.nodes.len() + k;
                assert(d.nodes[at] == kids[k]);
                scripts_ask_for_their_cube(c.base, kids[k].assertions);
            }
        }
    } else {
        tree_of_same_cubes(c, d);
        scripts_ask_for_their_cube(c.base, c.nodes[node_id as int].assertions);
        assert forall|i: int| 0 <= i < w.queue.len() implies task_fits(v, #[trigger] w.queue[i])
            || task_fits(w, w.queue[i]) by {
            if i < v.queue.len() {
                assert(w.queue[i] == v.queue[i]);
            }
        }
    }
    assert forall|id: JobId| #[trigger] w.cubes.contains_key(id) implies tree_ok(w.cubes[id]) by {
        if id != job_id {
            assert(v.cubes.contains_key(id));
        }
    }
    plan_later(v, w);
}

/// Taking a worker's result keeps the plan.
pub proof fn reporting_keeps_plan(
    v: CoordView,
    task_id: TaskId,
    result: ResultView,
    split: Option<Seq<Text>>,
    ids: Seq<TaskId>,
)
    requires
        plan_ok(v),
        state::coord_ok(v),
        v.flights.contains_key(task_id),
        v.flights[task_id].task.kind matches TaskKindView::Cube { job_id, .. } ==> (result.code > 1
            && split is Some && v.cubes.contains_key(job_id) ==> v.cubes[job_id].nodes.len()
            + split->0.len() <= u64::MAX),
    ensures
        plan_ok(state::result_taken(v, task_id, result, split, ids).0),
{
    let rest = CoordView { flights: v.flights.remove(task_id), ..v };
    let t = v.flights[task_id].task;
    assert(task_fits(v, t));
    assert forall|id: TaskId| #[trigger] rest.flights.contains_key(id) implies task_fits(
        v,
        rest.flights[id].task,
    ) by {
        assert(v.flights.contains_key(id));
    }
    plan_later(v, rest);
    match t.kind {
        TaskKindView::Batch { .. } => {
            let w = state::result_taken(v, task_id, result, split, ids).0;
            plan_later(rest, w);
        },
        TaskKindView::Cube { job_id, node_id, max_conflicts, .. } => {
            cube_result_keeps_plan(
                rest,
                job_id,
                node_id,
                max_conflicts,
                result.code,
                split,
                ids,
            );
        },
    }
}

// ---------------------------------------------------------------------------
// Cubes
// ---------------------------------------------------------------------------

/// All assertions of a cube hold, for given truth values of assertions.
pub open spec fn in_region(holds: spec_fn(Text) -> bool, assertions: Seq<Text>) -> bool {
    forall|k: int| 0 <= k < assertions.len() ==> holds(#[trigger] assertions[k])
}

/// The region of a child lies within the region of its parent: it is the part
/// in which the child's own branch holds, too.
pub proof fn children_lie_within_parents(
    c: CubeView,
    i: int,
    holds: spec_fn(Text) -> bool,
)
    requires
        tree_ok(c),
        0 < i < c.nodes.len(),
    ensures
        c.nodes[i].parent is Some,
        c.nodes[i].assertions.len() > 0,
        in_region(holds, c.nodes[i].assertions) <==> in_region(
            holds,
            c.nodes[c.nodes[i].parent->0 as int].assertions,
        ) && holds(c.nodes[i].assertions.last()),
{
    assert(refines_parent(c, c.nodes[i], i));
    let a = c.nodes[i].assertions;
    let b = c.nodes[c.nodes[i].parent->0 as int].assertions;
    assert(a =~= b.push(a.last()));
    if in_region(holds, a) {
        assert forall|k: int| 0 <= k < b.len() implies holds(#[trigger] b[k]) by {
            assert(a[k] == b[k]);
        }
        assert(holds(a[a.len() - 1]));
    }
    if in_region(holds, b) && holds(a.last()) {
        assert forall|k: int| 0 <= k < a.len() implies holds(#[trigger] a[k]) by {
            if k < b.len() {
                assert(a[k] == b[k]);
            }
        }
    }
}

/// Where a node was split, one of its branches holds wherever its cube does.
pub open spec fn splits_cover(c: CubeView, holds: spec_fn(Text) -> bool) -> bool {
    forall|i: int|
        0 <= i < c.nodes.len() && in_region(holds, (#[trigger] c.nodes[i]).assertions) && (exists|
            j: int,
        |
            0 <= j < c.nodes.len() && (#[trigger] c.nodes[j]).parent == Some(i as u64))
            ==> exists|j: int|
            0 <= j < c.nodes.len() && (#[trigger] c.nodes[j]).parent == Some(i as u64) && holds(
                c.nodes[j].assertions.last(),
            )
}

/// A refuted job has no model, if the reports were right: where every split
/// covers its cube, anything that satisfies the base lies in the cube of a node
/// that some worker reported unsatisfiable.
pub proof fn refutations_are_sound(c: CubeView, holds: spec_fn(Text) -> bool) -> (i: int)
    requires
        job::cube_ok(c),
        tree_ok(c),
        job::all_refuted(c.nodes),
        splits_cover(c, holds),
    ensures
        0 <= i < c.nodes.len(),
        c.nodes[i].status == CubeNodeStatus::ClosedUnsat,
        in_region(holds, c.nodes[i].assertions),
{
    refuted_below(c, holds, 0)
}

proof fn refuted_below(c: CubeView, holds: spec_fn(Text) -> bool, i: int) -> (r: int)
    requires
        job::cube_ok(c),
        tree_ok(c),
        job::all_refuted(c.nodes),
        splits_cover(c, holds),
        0 <= i < c.nodes.len(),
        in_region(holds, c.nodes[i].assertions),
    ensures
        0 <= r < c.nodes.len(),
        c.nodes[r].status == CubeNodeStatus::ClosedUnsat,
        in_region(holds, c.nodes[r].assertions),
    decreases c.nodes.len() - i,
{
    if c.nodes[i].status == CubeNodeStatus::ClosedUnsat {
        i
    } else {
        assert(job::refuted_or_split(c.nodes, i));
        assert(c.nodes[i].id == i);
        let k = choose|k: int|
            0 <= k < c.nodes.len() && (#[trigger] c.nodes[k]).parent == Some(c.nodes[i].id);
        assert(c.nodes[k].parent == Some(i as u64));
        let j = choose|j: int|
            0 <= j < c.nodes.len() && (#[trigger] c.nodes[j]).parent == Some(i as u64) && holds(
                c.nodes[j].assertions.last(),
            );
        if j == 0 {
            assert(c.nodes[0].parent is None);
        }
        children_lie_within_parents(c, j, holds);
        assert(refines_parent(c, c.nodes[j], j));
        refuted_below(c, holds, j)
    }
}

/// Whether a node of a job has a child.
pub open spec fn was_split(c: CubeView, i: int) -> bool {
    exists|j: int| 0 <= j < c.nodes.len() && (#[trigger] c.nodes[j]).parent == Some(i as u64)
}

/// What becomes of a job when a worker reports on one of its nodes.
///
/// SAT closes the node and decides the job. UNSAT closes the node, and decides
/// the job exactly if now every node is closed-UNSAT or split. Anything else
/// decides nothing: the node is queued again, or its branches are, each as a
/// child of the node.
pub proof fn reports_decide_jobs(
    v: CoordView,
    job_id: JobId,
    node_id: u64,
    max_conflicts: u64,
    code: u32,
    split: Option<Seq<Text>>,
    ids: Seq<TaskId>,
)
    requires
        state::coord_ok(v),
        v.cubes.contains_key(job_id),
        node_id < v.cubes[job_id].nodes.len(),
        v.cubes[job_id].verdict is None,
        v.cubes[job_id].status == JobStatus::Running,
        split is Some ==> v.cubes[job_id].nodes.len() + split->0.len() <= u64::MAX,
        ids.len() == (match split {
            Some(branches) => branches.len(),
            None => 1,
        }),
    ensures
        ({
            let (w, count) = state::cube_result(
                v,
                job_id,
                node_id,
                max_conflicts,
                code,
                split,
                ids,
            );
            let c = v.cubes[job_id];
            let d = w.cubes[job_id];
            let n = c.nodes.len() as int;
            &&& w.cubes.dom() == v.cubes.dom()
            &&& d.base == c.base
            &&& d.nodes.len() >= n
            &&& forall|i: int|
                0 <= i < n && i != node_id ==> #[trigger] d.nodes[i] == c.nodes[i]
            &&& w.queue.len() == v.queue.len() + count
            &&& v.queue.is_prefix_of(w.queue)
            &&& if code == 0 {
                &&& d.nodes.len() == n && count == 0
                &&& d.nodes[node_id as int].status == CubeNodeStatus::ClosedSat
                &&& d.verdict == Some(Verdict::Sat) && d.status == JobStatus::Complete
            } else if code == 1 {
                &&& d.nodes.len() == n && count == 0
                &&& d.nodes[node_id as int].status == CubeNodeStatus::ClosedUnsat
                &&& d.verdict == Some(Verdict::Unsat) <==> forall|i: int|
                    0 <= i < n ==> (#[trigger] d.nodes[i]).status == CubeNodeStatus::ClosedUnsat
                        || was_split(d, i)
                &&& d.verdict == Some(Verdict::Unsat) <==> d.status == JobStatus::Complete
                &&& d.verdict is None || d.verdict == Some(Verdict::Unsat)
            } else {
                &&& d.verdict is None && d.status == JobStatus::Running
                &&& match split {
                    None => {
                        &&& d.nodes.len() == n && count == 1
                        &&& d.nodes[node_id as int].status == CubeNodeStatus::Open
                        &&& d.nodes[node_id as int].task_id is None
                        &&& d.nodes[node_id as int].assertions
                            == c.nodes[node_id as int].assertions
                        &&& is_task_for(w.queue.last(), ids[0], job_id, d, node_id as int)
                    },
                    Some(branches) => {
                        &&& d.nodes.len() == n + branches.len() && count == branches.len()
                        &&& d.nodes[node_id as int] == c.nodes[node_id as int]
                        &&& forall|k: int|
                            0 <= k < branches.len() ==> {
                                let child = #[trigger] d.nodes[n + k];
                                &&& child.parent == Some(node_id)
                                &&& child.status == CubeNodeStatus::Open
                                &&& child.assertions
                                    == c.nodes[node_id as int].assertions + seq![branches[k]]
                                &&& is_task_for(
                                    w.queue[v.queue.len() + k],
                                    ids[k],
                                    job_id,
                                    d,
                                    n + k,
                                )
                            }
                    },
                }
            }
        }),
{
    let (w, count) = state::cube_result(v, job_id, node_id, max_conflicts, code, split, ids);
    let c = v.cubes[job_id];
    let d = w.cubes[job_id];
    let n = c.nodes.len() as int;
    assert(job::cube_ok(c));
    assert(w.cubes.dom() =~= v.cubes.dom());
    assert(w.queue.take(v.queue.len() as int) =~= v.queue);
    if code == 1 {
        assert forall|i: int| 0 <= i < n implies #[trigger] job::refuted_or_split(d.nodes, i) == (
        d.nodes[i].status == CubeNodeStatus::ClosedUnsat || was_split(d, i)) by {
            assert(c.nodes[i].id == i);
            assert(d.nodes[i].id == i);
        }
        if job::all_refuted(d.nodes) {
            assert forall|i: int| 0 <= i < n implies (#[trigger] d.nodes[i]).status
                == CubeNodeStatus::ClosedUnsat || was_split(d, i) by {
                assert(job::refuted_or_split(d.nodes, i));
            }
        } else {
            let i = choose|i: int|
                0 <= i < d.nodes.len() && !(#[trigger] job::refuted_or_split(d.nodes, i));
            assert(!(d.nodes[i].status == CubeNodeStatus::ClosedUnsat || was_split(d, i)));
        }
    } else if code > 1 {
        match split {
            None => {
                scripts_ask_for_their_cube(c.base, c.nodes[node_id as int].assertions);
            },
            Some(branches) => {
                let kids = state::branch_nodes(c, node_id, branches);
                let tasks = state::branch_tasks(c, job_id, node_id, max_conflicts, branches, ids);
                assert forall|k: int| 0 <= k < branches.len() implies {
                    let child = #[trigger] d.nodes[n + k];
                    &&& child.parent == Some(node_id)
                    &&& child.status == CubeNodeStatus::Open
                    &&& child.assertions == c.nodes[node_id as int].assertions + seq![branches[k]]
                    &&& is_task_for(w.queue[v.queue.len() + k], ids[k], job_id, d, n + k)
                } by {
                    assert(d.nodes[n + k] == kids[k]);
                    assert(w.queue[v.queue.len() + k] == tasks[k]);
                    assert(c.nodes[node_id as int].assertions.push(branches[k])
                        =~= c.nodes[node_id as int].assertions + seq![branches[k]]);
                    scripts_ask_for_their_cube(c.base, kids[k].assertions);
                }
            },
        }
    }
}

/// A task for a node of a job, with the script that asks for its cube.
pub open spec fn is_task_for(
    t: TaskView,
    id: TaskId,
    job_id: JobId,
    c: CubeView,
    node: int,
) -> bool {
    &&& t.id == id
    &&& t.kind matches TaskKindView::Cube { job_id: j, node_id, script, .. } && j == job_id
        && node_id == node && asks_for(script, c.base, c.nodes[node].assertions)
}

/// Submitting a job: the base is the script without its question, the root is
/// open and undecided, and one task asks for the whole problem.
pub proof fn submissions_start_at_the_root(
    v: CoordView,
    job_id: JobId,
    task_id: TaskId,
    script: Text,
    max_conflicts: u64,
)
    ensures
        ({
            let w = state::cube_submitted(v, job_id, task_id, script, max_conflicts);
            let c = w.cubes[job_id];
            &&& w.cubes.contains_key(job_id)
            &&& c.base == state::stripped(script)
            &&& c.nodes.len() == 1
            &&& c.nodes[0].assertions.len() == 0
            &&& c.nodes[0].parent is None
            &&& c.nodes[0].status == CubeNodeStatus::Open
            &&& c.verdict is None
            &&& c.status == JobStatus::Running
            &&& w.queue.len() == v.queue.len() + 1
            &&& v.queue.is_prefix_of(w.queue)
            &&& is_task_for(w.queue.last(), task_id, job_id, c, 0)
            &&& w.flights == v.flights && w.batches == v.batches && w.ttl == v.ttl
            &&& forall|other: JobId|
                other != job_id && v.cubes.contains_key(other) ==> w.cubes.contains_key(other)
                    && #[trigger] w.cubes[other] == v.cubes[other]
        }),
{
    let w = state::cube_submitted(v, job_id, task_id, script, max_conflicts);
    scripts_ask_for_their_cube(w.cubes[job_id].base, w.cubes[job_id].nodes[0].assertions);
    assert(w.queue.take(v.queue.len() as int) =~= v.queue);
}

/// Nodes of tasks that were queued again are open.
proof fn reopened_are_open(cubes: Map<JobId, CubeView>, tasks: Seq<TaskView>, n: int, k: int)
    requires
        0 <= k < n <= tasks.len(),
        tasks[k].kind is Cube,
        cubes.contains_key(tasks[k].kind->Cube_job_id),
        tasks[k].kind->Cube_node_id < cubes[tasks[k].kind->Cube_job_id].nodes.len(),
        forall|id: JobId| #[trigger] cubes.contains_key(id) ==> tree_ok(cubes[id]),
        forall|id: JobId| #[trigger] cubes.contains_key(id) ==> job::cube_ok(cubes[id]),
    ensures
        ({
            let after = state::reopened(cubes, tasks, n);
            let node = after[tasks[k].kind->Cube_job_id].nodes[tasks[k].kind->Cube_node_id as int];
            &&& after.contains_key(tasks[k].kind->Cube_job_id)
            &&& node.status == CubeNodeStatus::Open
            &&& node.task_id is None
        }),
    decreases n,
{
    reopened_keeps_trees(cubes, tasks, n - 1);
    let job_id = tasks[k].kind->Cube_job_id;
    let mid = state::reopened(cubes, tasks, n - 1);
    assert(job_grows(cubes[job_id], mid[job_id]));
    if k < n - 1 {
        reopened_are_open(cubes, tasks, n - 1, k);
    }
}

/// What is known of a node follows its task: handing out the task assigns the
/// node to it, and reaping the expired lease opens the node again.
pub proof fn nodes_follow_their_tasks(
    v: CoordView,
    worker_id: u32,
    now: u64,
    later: u64,
    ids: Seq<TaskId>,
)
    requires
        state::coord_ok(v),
        plan_ok(v),
        v.queue.len() > 0,
        v.queue[0].kind is Cube,
        now + v.ttl <= later,
        state::picks_expired(state::popped(v, worker_id, now).flights, ids, later),
    ensures
        ({
            let task = v.queue[0];
            let job_id = task.kind->Cube_job_id;
            let at = task.kind->Cube_node_id as int;
            let out = state::popped(v, worker_id, now);
            let after = state::expired_reaped(out, ids);
            &&& v.cubes.contains_key(job_id)
            &&& 0 <= at < v.cubes[job_id].nodes.len()
            &&& out.cubes[job_id].nodes[at].status == CubeNodeStatus::Assigned
            &&& out.cubes[job_id].nodes[at].task_id == Some(task.id)
            &&& out.cubes[job_id].nodes[at].assertions == v.cubes[job_id].nodes[at].assertions
            &&& after.cubes[job_id].nodes[at].status == CubeNodeStatus::Open
            &&& after.cubes[job_id].nodes[at].task_id is None
        }),
{
    let task = v.queue[0];
    assert(task_fits(v, task));
    let out = state::popped(v, worker_id, now);
    popping_keeps_plan(v, worker_id, now);
    assert(out.flights[task.id].deadline <= later);
    assert(out.flights.contains_key(task.id));
    assert(ids.contains(task.id));
    let k = choose|k: int| 0 <= k < ids.len() && ids[k] == task.id;
    let tasks = state::tasks_of(out.flights, ids);
    assert(tasks[k] == task);
    assert forall|id: JobId| #[trigger] out.cubes.contains_key(id) implies job::cube_ok(
        out.cubes[id],
    ) by {
        assert(v.cubes.contains_key(id));
        assert(job::cube_ok(v.cubes[id]));
    }
    reopened_are_open(out.cubes, tasks, ids.len() as int, k);
}

/// A result that is taken ends its task and touches no job but the task's own;
/// it is reported as final exactly if the job is complete.
pub proof fn results_end_their_task(
    v: CoordView,
    task_id: TaskId,
    result: ResultView,
    split: Option<Seq<Text>>,
    more: Seq<TaskId>,
    other: JobId,
)
    requires
        v.flights.contains_key(task_id),
        other != (match v.flights[task_id].task.kind {
            TaskKindView::Batch { job_id, .. } => job_id,
            TaskKindView::Cube { job_id, .. } => job_id,
        }),
    ensures
        ({
            let (after, done, count) = state::result_taken(v, task_id, result, split, more);
            &&& !after.flights.contains_key(task_id)
            &&& forall|id: TaskId|
                id != task_id && v.flights.contains_key(id) ==> after.flights.contains_key(id)
                    && #[trigger] after.flights[id] == v.flights[id]
            &&& v.cubes.contains_key(other) ==> after.cubes.contains_key(other)
                && after.cubes[other] == v.cubes[other]
            &&& v.batches.contains_key(other) ==> after.batches.contains_key(other)
                && after.batches[other] == v.batches[other]
            &&& v.flights[task_id].task.kind matches TaskKindView::Cube { job_id, .. }
                ==> after.batches == v.batches && (done <==> after.cubes.contains_key(job_id)
                && after.cubes[job_id].status == JobStatus::Complete)
            &&& v.flights[task_id].task.kind is Batch ==> after.cubes == v.cubes && count == 0
        }),
{
}

// ---------------------------------------------------------------------------
// Leases
// ---------------------------------------------------------------------------

/// A task that is handed out at some time stays with its worker until the time
/// to live is over: reaping before that leaves it there, and reaping from then
/// on queues it again.
pub proof fn leases_run_their_time(
    v: CoordView,
    worker_id: u32,
    now: u64,
    later: u64,
    ids: Seq<TaskId>,
)
    requires
        v.queue.len() > 0,
        now + v.ttl <= u64::MAX,
        state::picks_expired(state::popped(v, worker_id, now).flights, ids, later),
    ensures
        ({
            let task = v.queue[0];
            let out = state::popped(v, worker_id, now);
            let after = state::expired_reaped(out, ids);
            &&& out.queue == v.queue.drop_first()
            &&& state::task_error(out, task.id, worker_id) is None
            &&& forall|other: u32|
                other != worker_id ==> #[trigger] state::task_error(out, task.id, other) is Some
            &&& later < now + v.ttl ==> {
                &&& after.flights.contains_key(task.id)
                &&& after.flights[task.id].task == task
                &&& state::task_error(after, task.id, worker_id) is None
            }
            &&& later >= now + v.ttl ==> {
                &&& !after.flights.contains_key(task.id)
                &&& after.queue.contains(task)
                &&& state::task_error(after, task.id, worker_id) is Some
            }
        }),
{
    let task = v.queue[0];
    let out = state::popped(v, worker_id, now);
    let after = state::expired_reaped(out, ids);
    assert(v.queue.skip(1) =~= v.queue.drop_first());
    lease_until(out, task.id, now + v.ttl, later, ids);
}

/// A task in flight until a deadline: reaping before it leaves it in flight,
/// reaping from then on queues it again.
proof fn lease_until(v: CoordView, id: TaskId, deadline: int, later: u64, ids: Seq<TaskId>)
    requires
        v.flights.contains_key(id),
        v.flights[id].deadline == deadline,
        state::picks_expired(v.flights, ids, later),
    ensures
        ({
            let after = state::expired_reaped(v, ids);
            &&& later < deadline ==> after.flights.contains_key(id) && after.flights[id]
                == v.flights[id]
            &&& later >= deadline ==> !after.flights.contains_key(id) && after.queue.contains(
                v.flights[id].task,
            )
        }),
{
    let after = state::expired_reaped(v, ids);
    assert(ids.contains(id) <==> v.flights[id].deadline <= later);
    if later >= deadline {
        let k = choose|k: int| 0 <= k < ids.len() && ids[k] == id;
        assert(after.queue[v.queue.len() + k] == v.flights[id].task);
        assert(ids.to_set().contains(id));
    } else {
        assert(!ids.to_set().contains(id));
    }
}

/// Renewing a lease gives it its whole time again, from the moment of renewal.
pub proof fn renewals_start_the_time_again(
    v: CoordView,
    task_id: TaskId,
    now: u64,
    later: u64,
    ids: Seq<TaskId>,
)
    requires
        v.flights.contains_key(task_id),
        now + v.ttl <= u64::MAX,
        state::picks_expired(state::renewed(v, task_id, now).flights, ids, later),
    ensures
        ({
            let out = state::renewed(v, task_id, now);
            let after = state::expired_reaped(out, ids);
            &&& out.queue == v.queue
            &&& out.flights[task_id].worker_id == v.flights[task_id].worker_id
            &&& out.flights[task_id].task == v.flights[task_id].task
            &&& forall|id: TaskId|
                id != task_id && v.flights.contains_key(id) ==> out.flights.contains_key(id)
                    && #[trigger] out.flights[id] == v.flights[id]
            &&& later < now + v.ttl ==> after.flights.contains_key(task_id)
            &&& later >= now + v.ttl ==> !after.flights.contains_key(task_id)
                && after.queue.contains(v.flights[task_id].task)
        }),
{
    let out = state::renewed(v, task_id, now);
    lease_until(out, task_id, now + v.ttl, later, ids);
}

/// A worker that gave a sign of life at some time is taken for dead exactly
/// when more than the timeout has passed since; then it is forgotten and its
/// tasks are queued again, and those of other workers stay with them.
pub proof fn silent_workers_lose_their_tasks(
    v: CoordView,
    worker_id: u32,
    seen: u64,
    timeout: u64,
    later: u64,
    dead: Seq<u32>,
    ids: Seq<TaskId>,
    id: TaskId,
)
    requires
        v.flights.contains_key(id),
        state::picks_silent(state::touched(v, worker_id, seen).workers, dead, timeout, later),
        state::picks_held(state::touched(v, worker_id, seen).flights, ids, dead),
    ensures
        ({
            let after = state::dead_reaped(state::touched(v, worker_id, seen), dead, ids);
            &&& after.workers.contains_key(worker_id) <==> later <= seen + timeout
            &&& v.flights[id].worker_id == worker_id ==> {
                &&& later <= seen + timeout ==> after.flights.contains_key(id)
                    && after.flights[id] == v.flights[id]
                &&& later > seen + timeout ==> !after.flights.contains_key(id)
                    && after.queue.contains(v.flights[id].task)
            }
            &&& !v.workers.contains_key(v.flights[id].worker_id) && v.flights[id].worker_id
                != worker_id ==> after.flights.contains_key(id)
        }),
{
    let out = state::touched(v, worker_id, seen);
    let after = state::dead_reaped(out, dead, ids);
    assert(dead.contains(worker_id) <==> later > seen + timeout) by {
        assert(out.workers.contains_key(worker_id));
        assert(dead.contains(worker_id) <==> state::silent(
            out.workers[worker_id],
            timeout,
            later,
        ));
    }
    assert(dead.to_set().contains(worker_id) <==> dead.contains(worker_id));
    let w = v.flights[id].worker_id;
    assert(ids.contains(id) <==> dead.contains(w)) by {
        assert(out.flights.contains_key(id));
    }
    assert(ids.to_set().contains(id) <==> ids.contains(id));
    if ids.contains(id) {
        let k = choose|k: int| 0 <= k < ids.len() && ids[k] == id;
        assert(after.queue[v.queue.len() + k] == v.flights[id].task);
    }
    if !v.workers.contains_key(w) && w != worker_id {
        assert(!dead.contains(w));
    }
}

// ---------------------------------------------------------------------------
// Batches
// ---------------------------------------------------------------------------

/// The script of a task.
pub open spec fn script_in(t: TaskView) -> Text {
    match t.kind {
        TaskKindView::Batch { script, .. } => script,
        TaskKindView::Cube { script, .. } => script,
    }
}

/// The results of a batch land at the places of their scripts: task `i` of a
/// batch carries script `i`, and the first result that is reported for it is
/// the result at place `i`, whatever else is in flight.
pub proof fn results_land_in_place(
    v: CoordView,
    job_id: JobId,
    ids: Seq<TaskId>,
    scripts: Seq<Text>,
    max_conflicts: u64,
    i: int,
    u: CoordView,
    task_id: TaskId,
    result: ResultView,
    split: Option<Seq<Text>>,
    more: Seq<TaskId>,
)
    requires
        ids.len() == scripts.len() <= usize::MAX,
        0 <= i < scripts.len(),
        u.flights.contains_key(task_id),
        u.flights[task_id].task == state::batch_submitted(
            v,
            job_id,
            ids,
            scripts,
            max_conflicts,
        ).queue[v.queue.len() + i],
        u.batches.contains_key(job_id),
        job::batch_ok(u.batches[job_id]),
        u.batches[job_id].results.len() == scripts.len(),
    ensures
        ({
            let w = state::batch_submitted(v, job_id, ids, scripts, max_conflicts);
            let (after, done, count) = state::result_taken(u, task_id, result, split, more);
            let old_results = u.batches[job_id].results;
            let results = after.batches[job_id].results;
            &&& w.queue.len() == v.queue.len() + scripts.len()
            &&& v.queue.is_prefix_of(w.queue)
            &&& script_in(w.queue[v.queue.len() + i]) == scripts[i]
            &&& w.batches[job_id].results.len() == scripts.len()
            &&& forall|k: int|
                0 <= k < scripts.len() ==> #[trigger] w.batches[job_id].results[k] is None
            &&& !after.flights.contains_key(task_id)
            &&& after.queue == u.queue && count == 0
            &&& results.len() == scripts.len()
            &&& results[i] == Some(
                match old_results[i] {
                    Some(r) => r,
                    None => result,
                },
            )
            &&& forall|k: int| 0 <= k < scripts.len() && k != i ==> #[trigger] results[k]
                == old_results[k]
            &&& done <==> forall|k: int| 0 <= k < scripts.len() ==> #[trigger] results[k] is Some
        }),
{
    let w = state::batch_submitted(v, job_id, ids, scripts, max_conflicts);
    let tasks = state::batch_tasks(job_id, ids, scripts, max_conflicts);
    assert(w.queue[v.queue.len() + i] == tasks[i]);
    assert(w.queue.take(v.queue.len() as int) =~= v.queue);
    let b = u.batches[job_id];
    job::recording_keeps_order(b, i, result);
    let after = job::recorded(b, i, result);
    job::batch_complete_iff_all_in(after);
}

// ---------------------------------------------------------------------------
// Answers
// ---------------------------------------------------------------------------

/// A worker is sent the script and the budget of its task.
pub proof fn workers_get_their_script(t: TaskView)
    ensures
        reply::script_of(t) == script_in(t),
        reply::conflicts_of(t) == (match t.kind {
            TaskKindView::Batch { max_conflicts, .. } => max_conflicts,
            TaskKindView::Cube { max_conflicts, .. } => max_conflicts,
        }),
{
}

/// Names tell statuses and verdicts apart.
pub proof fn names_tell_apart(a: JobStatus, b: JobStatus, x: Verdict, y: Verdict)
    ensures
        job::status_text(a) == job::status_text(b) ==> a == b,
        job::verdict_text(x) == job::verdict_text(y) ==> x == y,
        job::verdict_text(Verdict::Sat) == "sat"@,
        job::verdict_text(Verdict::Unsat) == "unsat"@,
        job::status_text(JobStatus::Complete) == "complete"@,
{
    reveal_strlit("pending");
    reveal_strlit("running");
    reveal_strlit("complete");
    reveal_strlit("sat");
    reveal_strlit("unsat");
    reveal_strlit("unknown");
    assert("pending"@[0] == 'p' && "running"@[0] == 'r' && "complete"@[0] == 'c');
    assert("sat"@.len() == 3 && "unsat"@.len() == 5 && "unknown"@.len() == 7);
}

/// The open nodes that are listed are all the open ones, in order, each once.
pub proof fn open_nodes_are_listed(c: CubeView)
    requires
        job::cube_ok(c),
        c.nodes.len() <= u64::MAX,
    ensures
        ({
            let ids = job::open_ids(c.nodes);
            &&& forall|i: int|
                0 <= i < c.nodes.len() ==> ((#[trigger] c.nodes[i]).status == CubeNodeStatus::Open
                    <==> ids.contains(i as u64))
            &&& forall|a: int, b: int|
                0 <= a < b < ids.len() ==> #[trigger] ids[a] < #[trigger] ids[b]
            &&& forall|a: int| 0 <= a < ids.len() ==> #[trigger] ids[a] < c.nodes.len()
        }),
{
    open_until(c.nodes, c.nodes.len() as int);
    assert(c.nodes.take(c.nodes.len() as int) =~= c.nodes);
}

proof fn open_until(nodes: Seq<CubeNodeView>, n: int)
    requires
        0 <= n <= nodes.len() <= u64::MAX,
        forall|i: int| 0 <= i < nodes.len() ==> (#[trigger] nodes[i]).id == i,
    ensures
        ({
            let ids = job::open_ids(nodes.take(n));
            &&& forall|i: int|
                0 <= i < n ==> ((#[trigger] nodes[i]).status == CubeNodeStatus::Open
                    <==> ids.contains(i as u64))
            &&& forall|a: int, b: int|
                0 <= a < b < ids.len() ==> #[trigger] ids[a] < #[trigger] ids[b]
            &&& forall|a: int| 0 <= a < ids.len() ==> #[trigger] ids[a] < n
        }),
    decreases n,
{
    if n > 0 {
        open_until(nodes, n - 1);
        let before = job::open_ids(nodes.take(n - 1));
        let ids = job::open_ids(nodes.take(n));
        assert(nodes.take(n).drop_last() =~= nodes.take(n - 1));
        assert(nodes.take(n).last() == nodes[n - 1]);
        assert(nodes[n - 1].id == n - 1);
        assert forall|i: int| 0 <= i < n implies ((#[trigger] nodes[i]).status
            == CubeNodeStatus::Open <==> ids.contains(i as u64)) by {
            if before.contains(i as u64) {
                let k = choose|k: int| 0 <= k < before.len() && before[k] == i as u64;
                assert(ids[k] == i as u64);
            }
            if ids.contains(i as u64) {
                let k = choose|k: int| 0 <= k < ids.len() && ids[k] == i as u64;
                if k < before.len() {
                    assert(before[k] == i as u64);
                }
            }
            if i == n - 1 && nodes[i].status == CubeNodeStatus::Open {
                assert(ids[ids.len() - 1] == i as u64);
            }
        }
    }
}

/// A job has a satisfied node once a worker has reported one.
pub proof fn satisfied_jobs(
    v: CoordView,
    job_id: JobId,
    node_id: u64,
    max_conflicts: u64,
    code: u32,
    split: Option<Seq<Text>>,
    ids: Seq<TaskId>,
)
    requires
        v.cubes.contains_key(job_id),
        node_id < v.cubes[job_id].nodes.len(),
        !job::some_satisfied(v.cubes[job_id].nodes),
    ensures
        job::some_satisfied(
            state::cube_result(v, job_id, node_id, max_conflicts, code, split, ids)
                .0.cubes[job_id].nodes,
        ) <==> code == 0,
{
    let c = v.cubes[job_id];
    let d = state::cube_result(v, job_id, node_id, max_conflicts, code, split, ids)
        .0.cubes[job_id];
    if code == 0 {
        assert(d.nodes[node_id as int].status == CubeNodeStatus::ClosedSat);
    } else {
        assert forall|i: int| 0 <= i < d.nodes.len() implies (#[trigger] d.nodes[i]).status
            != CubeNodeStatus::ClosedSat by {
            if i < c.nodes.len() {
                assert(c.nodes[i].status != CubeNodeStatus::ClosedSat);
            } else {
                assert(d.nodes[i] == state::branch_nodes(c, node_id, split->0)[i - c.nodes.len()]);
            }
        }
    }
}

} // verus!
