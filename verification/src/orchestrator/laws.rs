//! What the orchestrator promises of workers, leases and failover, over several
//! calls.

use vstd::prelude::*;

#[allow(unused_imports)]
use crate::akx::work::WorkBudget;
#[allow(unused_imports)]
use crate::orchestrator::primary;
#[allow(unused_imports)]
use crate::orchestrator::primary::OrchestratorError;
#[allow(unused_imports)]
use crate::orchestrator::primary::{OrchView, WorkerRecord};
#[allow(unused_imports)]
use crate::orchestrator::wal;
#[allow(unused_imports)]
use crate::orchestrator::wal::WalOutcome;
#[allow(unused_imports)]
use crate::scheduler::dispatch;
#[allow(unused_imports)]
use crate::scheduler::dispatch::{NodeResult, SchedView, Verdict};
#[allow(unused_imports)]
use crate::scheduler::error::SchedulerError;
#[allow(unused_imports)]
use crate::scheduler::laws;
#[allow(unused_imports)]
use crate::scheduler::lease;
#[allow(unused_imports)]
use crate::scheduler::lease::LeaseView;
#[allow(unused_imports)]
use crate::scheduler::tree;
#[allow(unused_imports)]
use crate::scheduler::tree::{NodeStatus, NodeView};

verus! {

/// Declaring workers dead takes exactly their leases.
proof fn buried_leases(v: OrchView, dead: Seq<u32>, n: int, id: u64)
    requires
        primary::orch_ok(v),
        0 <= n <= dead.len(),
        forall|k: int| 0 <= k < dead.len() ==> v.workers.contains_key(#[trigger] dead[k]),
        lease::held(v.sched.leases, id),
    ensures
        ({
            let after = primary::all_buried(v, dead, n);
            let l = lease::lease_at(v.sched.leases, id);
            &&& primary::orch_ok(after)
            &&& after.sched.tree.nodes.len() == v.sched.tree.nodes.len()
            &&& !dead.take(n).contains(l.worker_id) ==> lease::held(after.sched.leases, id)
                && lease::lease_at(after.sched.leases, id) == l
            &&& dead.take(n).contains(l.worker_id) ==> !lease::held(after.sched.leases, id)
        }),
    decreases n,
{
    if n > 0 {
        let m = n - 1;
        buried_leases(v, dead, m, id);
        primary::buried_workers(v, dead, m);
        let before = primary::all_buried(v, dead, m);
        let after = primary::all_buried(v, dead, n);
        let d = dead[m];
        let l = lease::lease_at(v.sched.leases, id);
        assert(before.workers.dom().contains(d));
        primary::buried_keeps_order(before, d);
        assert(dead.take(n) =~= dead.take(m).push(d));
        assert(dead.take(n).contains(l.worker_id) <==> dead.take(m).contains(l.worker_id)
            || l.worker_id == d) by {
            let t = dead.take(m);
            if t.contains(l.worker_id) {
                let q = choose|q: int| 0 <= q < t.len() && t[q] == l.worker_id;
                assert(dead.take(n)[q] == l.worker_id);
            }
            assert(dead.take(n)[m] == d);
            if dead.take(n).contains(l.worker_id) && l.worker_id != d {
                let all = dead.take(n);
                let q = choose|q: int| 0 <= q < all.len() && all[q] == l.worker_id;
                assert(t[q] == l.worker_id);
            }
        }
        let ids = dispatch::worker_leases(before.sched, d);
        let p = |x: LeaseView| x.worker_id == d;
        lease::lease_ids_facts(before.sched.leases, p);
        dispatch::reaped_keeps_order(before.sched, ids, ids.len() as int);
        assert(ids.take(ids.len() as int) =~= ids);
        if lease::held(before.sched.leases, id) {
            laws::reaping_a_worker(before.sched, id, d);
        } else {
            assert(!ids.contains(id)) by {
                if ids.contains(id) {
                    let a = choose|a: int| 0 <= a < ids.len() && ids[a] == id;
                    assert(lease::held(before.sched.leases, ids[a]));
                }
            }
            assert(lease::held(after.sched.leases, id) == lease::held(before.sched.leases, id));
        }
    } else {
        assert(dead.take(0) =~= Seq::<u32>::empty());
    }
}

/// What a check of heartbeats does to a worker that was heard at some time and
/// is alive: once the worker has been silent for longer than the timeout it is
/// dead, has no leases and gets no work; until then it keeps its leases.
proof fn heard_until(v: OrchView, worker: u32, seen: u64, now: u64, dead: Seq<u32>, id: u64)
    requires
        primary::orch_ok(v),
        v.workers.contains_key(worker),
        !v.workers[worker].dead,
        v.workers[worker].last_heartbeat == seen,
        primary::stale_workers(v, now, dead),
    ensures
        ({
            let after = primary::all_buried(v, dead, dead.len() as int);
            &&& after.workers.contains_key(worker)
            &&& after.workers[worker].dead <==> now > seen + v.config.heartbeat_timeout
            &&& lease::held(v.sched.leases, id) && lease::lease_at(
                v.sched.leases,
                id,
            ).worker_id == worker ==> if now > seen + v.config.heartbeat_timeout {
                !lease::held(after.sched.leases, id)
            } else {
                lease::owned(after.sched.leases, id, worker)
            }
            &&& now > seen + v.config.heartbeat_timeout ==> !primary::can_dispatch(after, worker)
        }),
{
    assert forall|k: int| 0 <= k < dead.len() implies v.workers.contains_key(
        #[trigger] dead[k],
    ) by {
        assert(dead.contains(dead[k]));
    }
    primary::buried_workers(v, dead, dead.len() as int);
    assert(dead.take(dead.len() as int) =~= dead);
    assert(dead.contains(worker) <==> now > seen + v.config.heartbeat_timeout);
    let after = primary::all_buried(v, dead, dead.len() as int);
    assert(after.workers.dom().contains(worker));
    if lease::held(v.sched.leases, id) {
        buried_leases(v, dead, dead.len() as int, id);
    }
}

/// A worker that is admitted at some time is alive until it has been silent for
/// longer than the timeout, and dead after that.
pub proof fn admitted_workers_live(
    v: OrchView,
    worker: u32,
    seen: u64,
    now: u64,
    dead: Seq<u32>,
    id: u64,
)
    requires
        primary::orch_ok(v),
        primary::stale_workers(primary::admitted(v, worker, seen), now, dead),
        lease::held(v.sched.leases, id),
    ensures
        ({
            let u = primary::admitted(v, worker, seen);
            let after = primary::all_buried(u, dead, dead.len() as int);
            &&& u.sched == v.sched
            &&& !u.workers[worker].dead
            &&& forall|w: u32|
                w != worker ==> #[trigger] u.workers.contains_key(w) == v.workers.contains_key(w)
                    && (v.workers.contains_key(w) ==> u.workers[w] == v.workers[w])
            &&& after.workers.contains_key(worker)
            &&& after.workers[worker].dead <==> now > seen + v.config.heartbeat_timeout
            &&& lease::lease_at(v.sched.leases, id).worker_id == worker ==> (lease::held(
                after.sched.leases,
                id,
            ) <==> now <= seen + v.config.heartbeat_timeout)
        }),
{
    let u = primary::admitted(v, worker, seen);
    heard_until(u, worker, seen, now, dead, id);
}

/// A heartbeat of a living worker renews it and all its leases: they run for
/// the whole time to live again, and the worker is alive until it has been
/// silent for longer than the timeout. Other workers' leases stay as they are.
pub proof fn heartbeats_renew(
    v: OrchView,
    worker: u32,
    seen: u64,
    now: u64,
    dead: Seq<u32>,
    i: int,
)
    requires
        primary::orch_ok(v),
        seen <= primary::CLOCK_MAX,
        v.workers.contains_key(worker),
        !v.workers[worker].dead,
        primary::stale_workers(primary::heard(v, worker, seen), now, dead),
        0 <= i < v.sched.leases.leases.len(),
    ensures
        ({
            let u = primary::heard(v, worker, seen);
            let l = v.sched.leases.leases[i];
            let m = u.sched.leases.leases[i];
            let after = primary::all_buried(u, dead, dead.len() as int);
            &&& u.sched.tree == v.sched.tree
            &&& u.sched.leases.leases.len() == v.sched.leases.leases.len()
            &&& m.lease_id == l.lease_id && m.node_id == l.node_id && m.worker_id == l.worker_id
                && m.unit == l.unit
            &&& m.expires_at == (if l.worker_id == worker {
                seen + v.config.lease_ttl
            } else {
                l.expires_at as int
            })
            &&& after.workers[worker].dead <==> now > seen + v.config.heartbeat_timeout
            &&& l.worker_id == worker ==> (lease::held(after.sched.leases, l.lease_id) <==> now
                <= seen + v.config.heartbeat_timeout)
        }),
{
    let u = primary::heard(v, worker, seen);
    let a = v.sched.leases;
    let b = u.sched.leases;
    let l = a.leases[i];
    assert(v.config.lease_ttl <= primary::CLOCK_MAX);
    assert forall|k: int| 0 <= k < a.leases.len() implies {
        &&& (#[trigger] b.leases[k]).lease_id == a.leases[k].lease_id
        &&& b.leases[k].node_id == a.leases[k].node_id
        &&& b.leases[k].worker_id == a.leases[k].worker_id
        &&& b.leases[k].unit == a.leases[k].unit
    } by {}
    assert(lease::leases_ok(b)) by {
        assert forall|x: int, y: int| 0 <= x < y < b.leases.len() implies (
        #[trigger] b.leases[x]).lease_id < (#[trigger] b.leases[y]).lease_id by {
            assert(a.leases[x].lease_id < a.leases[y].lease_id);
        }
    }
    assert(dispatch::leases_fit(u.sched.tree, b)) by {
        assert forall|x: int, y: int| 0 <= x < y < b.leases.len() implies (
        #[trigger] b.leases[x]).node_id != (#[trigger] b.leases[y]).node_id by {
            assert(a.leases[x].node_id != a.leases[y].node_id);
        }
    }
    assert forall|id: u64| #[trigger] u.sched.abandoned.contains(id) implies id < b.next_id
        && !lease::held(b, id) by {
        assert(v.sched.abandoned.contains(id));
        if lease::held(b, id) {
            let k = lease::place_of(b, id);
            assert(a.leases[k].lease_id == id);
            assert(lease::held(a, id));
        }
    }
    assert(primary::orch_ok(u));
    lease::lease_at_is(b, i);
    heard_until(u, worker, seen, now, dead, l.lease_id);
}

/// A heartbeat of a worker that is dead or not known changes nothing but the
/// log.
pub proof fn dead_workers_are_not_heard(v: OrchView, worker: u32, seen: u64)
    requires
        !v.workers.contains_key(worker) || v.workers[worker].dead,
    ensures
        primary::heard(v, worker, seen).sched == v.sched,
        primary::heard(v, worker, seen).workers == v.workers,
        primary::heard(v, worker, seen).wal.len() == v.wal.len() + 1,
        primary::heard(v, worker, seen).wal.drop_last() == v.wal,
{
    assert(primary::heard(v, worker, seen).wal.drop_last() =~= v.wal);
}

/// Only a living worker gets work; what it gets is the first open node, with
/// the node's cube, for the time to live.
pub proof fn living_workers_get_work(v: OrchView, worker: u32, budget: WorkBudget, now: u64)
    requires
        primary::orch_ok(v),
        primary::can_dispatch(v, worker),
        v.sched.tree.nodes.len() <= u64::MAX,
        v.sched.leases.next_id < u64::MAX,
        now <= primary::CLOCK_MAX,
    ensures
        ({
            let u = primary::assigned(v, worker, budget, now);
            let l = u.sched.leases.leases.last();
            let at = l.node_id.0 as int;
            &&& v.workers.contains_key(worker) && !v.workers[worker].dead
            &&& u.workers == v.workers
            &&& u.sched.leases.leases == v.sched.leases.leases.push(l)
            &&& l.worker_id == worker
            &&& l.expires_at == now + v.config.lease_ttl
            &&& l.unit.assumptions == v.sched.tree.nodes[at].cube
            &&& l.unit.budget == budget
            &&& v.sched.tree.nodes[at].status == NodeStatus::Open
            &&& u.sched.tree.nodes[at].status == NodeStatus::Assigned
            &&& forall|i: int|
                0 <= i < at ==> (#[trigger] v.sched.tree.nodes[i]).status != NodeStatus::Open
        }),
{
    laws::leases_run_their_time(v.sched, worker, budget, now, now);
}

/// What a worker's result does, but for a shutdown that others asked for: it
/// decides as the scheduler does, and no worker's record changes. On such a
/// shutdown all leases are given back and nothing is decided.
pub proof fn results_settle(
    v: OrchView,
    lease_id: u64,
    worker: u32,
    result: NodeResult,
    tripped: bool,
)
    requires
        primary::orch_ok(v),
        lease::held(v.sched.leases, lease_id),
        v.sched.stopped ==> tripped,
    ensures
        ({
            let at = lease::lease_at(v.sched.leases, lease_id).node_id.0 as int;
            let (u, verdict) = primary::settled(v, lease_id, worker, result, tripped);
            &&& u.workers == v.workers && u.config == v.config
            &&& !lease::held(u.sched.leases, lease_id)
            &&& u.sched.tree.nodes.len() == v.sched.tree.nodes.len()
            &&& forall|i: int|
                0 <= i < v.sched.tree.nodes.len() && i != at ==> #[trigger] u.sched.tree.nodes[i]
                    == v.sched.tree.nodes[i]
            &&& result is Sat ==> verdict == Verdict::Sat && u.sched.tree.nodes[at].status
                == NodeStatus::ClosedSat
            &&& result is Unsat ==> u.sched.tree.nodes[at].status == NodeStatus::ClosedUnsat
                && verdict != Verdict::Sat && (verdict == Verdict::Unsat <==> forall|i: int|
                0 <= i < u.sched.tree.nodes.len() && (
                #[trigger] u.sched.tree.nodes[i]).children.len() == 0
                    ==> u.sched.tree.nodes[i].status == NodeStatus::ClosedUnsat)
            &&& result is Cancelled ==> verdict == Verdict::Unknown
            &&& result is Cancelled && !tripped ==> u.sched.tree.nodes[at].status
                == NodeStatus::Open
            &&& result is Cancelled && tripped ==> u.sched.tree.nodes[at].status
                == NodeStatus::Assigned && u.sched.stopped
            &&& verdict != Verdict::Unknown ==> u.sched.stopped
                && u.sched.leases.leases.len() == 0
        }),
{
    laws::results_decide(v.sched, lease_id, result, tripped);
    let (u, verdict) = primary::settled(v, lease_id, worker, result, tripped);
    assert(v.sched.leases.leases.len() > 0) by {
        let k = lease::place_of(v.sched.leases, lease_id);
        assert(v.sched.leases.leases[k].lease_id == lease_id);
    }
    if u.sched.leases.leases.len() > 0 && verdict != Verdict::Unknown {
        assert(lease::held(u.sched.leases, u.sched.leases.leases[0].lease_id));
    }
    if primary::shut_down_by_others(v, result, tripped) {
        let k = lease::place_of(v.sched.leases, lease_id);
        assert(v.sched.leases.leases[k].lease_id == lease_id);
    }
}

/// After a failover the leases are those of the primary: the same identifiers,
/// nodes, workers and work, in the same order; and so are the workers, the
/// living and the dead.
pub proof fn failover_keeps_leases(a: OrchView, b: OrchView)
    requires
        primary::shadow(a) == primary::shadow(b),
    ensures
        a.sched.tree == b.sched.tree,
        a.sched.problem == b.sched.problem,
        a.sched.stopped == b.sched.stopped,
        a.sched.leases.next_id == b.sched.leases.next_id,
        a.sched.leases.leases.len() == b.sched.leases.leases.len(),
        forall|i: int|
            0 <= i < a.sched.leases.leases.len() ==> {
                let x = #[trigger] a.sched.leases.leases[i];
                let y = b.sched.leases.leases[i];
                x.lease_id == y.lease_id && x.node_id == y.node_id && x.worker_id == y.worker_id
                    && x.unit == y.unit
            },
        a.workers.dom() == b.workers.dom(),
        forall|w: u32|
            #[trigger] a.workers.contains_key(w) ==> a.workers[w].dead == b.workers[w].dead,
{
    primary::same_shadow_agrees(a, b);
    let ta = wal::timeless_leases(a.sched.leases);
    let tb = wal::timeless_leases(b.sched.leases);
    assert(ta == tb);
    assert forall|i: int| 0 <= i < a.sched.leases.leases.len() implies {
        let x = #[trigger] a.sched.leases.leases[i];
        let y = b.sched.leases.leases[i];
        x.lease_id == y.lease_id && x.node_id == y.node_id && x.worker_id == y.worker_id && x.unit
            == y.unit
    } by {
        assert(ta.leases[i] == wal::timeless_lease(a.sched.leases.leases[i]));
        assert(tb.leases[i] == wal::timeless_lease(b.sched.leases.leases[i]));
    }
}

// ---------------------------------------------------------------------------
// Refusals
// ---------------------------------------------------------------------------

/// Why a worker gets no work: it is not known, it is dead, the problem is
/// decided, or no node is open. A worker that can be given work is not refused.
pub proof fn refusals_have_their_reason(v: OrchView, worker: u32, e: OrchestratorError)
    ensures
        primary::can_dispatch(v, worker) ==> !primary::dispatch_refused(v, worker, e),
        primary::dispatch_refused(v, worker, e) && e is UnknownWorker
            ==> !v.workers.contains_key(worker) && e == OrchestratorError::UnknownWorker(worker),
        primary::dispatch_refused(v, worker, e) && e is DeadWorker ==> v.workers.contains_key(
            worker,
        ) && v.workers[worker].dead && e == OrchestratorError::DeadWorker(worker),
        primary::dispatch_refused(v, worker, e) && e == OrchestratorError::Scheduler(
            SchedulerError::NoWork,
        ) ==> v.workers.contains_key(worker) && !v.workers[worker].dead && dispatch::open_ids(
            v.sched.tree,
        ).len() == 0,
        !v.workers.contains_key(worker) ==> primary::dispatch_refused(
            v,
            worker,
            OrchestratorError::UnknownWorker(worker),
        ),
        v.workers.contains_key(worker) && v.workers[worker].dead ==> primary::dispatch_refused(
            v,
            worker,
            OrchestratorError::DeadWorker(worker),
        ),
{
}

/// Why a result is refused: its lease is not held, or by another worker. A
/// refused result changes nothing.
pub proof fn refused_results(v: OrchView, id: u64, worker: u32, e: OrchestratorError, w: OrchView)
    requires
        primary::result_refused(v, id, worker, e, w),
    ensures
        w == v,
        !lease::owned(v.sched.leases, id, worker),
        !lease::held(v.sched.leases, id) <==> e == OrchestratorError::Scheduler(
            SchedulerError::UnknownLease(id),
        ),
        lease::held(v.sched.leases, id) ==> e == OrchestratorError::Scheduler(
            SchedulerError::LeaseNotOwned(id, worker),
        ),
{
}

/// The clock shows the time that has passed, until it stops; it never goes
/// back.
pub proof fn clocks_run_on(a: u128, b: u128)
    requires
        a <= b,
    ensures
        primary::on_clock(a) <= primary::on_clock(b),
        a <= primary::CLOCK_MAX ==> primary::on_clock(a) == a,
        primary::on_clock(a) <= primary::CLOCK_MAX,
{
}

/// Outcomes go to the log under their own names, and are read back from it as
/// the results that they were.
pub proof fn outcomes_are_logged(r: NodeResult)
    requires
        !(r is Split),
    ensures
        primary::outcome_of(r) is Some,
        r is Sat <==> primary::outcome_of(r) == Some(WalOutcome::Sat),
        r is Unsat <==> primary::outcome_of(r) == Some(WalOutcome::Unsat),
        r is Cancelled <==> primary::outcome_of(r) == Some(WalOutcome::Cancelled),
        wal::result_of(primary::outcome_of(r)->0) == r,
{
}

} // verus!
