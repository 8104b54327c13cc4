//! The scheduler: partition tree, leases and the lifecycle of work units.

use vstd::prelude::*;

use crate::akx::literal::Literal;
use crate::akx::work::{CubePath, Priority, ProblemId, WorkBudget, WorkUnit};
use crate::scheduler::coverage::CoverageCertificate;
use crate::scheduler::error::SchedulerError;
use crate::scheduler::lease::{Lease, LeaseStore};
use crate::scheduler::tree::{NodeId, NodeStatus, PartitionTree};
use crate::shared::share;
use std::sync::atomic::{AtomicBool, Ordering};
use std::sync::Arc;
#[allow(unused_imports)]
use crate::akx::work::UnitView;
#[allow(unused_imports)]
use crate::scheduler::lease;
#[allow(unused_imports)]
use crate::scheduler::lease::{LeaseView, LeasesView};
#[allow(unused_imports)]
use crate::scheduler::tree;
#[allow(unused_imports)]
use crate::scheduler::tree::{NodeView, TreeView};

verus! {

/// Nanoseconds in a second.
pub const SECOND: u64 = 1_000_000_000;

/// A validated result from a worker for a leased node.
#[derive(Clone, Debug)]
pub enum NodeResult {
    /// A complete worker proved the cube unsatisfiable.
    Unsat,
    /// A validated model was found under the cube.
    Sat,
    /// The worker abandoned the unit (cancelled externally).
    Cancelled,
    /// The worker wants to split its node into the given children.
    Split(Vec<Literal>),
}

/// Aggregated scheduling state for telemetry.
#[derive(Clone, Copy, Debug, PartialEq, Eq, Structural)]
pub struct SchedulerStats {
    pub nodes: u64,
    pub open: u64,
    pub assigned: u64,
    pub closed_sat: u64,
    pub closed_unsat: u64,
    pub cancelled: u64,
    pub leases_outstanding: u64,
    pub splits: u64,
}

impl Default for SchedulerStats {
    fn default() -> (s: Self)
        ensures
            s == (SchedulerStats {
                nodes: 0,
                open: 0,
                assigned: 0,
                closed_sat: 0,
                closed_unsat: 0,
                cancelled: 0,
                leases_outstanding: 0,
                splits: 0,
            }),
    {
        SchedulerStats {
            nodes: 0,
            open: 0,
            assigned: 0,
            closed_sat: 0,
            closed_unsat: 0,
            cancelled: 0,
            leases_outstanding: 0,
            splits: 0,
        }
    }
}

/// Work-load verdict.
#[derive(Clone, Copy, Debug, PartialEq, Eq, Structural)]
pub enum Verdict {
    Unknown,
    Sat,
    Unsat,
}

/// The name of a verdict.
pub open spec fn verdict_text(v: Verdict) -> Seq<char> {
    match v {
        Verdict::Unknown => "Unknown"@,
        Verdict::Sat => "Sat"@,
        Verdict::Unsat => "Unsat"@,
    }
}

impl Verdict {
    /// The name of the verdict.
    pub fn name(self) -> (s: &'static str)
        ensures
            s@ == verdict_text(self),
    {
        match self {
            Verdict::Unknown => "Unknown",
            Verdict::Sat => "Sat",
            Verdict::Unsat => "Unsat",
        }
    }
}

/// Coordinates partition-tree, lease, and work-unit lifecycle.
pub struct Scheduler {
    tree: PartitionTree,
    leases: LeaseStore,
    problem: ProblemId,
    /// How long a lease lasts, in nanoseconds.
    lease_ttl: u64,
    /// The scheduler-wide token. Each dispatched work unit has its own.
    shutdown: Arc<AtomicBool>,
    /// Whether this scheduler has tripped the scheduler-wide token.
    stopped: bool,
    splits: u64,
    /// The leases whose work units' tokens this scheduler has tripped.
    abandoned: Ghost<Set<u64>>,
}

/// The state of a scheduler. The tokens themselves are shared with other
/// threads and not part of it: `stopped` tells whether this scheduler has
/// tripped the scheduler-wide one, and `abandoned` lists the leases whose work
/// units' tokens it has tripped.
#[verifier::ext_equal]
pub struct SchedView {
    pub tree: TreeView,
    pub leases: LeasesView,
    pub problem: ProblemId,
    pub ttl: u64,
    pub stopped: bool,
    pub splits: u64,
    pub abandoned: Set<u64>,
}

/// Every lease is on an assigned leaf, and no two are on the same.
pub open spec fn leases_fit(t: TreeView, l: LeasesView) -> bool {
    &&& forall|i: int|
        0 <= i < l.leases.len() ==> tree::known(t, (#[trigger] l.leases[i]).node_id)
            && tree::is_leaf(tree::node_at(t, l.leases[i].node_id)) && tree::node_at(
            t,
            l.leases[i].node_id,
        ).status == NodeStatus::Assigned
    &&& forall|i: int, j: int|
        0 <= i < j < l.leases.len() ==> (#[trigger] l.leases[i]).node_id != (
        #[trigger] l.leases[j]).node_id
}

/// Once the problem is decided no lease is out and the token is tripped.
pub open spec fn idle_when_decided(s: SchedView) -> bool {
    verdict_of(s.tree) != Verdict::Unknown ==> s.leases.leases.len() == 0 && s.stopped
}

/// The leases that are out.
pub open spec fn outstanding(l: LeasesView) -> Set<u64> {
    Set::new(|id: u64| lease::held(l, id))
}

/// A lease whose work unit was abandoned is out no more.
pub open spec fn abandoned_are_gone(s: SchedView) -> bool {
    forall|id: u64| #[trigger]
        s.abandoned.contains(id) ==> id < s.leases.next_id && !lease::held(s.leases, id)
}

/// The state is in order.
pub open spec fn sched_ok(s: SchedView) -> bool {
    &&& tree::tree_ok(s.tree)
    &&& lease::leases_ok(s.leases)
    &&& leases_fit(s.tree, s.leases)
    &&& idle_when_decided(s)
    &&& abandoned_are_gone(s)
    &&& s.splits < s.tree.nodes.len()
}

/// The verdict that a tree amounts to.
pub open spec fn verdict_of(t: TreeView) -> Verdict {
    if tree::sat_closed(t) {
        Verdict::Sat
    } else if tree::unsat_closed(t) {
        Verdict::Unsat
    } else {
        Verdict::Unknown
    }
}

/// The open nodes, oldest first.
pub open spec fn open_ids(t: TreeView) -> Seq<NodeId> {
    tree::ids_where(t.nodes, |n: NodeView| tree::is_open(n))
}

/// The work unit for a node.
pub open spec fn unit_for(s: SchedView, node: NodeId, budget: WorkBudget) -> UnitView {
    UnitView {
        problem: s.problem,
        assumptions: tree::node_at(s.tree, node).cube,
        ancestry: Seq::empty(),
        priority: Priority(Priority::NORMAL),
        budget,
        seed: 0,
    }
}

/// The state after dispatching the oldest open node.
pub open spec fn dispatched(s: SchedView, worker: u32, budget: WorkBudget, now: u64) -> SchedView {
    let node = open_ids(s.tree)[0];
    SchedView {
        tree: tree::with_status(s.tree, node, NodeStatus::Assigned),
        leases: lease::granted(
            s.leases,
            node,
            worker,
            unit_for(s, node, budget),
            (now + s.ttl) as u64,
        ),
        ..s
    }
}

/// The state after all work has been cancelled: the scheduler-wide token and
/// those of all units in flight are tripped, and no lease is out.
pub open spec fn cancelled(s: SchedView) -> SchedView {
    SchedView {
        leases: LeasesView { leases: Seq::empty(), ..s.leases },
        stopped: true,
        abandoned: s.abandoned.union(outstanding(s.leases)),
        ..s
    }
}

/// The state after a lease was given back.
pub open spec fn released(s: SchedView, id: u64) -> SchedView {
    SchedView { leases: lease::without(s.leases, id), ..s }
}

/// The state after a worker's result for a lease, and the verdict reported.
/// `tripped` tells whether the shutdown token was set.
pub open spec fn reported(s: SchedView, id: u64, result: NodeResult, tripped: bool) -> (
    SchedView,
    Verdict,
) {
    let node = lease::lease_at(s.leases, id).node_id;
    let rest = released(s, id);
    match result {
        NodeResult::Sat => {
            let t = tree::with_status(s.tree, node, NodeStatus::ClosedSat);
            (cancelled(SchedView { tree: t, ..rest }), Verdict::Sat)
        },
        NodeResult::Unsat => {
            let t = tree::with_status(s.tree, node, NodeStatus::ClosedUnsat);
            if tree::unsat_closed(t) {
                (cancelled(SchedView { tree: t, ..rest }), Verdict::Unsat)
            } else {
                (SchedView { tree: t, ..rest }, verdict_of(t))
            }
        },
        NodeResult::Cancelled => if tripped {
            (rest, verdict_of(s.tree))
        } else {
            let t = tree::with_status(s.tree, node, NodeStatus::Open);
            (SchedView { tree: t, ..rest }, verdict_of(t))
        },
        NodeResult::Split(_) => (rest, verdict_of(s.tree)),
    }
}

/// What stands in the way of acting on a lease for a worker.
pub open spec fn lease_error(s: SchedView, id: u64, worker: u32) -> Option<SchedulerError> {
    if !lease::held(s.leases, id) {
        Some(SchedulerError::UnknownLease(id))
    } else if lease::lease_at(s.leases, id).worker_id != worker {
        Some(SchedulerError::LeaseNotOwned(id, worker))
    } else {
        None
    }
}

/// The state after a lease was reaped: the token of its work unit is tripped,
/// and its node is open again.
pub open spec fn reaped_one(s: SchedView, id: u64) -> SchedView {
    SchedView {
        tree: tree::with_status(
            s.tree,
            lease::lease_at(s.leases, id).node_id,
            NodeStatus::Open,
        ),
        leases: lease::without(s.leases, id),
        abandoned: s.abandoned.insert(id),
        ..s
    }
}

/// The state after the first `n` of some leases were reaped.
pub open spec fn reaped(s: SchedView, ids: Seq<u64>, n: int) -> SchedView
    decreases n,
{
    if n <= 0 {
        s
    } else {
        reaped_one(reaped(s, ids, n - 1), ids[n - 1])
    }
}

/// The state after a lease was renewed.
pub open spec fn renewed(s: SchedView, id: u64, now: u64) -> SchedView {
    SchedView { leases: lease::renewed(s.leases, id, (now + s.ttl) as u64), ..s }
}

/// The leases that a reaping of expired leases takes.
pub open spec fn expired_leases(s: SchedView, now: u64) -> Seq<u64> {
    lease::lease_ids(s.leases.leases, |l: LeaseView| lease::expired(l, now))
}

/// The leases of a worker.
pub open spec fn worker_leases(s: SchedView, worker: u32) -> Seq<u64> {
    lease::lease_ids(s.leases.leases, |l: LeaseView| l.worker_id == worker)
}

// ---------------------------------------------------------------------------
// Laws
// ---------------------------------------------------------------------------

/// A node that satisfies the condition is among the collected identifiers,
/// and every collected identifier is that of such a node.
pub proof fn ids_where_facts(nodes: Seq<NodeView>, p: spec_fn(NodeView) -> bool)
    requires
        forall|i: int| 0 <= i < nodes.len() ==> (#[trigger] nodes[i]).id == NodeId(i as u64),
        nodes.len() <= u64::MAX,
    ensures
        forall|k: int|
            0 <= k < tree::ids_where(nodes, p).len() ==> (#[trigger] tree::ids_where(
                nodes,
                p,
            )[k]).0 < nodes.len() && p(nodes[tree::ids_where(nodes, p)[k].0 as int]),
        forall|i: int|
            0 <= i < nodes.len() && p(#[trigger] nodes[i]) ==> tree::ids_where(nodes, p).contains(
                nodes[i].id,
            ),
        tree::ids_where(nodes, p).len() <= nodes.len(),
    decreases nodes.len(),
{
    if nodes.len() > 0 {
        let t = nodes.drop_last();
        assert forall|i: int| 0 <= i < t.len() implies (#[trigger] t[i]).id == NodeId(
            i as u64,
        ) by {
            assert(t[i] == nodes[i]);
        }
        ids_where_facts(t, p);
        let before = tree::ids_where(t, p);
        let ids = tree::ids_where(nodes, p);
        let last = nodes.len() - 1;
        assert(nodes[last].id == NodeId(last as u64));
        assert forall|k: int| 0 <= k < ids.len() implies (#[trigger] ids[k]).0 < nodes.len() && p(
            nodes[ids[k].0 as int],
        ) by {
            if k < before.len() {
                assert(ids[k] == before[k]);
                assert(t[before[k].0 as int] == nodes[before[k].0 as int]);
            }
        }
        assert forall|i: int| 0 <= i < nodes.len() && p(#[trigger] nodes[i]) implies ids.contains(
            nodes[i].id,
        ) by {
            if i < last {
                assert(t[i] == nodes[i]);
                let k = choose|k: int| 0 <= k < before.len() && before[k] == t[i].id;
                assert(ids[k] == before[k]);
            } else {
                assert(ids[ids.len() - 1] == nodes[i].id);
            }
        }
    }
}

/// The oldest open node is a node, and open.
pub proof fn next_open(t: TreeView)
    requires
        tree::tree_ok(t),
        t.nodes.len() <= u64::MAX,
        open_ids(t).len() > 0,
    ensures
        tree::known(t, open_ids(t)[0]),
        tree::is_open(tree::node_at(t, open_ids(t)[0])),
{
    assert forall|i: int| 0 <= i < t.nodes.len() implies (#[trigger] t.nodes[i]).id == NodeId(
        i as u64,
    ) by {
        assert(tree::node_ok(t.nodes, i));
    }
    ids_where_facts(t.nodes, |n: NodeView| tree::is_open(n));
}

/// While the problem is undecided and every leaf is open or closed-UNSAT,
/// there is work to dispatch.
pub proof fn undecided_has_work(t: TreeView)
    requires
        tree::tree_ok(t),
        t.nodes.len() <= u64::MAX,
        verdict_of(t) == Verdict::Unknown,
        forall|i: int|
            0 <= i < t.nodes.len() && tree::is_leaf(#[trigger] t.nodes[i]) ==> t.nodes[i].status
                == NodeStatus::Open || t.nodes[i].status == NodeStatus::ClosedUnsat,
    ensures
        open_ids(t).len() > 0,
{
    let i = choose|i: int|
        0 <= i < t.nodes.len() && tree::is_leaf(#[trigger] t.nodes[i]) && t.nodes[i].status
            != NodeStatus::ClosedUnsat;
    let p = |n: NodeView| tree::is_open(n);
    assert forall|k: int| 0 <= k < t.nodes.len() implies (#[trigger] t.nodes[k]).id == NodeId(
        k as u64,
    ) by {
        assert(tree::node_ok(t.nodes, k));
    }
    ids_where_facts(t.nodes, p);
    assert(p(t.nodes[i]));
    assert(open_ids(t).contains(t.nodes[i].id));
}

/// Changing the status of a node under no other lease keeps the leases on
/// assigned leaves.
pub(crate) proof fn fit_after_release(t: TreeView, l: LeasesView, id: u64, status: NodeStatus)
    requires
        tree::tree_ok(t),
        lease::leases_ok(l),
        leases_fit(t, l),
        lease::held(l, id),
    ensures
        leases_fit(t, lease::without(l, id)),
        leases_fit(
            tree::with_status(t, lease::lease_at(l, id).node_id, status),
            lease::without(l, id),
        ),
        tree::known(t, lease::lease_at(l, id).node_id),
        tree::is_leaf(tree::node_at(t, lease::lease_at(l, id).node_id)),
        tree::node_at(t, lease::lease_at(l, id).node_id).status == NodeStatus::Assigned,
{
    let i = lease::place_of(l, id);
    let w = lease::without(l, id);
    let node = lease::lease_at(l, id).node_id;
    assert(l.leases[i].lease_id == id);
    lease::remove_is_filter(l, i);
    assert(w.leases == l.leases.remove(i));
    assert forall|a: int| 0 <= a < w.leases.len() implies {
        &&& tree::known(t, (#[trigger] w.leases[a]).node_id)
        &&& w.leases[a].node_id != node
        &&& tree::is_leaf(tree::node_at(t, w.leases[a].node_id))
        &&& tree::node_at(t, w.leases[a].node_id).status == NodeStatus::Assigned
    } by {
        if a < i {
            assert(w.leases[a] == l.leases[a]);
            assert(l.leases[a].node_id != l.leases[i].node_id);
        } else {
            assert(w.leases[a] == l.leases[a + 1]);
            assert(l.leases[i].node_id != l.leases[a + 1].node_id);
        }
    }
    assert forall|a: int, c: int| 0 <= a < c < w.leases.len() implies (
    #[trigger] w.leases[a]).node_id != (#[trigger] w.leases[c]).node_id by {
        let b = if a < i { a } else { a + 1 };
        let d = if c < i { c } else { c + 1 };
        assert(l.leases[b].node_id != l.leases[d].node_id);
    }
}

/// An undecided problem stays so while a leaf is opened or assigned, and a leaf
/// closed-UNSAT never makes it SAT.
pub(crate) proof fn status_verdict(t: TreeView, id: NodeId, status: NodeStatus)
    requires
        verdict_of(t) == Verdict::Unknown,
        tree::known(t, id),
        tree::is_leaf(tree::node_at(t, id)),
        status != NodeStatus::ClosedSat,
    ensures
        !tree::sat_closed(tree::with_status(t, id, status)),
        status != NodeStatus::ClosedUnsat ==> verdict_of(tree::with_status(t, id, status))
            == Verdict::Unknown,
{
    let u = tree::with_status(t, id, status);
    assert forall|i: int| 0 <= i < u.nodes.len() implies !(tree::is_leaf(#[trigger] u.nodes[i])
        && u.nodes[i].status == NodeStatus::ClosedSat) by {
        assert(tree::is_leaf(t.nodes[i]) == tree::is_leaf(u.nodes[i]));
    }
    assert(tree::is_leaf(u.nodes[id.0 as int]));
}

/// A split leaves an undecided problem undecided.
proof fn split_verdict(t: TreeView, id: NodeId, lits: Seq<Literal>)
    requires
        verdict_of(t) == Verdict::Unknown,
        tree::known(t, id),
        lits.len() > 0,
    ensures
        verdict_of(tree::after_split(t, id, lits)) == Verdict::Unknown,
{
    let u = tree::after_split(t, id, lits);
    let n = t.nodes.len() as int;
    assert(u.nodes[n] == tree::children_of(t, id, lits)[0]);
    assert(tree::is_leaf(u.nodes[n]));
    assert forall|i: int| 0 <= i < u.nodes.len() implies !(tree::is_leaf(#[trigger] u.nodes[i])
        && u.nodes[i].status == NodeStatus::ClosedSat) by {
        if i < n && i != id.0 {
            assert(u.nodes[i] == t.nodes[i]);
        }
        if i >= n {
            assert(u.nodes[i] == tree::children_of(t, id, lits)[i - n]);
        }
    }
}

/// Abandoned leases stay gone when one is given back, and when all are.
pub(crate) proof fn gone_after_release(s: SchedView, id: u64)
    requires
        lease::leases_ok(s.leases),
        abandoned_are_gone(s),
        lease::held(s.leases, id),
    ensures
        abandoned_are_gone(released(s, id)),
        abandoned_are_gone(cancelled(released(s, id))),
{
    lease::without_keeps_order(s.leases, id);
    let t = released(s, id);
    assert forall|k: u64| #[trigger] t.abandoned.contains(k) implies !lease::held(t.leases, k) by {
        if k == id {
            assert(s.abandoned.contains(id));
        }
    }
    let u = cancelled(t);
    assert forall|k: u64| #[trigger] u.abandoned.contains(k) implies k < u.leases.next_id
        && !lease::held(u.leases, k) by {
        if t.abandoned.contains(k) {
        } else {
            let i = lease::place_of(t.leases, k);
            assert(t.leases.leases[i].lease_id < t.leases.next_id);
        }
    }
}

/// Reaping a lease keeps the state in order, and every other lease.
proof fn reaped_one_keeps_order(s: SchedView, id: u64)
    requires
        sched_ok(s),
        lease::held(s.leases, id),
    ensures
        sched_ok(reaped_one(s, id)),
        !lease::held(reaped_one(s, id).leases, id),
        forall|k: u64|
            k != id ==> #[trigger] lease::held(reaped_one(s, id).leases, k) == lease::held(
                s.leases,
                k,
            ) && (lease::held(s.leases, k) ==> lease::lease_at(reaped_one(s, id).leases, k)
                == lease::lease_at(s.leases, k)),
        reaped_one(s, id).tree.nodes.len() == s.tree.nodes.len(),
        reaped_one(s, id).tree.nodes[0].cube == s.tree.nodes[0].cube,
{
    fit_after_release(s.tree, s.leases, id, NodeStatus::Open);
    status_verdict(s.tree, lease::lease_at(s.leases, id).node_id, NodeStatus::Open);
    lease::without_keeps_order(s.leases, id);
    tree::status_keeps_order(
        s.tree,
        lease::lease_at(s.leases, id).node_id,
        NodeStatus::Open,
    );
}

/// Reaping leases one by one: each is gone, the state stays in order, and the
/// other leases are untouched.
pub proof fn reaped_keeps_order(s: SchedView, ids: Seq<u64>, n: int)
    requires
        sched_ok(s),
        0 <= n <= ids.len(),
        forall|a: int, b: int| 0 <= a < b < ids.len() ==> #[trigger] ids[a] < #[trigger] ids[b],
        forall|a: int| 0 <= a < ids.len() ==> lease::held(s.leases, #[trigger] ids[a]),
    ensures
        sched_ok(reaped(s, ids, n)),
        forall|a: int|
            0 <= a < n ==> !lease::held(reaped(s, ids, n).leases, #[trigger] ids[a]),
        forall|k: u64|
            !ids.take(n).contains(k) ==> #[trigger] lease::held(reaped(s, ids, n).leases, k)
                == lease::held(s.leases, k) && (lease::held(s.leases, k) ==> lease::lease_at(
                reaped(s, ids, n).leases,
                k,
            ) == lease::lease_at(s.leases, k)),
        reaped(s, ids, n).tree.nodes.len() == s.tree.nodes.len(),
        reaped(s, ids, n).tree.nodes[0].cube == s.tree.nodes[0].cube,
        reaped(s, ids, n).tree.max_depth == s.tree.max_depth,
        reaped(s, ids, n).leases.next_id == s.leases.next_id,
        reaped(s, ids, n).stopped == s.stopped,
        reaped(s, ids, n).abandoned == s.abandoned.union(ids.take(n).to_set()),
        reaped(s, ids, n).problem == s.problem,
        reaped(s, ids, n).ttl == s.ttl,
        reaped(s, ids, n).splits == s.splits,
    decreases n,
{
    if n > 0 {
        let m = n - 1;
        reaped_keeps_order(s, ids, m);
        let before = reaped(s, ids, m);
        let after = reaped(s, ids, n);
        let id = ids[m];
        assert(!ids.take(m).contains(id)) by {
            if ids.take(m).contains(id) {
                let k = choose|k: int| 0 <= k < m && ids.take(m)[k] == id;
                assert(ids[k] < ids[m]);
            }
        }
        assert(lease::held(before.leases, id));
        reaped_one_keeps_order(before, id);
        assert(after == reaped_one(before, id));
        assert forall|a: int| 0 <= a < n implies !lease::held(after.leases, #[trigger] ids[a]) by {
            if a < m {
                assert(ids[a] < ids[m]);
                assert(!lease::held(before.leases, ids[a]));
            }
        }
        assert forall|k: u64| !ids.take(n).contains(k) implies #[trigger] lease::held(
            after.leases,
            k,
        ) == lease::held(s.leases, k) && (lease::held(s.leases, k) ==> lease::lease_at(
            after.leases,
            k,
        ) == lease::lease_at(s.leases, k)) by {
            assert(k != id) by {
                assert(ids.take(n)[m] == id);
            }
            assert(!ids.take(m).contains(k)) by {
                if ids.take(m).contains(k) {
                    let j = choose|j: int| 0 <= j < m && ids.take(m)[j] == k;
                    assert(ids.take(n)[j] == k);
                }
            }
            assert(lease::held(before.leases, k) == lease::held(s.leases, k));
        }
    } else {
        assert(ids.take(0) =~= Seq::<u64>::empty());
    }
}

/// Reaping a lease abandons its work unit alone: the scheduler-wide token and
/// the units of the leases that are still out are left as they were.
pub proof fn reaping_spares_others(s: SchedView, id: u64, other: u64)
    requires
        sched_ok(s),
        lease::held(s.leases, id),
        lease::held(s.leases, other),
        other != id,
    ensures
        reaped_one(s, id).abandoned.contains(id),
        !reaped_one(s, id).abandoned.contains(other),
        lease::held(reaped_one(s, id).leases, other),
        reaped_one(s, id).stopped == s.stopped,
{
    reaped_one_keeps_order(s, id);
}

/// Closing a node and opening it again is opening it.
proof fn status_overwritten(t: TreeView, id: NodeId, a: NodeStatus, b: NodeStatus)
    requires
        tree::known(t, id),
    ensures
        tree::with_status(tree::with_status(t, id, a), id, b) == tree::with_status(t, id, b),
{
    assert(tree::with_status(tree::with_status(t, id, a), id, b).nodes =~= tree::with_status(
        t,
        id,
        b,
    ).nodes);
}

/// A worker other than the lease's own gets nothing done: acting on a lease is
/// refused exactly if the lease is unknown or another worker's.
pub proof fn only_owner_acts(s: SchedView, id: u64, worker: u32)
    ensures
        lease_error(s, id, worker) is None <==> lease::owned(s.leases, id, worker),
{
}

/// After a validated SAT no lease is left and the verdict stands.
pub proof fn sat_cancels_all(s: SchedView, id: u64, tripped: bool)
    requires
        sched_ok(s),
        lease::held(s.leases, id),
    ensures
        reported(s, id, NodeResult::Sat, tripped).0.leases.leases.len() == 0,
        verdict_of(reported(s, id, NodeResult::Sat, tripped).0.tree) == Verdict::Sat,
{
    fit_after_release(s.tree, s.leases, id, NodeStatus::ClosedSat);
    let t = reported(s, id, NodeResult::Sat, tripped).0.tree;
    let i = lease::lease_at(s.leases, id).node_id.0 as int;
    assert(tree::is_leaf(t.nodes[i]) && t.nodes[i].status == NodeStatus::ClosedSat);
}

impl Scheduler {
    pub closed spec fn view(&self) -> SchedView {
        SchedView {
            tree: self.tree@,
            leases: self.leases@,
            problem: self.problem,
            ttl: self.lease_ttl,
            stopped: self.stopped,
            splits: self.splits,
            abandoned: self.abandoned@,
        }
    }

    /// The scheduler-wide shutdown token.
    pub closed spec fn token(&self) -> Arc<AtomicBool> {
        self.shutdown
    }

    /// The shutdown token of the work unit of a lease that is out.
    pub closed spec fn unit_token(&self, id: u64) -> Arc<AtomicBool> {
        self.leases.token_of(id)
    }

    pub open spec fn well_formed(&self) -> bool {
        sched_ok(self@)
    }

    /// The number of nodes fits a machine word.
    pub proof fn bounded(&self)
        ensures
            self@.tree.nodes.len() <= usize::MAX,
    {
        self.tree.bounded();
    }

    pub fn new(problem: ProblemId, root_cube: Vec<Literal>, max_depth: Option<usize>) -> (s: Self)
        ensures
            s.well_formed(),
            s@ == (SchedView {
                tree: TreeView {
                    nodes: seq![tree::fresh_node(NodeId(0), None, root_cube@)],
                    max_depth,
                },
                leases: LeasesView { leases: Seq::empty(), next_id: 0 },
                problem,
                ttl: (30 * SECOND) as u64,
                stopped: false,
                splits: 0,
                abandoned: Set::empty(),
            }),
    {
        let s = Scheduler {
            tree: PartitionTree::new(root_cube, max_depth),
            leases: LeaseStore::new(),
            problem,
            lease_ttl: 30 * SECOND,
            shutdown: Arc::new(AtomicBool::new(false)),
            stopped: false,
            splits: 0,
            abandoned: Ghost(Set::empty()),
        };
        assert(tree::is_leaf(s@.tree.nodes[0]) && tree::is_open(s@.tree.nodes[0]));
        s
    }

    /// Set the default lease time to live (how long a worker may hold a node
    /// without renewing before it is reaped).
    pub fn with_lease_ttl(self, ttl: u64) -> (s: Self)
        requires
            self.well_formed(),
        ensures
            s.well_formed(),
            s@ == (SchedView { ttl, ..self@ }),
            s.token() == self.token(),
    {
        let mut s = self;
        s.lease_ttl = ttl;
        s
    }

    /// The scheduler-wide shutdown token. Set when a validated SAT is found or
    /// the orchestrator cancels, which also trips the token of every work unit
    /// in flight.
    pub fn shutdown_token(&self) -> (t: Arc<AtomicBool>)
        ensures
            t == self.token(),
    {
        share(&self.shutdown)
    }

    pub fn tree(&self) -> (t: &PartitionTree)
        requires
            self.well_formed(),
        ensures
            t.well_formed(),
            t@ == self@.tree,
    {
        &self.tree
    }

    pub fn leases(&self) -> (l: &LeaseStore)
        requires
            self.well_formed(),
        ensures
            l.well_formed(),
            l@ == self@.leases,
    {
        &self.leases
    }

    /// Trip the scheduler-wide token.
    fn trip(&mut self)
        ensures
            final(self)@ == (SchedView { stopped: true, ..old(self)@ }),
            final(self).token() == old(self).token(),
    {
        self.shutdown.store(true, Ordering::Release);
        self.stopped = true;
    }

    /// Trip the token of one work unit, whose lease has been given back.
    fn abandon(&mut self, lease: &Lease)
        ensures
            final(self)@ == (SchedView {
                abandoned: old(self)@.abandoned.insert(lease.lease_id),
                ..old(self)@
            }),
            final(self).token() == old(self).token(),
    {
        lease.work_unit.cancel();
        proof {
            self.abandoned@ = self.abandoned@.insert(lease.lease_id);
        }
    }

    /// Cancel all outstanding work: trip the global token and the per-unit
    /// tokens, then release every lease. Used on validated SAT or orchestrator
    /// shutdown.
    pub fn cancel_all(&mut self)
        requires
            old(self).well_formed(),
        ensures
            final(self).well_formed(),
            final(self).token() == old(self).token(),
            final(self)@ == cancelled(old(self)@),
    {
        self.stop_all();
    }

    fn stop_all(&mut self)
        ensures
            final(self)@ == cancelled(old(self)@),
            final(self).token() == old(self).token(),
    {
        let ghost before = self@;
        self.trip();
        let all: Vec<Lease> = self.leases.drain_all();
        let ghost rest = self@;
        let mut i: usize = 0;
        assert(self@.abandoned =~= before.abandoned.union(
            Set::new(|id: u64| listed_before(before.leases, 0, id)),
        ));
        while i < all.len()
            invariant
                i <= all@.len(),
                lease::lease_views(all@) == before.leases.leases,
                self@ == (SchedView {
                    abandoned: before.abandoned.union(
                        Set::new(|id: u64| listed_before(before.leases, i as int, id)),
                    ),
                    ..rest
                }),
                self.token() == old(self).token(),
            decreases all@.len() - i,
        {
            let ghost here = self@.abandoned;
            self.abandon(&all[i]);
            proof {
                let id0 = all@[i as int].lease_id;
                assert(before.leases.leases[i as int] == all@[i as int]@);
                assert forall|id: u64| listed_before(before.leases, i + 1, id) <==> #[trigger]
                    listed_before(before.leases, i as int, id) || id == id0 by {
                    if id == id0 {
                        assert(before.leases.leases[i as int].lease_id == id);
                    }
                    if listed_before(before.leases, i + 1, id) {
                        let k = choose|k: int|
                            0 <= k < i + 1 && (#[trigger] before.leases.leases[k]).lease_id == id;
                        if k < i {
                            assert(listed_before(before.leases, i as int, id));
                        }
                    }
                }
                assert(here.insert(id0) =~= before.abandoned.union(
                    Set::new(|id: u64| listed_before(before.leases, i + 1, id)),
                ));
            }
            i += 1;
        }
        proof {
            assert forall|id: u64| #[trigger] listed_before(
                before.leases,
                i as int,
                id,
            ) == lease::held(before.leases, id) by {}
            assert(self@.abandoned =~= cancelled(before).abandoned);
        }
    }

    /// Dispatch the next open node to `worker_id`. Returns the lease.
    pub fn dispatch(&mut self, worker_id: u32, budget: WorkBudget, now: u64) -> (r: Result<
        Lease,
        SchedulerError,
    >)
        requires
            old(self).well_formed(),
            old(self)@.leases.next_id < u64::MAX,
            now + old(self)@.ttl <= u64::MAX,
        ensures
            final(self).well_formed(),
            final(self).token() == old(self).token(),
            match r {
                Ok(lease) => {
                    &&& verdict_of(old(self)@.tree) == Verdict::Unknown
                    &&& open_ids(old(self)@.tree).len() > 0
                    &&& final(self)@ == dispatched(old(self)@, worker_id, budget, now)
                    &&& lease@ == final(self)@.leases.leases.last()
                    &&& lease.expires_at == now + old(self)@.ttl
                    &&& lease.worker_id == worker_id
                    &&& lease.work_unit.shutdown == final(self).unit_token(lease.lease_id)
                },
                Err(e) => {
                    &&& final(self)@ == old(self)@
                    &&& if verdict_of(old(self)@.tree) != Verdict::Unknown {
                        e matches SchedulerError::Finished(text) && text@ == verdict_text(
                            verdict_of(old(self)@.tree),
                        )
                    } else {
                        e == SchedulerError::NoWork && open_ids(old(self)@.tree).len() == 0
                    }
                },
            },
    {
        if self.is_finished() {
            return Err(SchedulerError::Finished(String::from_str(self.verdict().name())));
        }
        let open: Vec<NodeId> = self.tree.open_nodes();
        if open.len() == 0 {
            return Err(SchedulerError::NoWork);
        }
        let node_id: NodeId = open[0];
        let ghost before = self@;
        proof {
            self.bounded();
            next_open(before.tree);
            assert(open_ids(before.tree)[0] == node_id);
        }
        let assigned = self.tree.assign(node_id);
        assert(assigned is Ok);
        let cube: Vec<Literal> = match self.tree.cube(node_id) {
            Some(c) => vstd::slice::slice_to_vec(c),
            None => Vec::new(),
        };
        let unit = self.build_work_unit(cube, budget);
        let ttl: u64 = self.lease_ttl;
        let id: u64 = self.leases.grant(node_id, worker_id, unit, ttl, now);
        proof {
            let after = dispatched(before, worker_id, budget, now);
            assert(tree::node_at(self@.tree, node_id).cube == tree::node_at(
                before.tree,
                node_id,
            ).cube);
            assert(self@.leases == after.leases);
            assert(self@.leases.leases.drop_last() =~= before.leases.leases);
            dispatch_fits(before, node_id, self@);
            assert(tree::node_ok(before.tree.nodes, node_id.0 as int));
            status_verdict(before.tree, node_id, NodeStatus::Assigned);
        }
        match self.leases.get(id) {
            Some(lease) => Ok(lease.clone()),
            None => Err(SchedulerError::NoWork),
        }
    }

    /// Report a worker result for a lease. Returns the new verdict.
    ///
    /// - `Sat`: cancels all work and marks the node closed-SAT.
    /// - `Unsat`: closes the node; if all leaves closed-UNSAT, cancels all.
    /// - `Cancelled`: releases the lease; node returns to `Open` unless the
    ///   global shutdown was tripped.
    /// - `Split(_)`: no-op for the tree (splits go through [`Scheduler::split`]).
    ///
    /// Whether the token is set is known only when it is read, except that it
    /// is once this scheduler has tripped it.
    pub fn on_result(&mut self, lease_id: u64, worker_id: u32, result: NodeResult) -> (r: Result<
        Verdict,
        SchedulerError,
    >)
        requires
            old(self).well_formed(),
        ensures
            final(self).well_formed(),
            final(self).token() == old(self).token(),
            match r {
                Ok(v) => {
                    &&& lease_error(old(self)@, lease_id, worker_id) is None
                    &&& {
                        ||| (final(self)@, v) == reported(old(self)@, lease_id, result, true)
                        ||| !old(self)@.stopped && (final(self)@, v) == reported(
                            old(self)@,
                            lease_id,
                            result,
                            false,
                        )
                    }
                },
                Err(e) => lease_error(old(self)@, lease_id, worker_id) == Some(e) && final(self)@
                    == old(self)@,
            },
    {
        let tripped: bool = self.is_tripped();
        self.on_result_with(lease_id, worker_id, result, tripped)
    }

    /// Whether the shutdown token is set, by this scheduler or by anyone else
    /// who has it.
    pub fn is_tripped(&self) -> (b: bool)
        ensures
            self@.stopped ==> b,
    {
        self.stopped || self.shutdown.load(Ordering::Relaxed)
    }

    /// Whether this scheduler has tripped the shutdown token.
    pub fn has_stopped(&self) -> (b: bool)
        ensures
            b == self@.stopped,
    {
        self.stopped
    }

    /// As [`Scheduler::on_result`], for a given reading of the shutdown token.
    pub fn on_result_with(
        &mut self,
        lease_id: u64,
        worker_id: u32,
        result: NodeResult,
        tripped: bool,
    ) -> (r: Result<Verdict, SchedulerError>)
        requires
            old(self).well_formed(),
        ensures
            final(self).well_formed(),
            final(self).token() == old(self).token(),
            match r {
                Ok(v) => {
                    &&& lease_error(old(self)@, lease_id, worker_id) is None
                    &&& (final(self)@, v) == reported(old(self)@, lease_id, result, tripped)
                },
                Err(e) => lease_error(old(self)@, lease_id, worker_id) == Some(e) && final(self)@
                    == old(self)@,
            },
    {
        let ghost before = self@;
        let node_id: NodeId = match self.leases.get(lease_id) {
            None => {
                return Err(SchedulerError::UnknownLease(lease_id));
            },
            Some(lease) => {
                if lease.worker_id != worker_id {
                    return Err(SchedulerError::LeaseNotOwned(lease_id, worker_id));
                }
                lease.node_id
            },
        };
        proof {
            fit_after_release(before.tree, before.leases, lease_id, NodeStatus::ClosedSat);
            fit_after_release(before.tree, before.leases, lease_id, NodeStatus::ClosedUnsat);
            fit_after_release(before.tree, before.leases, lease_id, NodeStatus::Open);
            assert(verdict_of(before.tree) == Verdict::Unknown);
            status_verdict(before.tree, node_id, NodeStatus::Open);
            status_verdict(before.tree, node_id, NodeStatus::ClosedUnsat);
            lease::without_keeps_order(before.leases, lease_id);
            gone_after_release(before, lease_id);
        }
        let _lease = self.leases.release(lease_id);
        match result {
            NodeResult::Sat => {
                self.tree.close(node_id, NodeStatus::ClosedSat)?;
                self.stop_all();
                Ok(Verdict::Sat)
            },
            NodeResult::Unsat => {
                self.tree.close(node_id, NodeStatus::ClosedUnsat)?;
                if self.tree.is_unsat() {
                    self.stop_all();
                    Ok(Verdict::Unsat)
                } else {
                    Ok(self.verdict())
                }
            },
            NodeResult::Cancelled => {
                if !tripped {
                    proof {
                        status_overwritten(
                            before.tree,
                            node_id,
                            NodeStatus::Cancelled,
                            NodeStatus::Open,
                        );
                    }
                    self.tree.close(node_id, NodeStatus::Cancelled)?;
                    self.tree.reopen(node_id)?;
                }
                Ok(self.verdict())
            },
            NodeResult::Split(_) => Ok(self.verdict()),
        }
    }

    /// Split the node behind `lease_id` into children `parent ∪ {l_i}`,
    /// verifying `certificate`. The worker must own the lease, which ends with
    /// the split. A refused split changes nothing. Returns the child node ids.
    pub fn split(
        &mut self,
        lease_id: u64,
        worker_id: u32,
        literals: Vec<Literal>,
        certificate: CoverageCertificate,
    ) -> (r: Result<Vec<NodeId>, SchedulerError>)
        requires
            old(self).well_formed(),
        ensures
            final(self).well_formed(),
            final(self).token() == old(self).token(),
            lease_error(old(self)@, lease_id, worker_id) matches Some(e) ==> r == Err::<
                Vec<NodeId>,
                SchedulerError,
            >(e) && final(self)@ == old(self)@,
            lease_error(old(self)@, lease_id, worker_id) is None ==> {
                let node = lease::lease_at(old(self)@.leases, lease_id).node_id;
                let rest = released(old(self)@, lease_id);
                match tree::split_error(rest.tree, node, certificate.literals@, literals@) {
                    Some(e) => r == Err::<Vec<NodeId>, SchedulerError>(e) && final(self)@
                        == old(self)@,
                    None => {
                        &&& r matches Ok(ids) && ids@ == tree::next_ids(rest.tree, literals@.len())
                        &&& final(self)@ == after_split(rest, node, literals@)
                    },
                }
            },
    {
        let ghost before = self@;
        let node_id: NodeId = match self.leases.get(lease_id) {
            None => {
                return Err(SchedulerError::UnknownLease(lease_id));
            },
            Some(lease) => {
                if lease.worker_id != worker_id {
                    return Err(SchedulerError::LeaseNotOwned(lease_id, worker_id));
                }
                lease.node_id
            },
        };
        proof {
            fit_after_release(before.tree, before.leases, lease_id, NodeStatus::Open);
            lease::without_keeps_order(before.leases, lease_id);
            gone_after_release(before, lease_id);
        }
        let ghost lits = literals@;
        match self.tree.split(node_id, literals, certificate) {
            Ok(children) => {
                let _lease = self.leases.release(lease_id);
                proof {
                    assert(self.tree@.nodes.len() <= usize::MAX) by {
                        self.tree.bounded();
                    }
                    split_fits(before.tree, before.leases, lease_id, lits);
                    split_verdict(before.tree, node_id, lits);
                }
                self.splits = self.splits + 1;
                Ok(children)
            },
            Err(e) => Err(e),
        }
    }

    /// Renew a lease so the worker can keep the node.
    pub fn renew_lease(&mut self, lease_id: u64, worker_id: u32, now: u64) -> (r: Result<
        (),
        SchedulerError,
    >)
        requires
            old(self).well_formed(),
            now + old(self)@.ttl <= u64::MAX,
        ensures
            final(self).well_formed(),
            final(self).token() == old(self).token(),
            match r {
                Ok(_) => {
                    &&& lease::owned(old(self)@.leases, lease_id, worker_id)
                    &&& final(self)@ == renewed(old(self)@, lease_id, now)
                    &&& lease::lease_at(final(self)@.leases, lease_id).expires_at == now + old(
                        self,
                    )@.ttl
                },
                Err(e) => {
                    &&& !lease::owned(old(self)@.leases, lease_id, worker_id)
                    &&& e == SchedulerError::LeaseNotOwned(lease_id, worker_id)
                    &&& final(self)@ == old(self)@
                },
            },
    {
        if !self.leases.is_owned_by(lease_id, worker_id) {
            return Err(SchedulerError::LeaseNotOwned(lease_id, worker_id));
        }
        let ghost before = self@;
        let ttl: u64 = self.lease_ttl;
        let r = self.leases.renew(lease_id, ttl, now);
        proof {
            renewal_fits(before.tree, before.leases, lease_id, (now + ttl) as u64);
            lease::renewal_keeps_order(before.leases, lease_id, (now + ttl) as u64);
            assert(lease::held(
                lease::renewed(before.leases, lease_id, (now + ttl) as u64),
                lease_id,
            ) == lease::held(before.leases, lease_id));
        }
        r
    }

    /// Release some leases, trip the tokens of their work units and re-open
    /// their nodes.
    fn reap(&mut self, ids: Vec<u64>) -> (n: usize)
        requires
            old(self).well_formed(),
            forall|a: int, b: int|
                0 <= a < b < ids@.len() ==> #[trigger] ids@[a] < #[trigger] ids@[b],
            forall|a: int|
                0 <= a < ids@.len() ==> lease::held(old(self)@.leases, #[trigger] ids@[a]),
        ensures
            final(self).well_formed(),
            final(self).token() == old(self).token(),
            n == ids@.len(),
            final(self)@ == reaped(old(self)@, ids@, ids@.len() as int),
    {
        let ghost before = self@;
        let mut count: usize = 0;
        let mut i: usize = 0;
        while i < ids.len()
            invariant
                i <= ids@.len(),
                count == i,
                before == old(self)@,
                sched_ok(before),
                self.well_formed(),
                self@ == reaped(before, ids@, i as int),
                self.token() == old(self).token(),
                forall|a: int, b: int|
                    0 <= a < b < ids@.len() ==> #[trigger] ids@[a] < #[trigger] ids@[b],
                forall|a: int|
                    0 <= a < ids@.len() ==> lease::held(before.leases, #[trigger] ids@[a]),
            decreases ids@.len() - i,
        {
            let id: u64 = ids[i];
            let ghost here = self@;
            proof {
                reaped_keeps_order(before, ids@, i as int);
                assert(!ids@.take(i as int).contains(id)) by {
                    if ids@.take(i as int).contains(id) {
                        let k = choose|k: int| 0 <= k < i && ids@.take(i as int)[k] == id;
                        assert(ids@[k] < ids@[i as int]);
                    }
                }
                assert(lease::held(here.leases, id));
                fit_after_release(here.tree, here.leases, id, NodeStatus::Open);
                reaped_one_keeps_order(here, id);
            }
            if let Some(lease) = self.leases.release(id) {
                self.abandon(&lease);
                let reopened = self.tree.reopen(lease.node_id);
                if reopened.is_ok() {
                    count += 1;
                }
            }
            assert(self@ == reaped_one(here, id));
            i += 1;
        }
        count
    }

    /// Reap expired leases: trip their shutdown tokens and re-open their nodes
    /// so other workers can take them over. Returns the number reaped.
    pub fn reap_expired(&mut self, now: u64) -> (n: usize)
        requires
            old(self).well_formed(),
        ensures
            final(self).well_formed(),
            final(self).token() == old(self).token(),
            n == expired_leases(old(self)@, now).len(),
            final(self)@ == reaped(old(self)@, expired_leases(old(self)@, now), n as int),
    {
        let ids: Vec<u64> = self.leases.expired_ids(now);
        proof {
            lease::lease_ids_facts(self@.leases, |l: LeaseView| lease::expired(l, now));
        }
        self.reap(ids)
    }

    /// Reap every lease held by `worker_id`: trip their shutdown tokens and
    /// re-open their nodes. Returns the number of leases reaped. Used when the orchestrator
    /// declares a worker dead (heartbeat timeout).
    pub fn reap_worker(&mut self, worker_id: u32) -> (n: usize)
        requires
            old(self).well_formed(),
        ensures
            final(self).well_formed(),
            final(self).token() == old(self).token(),
            n == worker_leases(old(self)@, worker_id).len(),
            final(self)@ == reaped(old(self)@, worker_leases(old(self)@, worker_id), n as int),
    {
        let ids: Vec<u64> = self.leases.leases_for_worker(worker_id);
        proof {
            lease::lease_ids_facts(self@.leases, |l: LeaseView| l.worker_id == worker_id);
        }
        self.reap(ids)
    }

    /// Global termination verdict.
    pub fn verdict(&self) -> (v: Verdict)
        requires
            tree::tree_ok(self@.tree),
        ensures
            v == verdict_of(self@.tree),
    {
        if self.tree.is_sat() {
            Verdict::Sat
        } else if self.tree.is_unsat() {
            Verdict::Unsat
        } else {
            Verdict::Unknown
        }
    }

    pub fn is_finished(&self) -> (b: bool)
        requires
            tree::tree_ok(self@.tree),
        ensures
            b == (verdict_of(self@.tree) != Verdict::Unknown),
    {
        self.verdict() != Verdict::Unknown
    }

    pub fn stats(&self) -> (s: SchedulerStats)
        requires
            self.well_formed(),
        ensures
            s.nodes == self@.tree.nodes.len(),
            s.open == open_ids(self@.tree).len(),
            s.assigned == tree::ids_where(
                self@.tree.nodes,
                |n: NodeView| tree::is_active_leaf(n),
            ).len(),
            s.closed_sat == with_status_count(self@.tree, NodeStatus::ClosedSat),
            s.closed_unsat == with_status_count(self@.tree, NodeStatus::ClosedUnsat),
            s.cancelled == with_status_count(self@.tree, NodeStatus::Cancelled),
            s.leases_outstanding == self@.leases.leases.len(),
            s.splits == self@.splits,
    {
        SchedulerStats {
            nodes: self.tree.node_count() as u64,
            open: self.tree.open_nodes().len() as u64,
            assigned: self.tree.active_leaves().len() as u64,
            closed_sat: self.count_status(NodeStatus::ClosedSat),
            closed_unsat: self.count_status(NodeStatus::ClosedUnsat),
            cancelled: self.count_status(NodeStatus::Cancelled),
            leases_outstanding: self.leases.len() as u64,
            splits: self.splits,
        }
    }

    fn count_status(&self, status: NodeStatus) -> (n: u64)
        ensures
            n == with_status_count(self@.tree, status),
    {
        let nodes = self.tree.nodes();
        let ghost views = self@.tree.nodes;
        let mut n: u64 = 0;
        let mut i: usize = 0;
        while i < nodes.len()
            invariant
                i <= nodes@.len(),
                views == tree::node_views(nodes@),
                n <= i,
                n == count_of(views.take(i as int), status),
            decreases nodes@.len() - i,
        {
            assert(views.take(i + 1).drop_last() =~= views.take(i as int));
            assert(views.take(i + 1).last() == nodes@[i as int]@);
            if nodes[i].status == status {
                n += 1;
            }
            i += 1;
        }
        assert(views.take(i as int) =~= views);
        n
    }

    /// A work unit with a shutdown token of its own.
    fn build_work_unit(&self, cube: Vec<Literal>, budget: WorkBudget) -> (u: WorkUnit)
        ensures
            u@ == (UnitView {
                problem: self@.problem,
                assumptions: cube@,
                ancestry: Seq::empty(),
                priority: Priority(Priority::NORMAL),
                budget,
                seed: 0,
            }),
    {
        WorkUnit {
            problem: self.problem,
            assumptions: cube,
            ancestry: CubePath::default(),
            priority: Priority(Priority::NORMAL),
            budget,
            seed: 0,
            shutdown: Arc::new(AtomicBool::new(false)),
        }
    }
}

/// A lease stands before place `n`.
spec fn listed_before(l: LeasesView, n: int, id: u64) -> bool {
    exists|k: int| 0 <= k < n && (#[trigger] l.leases[k]).lease_id == id
}

/// How many of some nodes have a status.
pub open spec fn count_of(nodes: Seq<NodeView>, status: NodeStatus) -> nat
    decreases nodes.len(),
{
    if nodes.len() == 0 {
        0
    } else {
        count_of(nodes.drop_last(), status) + (if nodes.last().status == status {
            1nat
        } else {
            0
        })
    }
}

/// How many nodes of a tree have a status.
pub open spec fn with_status_count(t: TreeView, status: NodeStatus) -> nat {
    count_of(t.nodes, status)
}

/// The state after a split of a node whose lease has been given back.
pub open spec fn after_split(s: SchedView, node: NodeId, lits: Seq<Literal>) -> SchedView {
    SchedView {
        tree: tree::after_split(s.tree, node, lits),
        splits: (s.splits + 1) as u64,
        ..s
    }
}

/// A dispatched node joins the assigned leaves.
pub(crate) proof fn dispatch_fits(s: SchedView, node: NodeId, u: SchedView)
    requires
        sched_ok(s),
        tree::known(s.tree, node),
        tree::is_open(tree::node_at(s.tree, node)),
        u.tree == tree::with_status(s.tree, node, NodeStatus::Assigned),
        u.leases.leases.len() == s.leases.leases.len() + 1,
        u.leases.leases.last().node_id == node,
        u.leases.leases.drop_last() == s.leases.leases,
    ensures
        leases_fit(u.tree, u.leases),
{
    let n = s.leases.leases.len();
    assert(tree::node_ok(s.tree.nodes, node.0 as int));
    assert forall|i: int| 0 <= i < u.leases.leases.len() implies tree::known(
        u.tree,
        (#[trigger] u.leases.leases[i]).node_id,
    ) && tree::is_leaf(tree::node_at(u.tree, u.leases.leases[i].node_id)) && tree::node_at(
        u.tree,
        u.leases.leases[i].node_id,
    ).status == NodeStatus::Assigned && (i < n ==> u.leases.leases[i].node_id != node) by {
        if i < n {
            assert(u.leases.leases.drop_last()[i] == s.leases.leases[i]);
        }
    }
    assert forall|i: int, j: int| 0 <= i < j < u.leases.leases.len() implies (
    #[trigger] u.leases.leases[i]).node_id != (#[trigger] u.leases.leases[j]).node_id by {
        assert(u.leases.leases.drop_last()[i] == s.leases.leases[i]);
        if j < n {
            assert(u.leases.leases.drop_last()[j] == s.leases.leases[j]);
        }
    }
}

/// Splitting a node whose lease has been given back keeps the other leases on
/// assigned leaves.
proof fn split_fits(t: TreeView, l: LeasesView, id: u64, lits: Seq<Literal>)
    requires
        tree::tree_ok(t),
        lease::leases_ok(l),
        leases_fit(t, l),
        lease::held(l, id),
    ensures
        leases_fit(
            tree::after_split(t, lease::lease_at(l, id).node_id, lits),
            lease::without(l, id),
        ),
{
    let node = lease::lease_at(l, id).node_id;
    let w = lease::without(l, id);
    let u = tree::after_split(t, node, lits);
    fit_after_release(t, l, id, NodeStatus::Open);
    let opened = tree::with_status(t, node, NodeStatus::Open);
    assert forall|i: int| 0 <= i < w.leases.len() implies tree::known(
        u,
        (#[trigger] w.leases[i]).node_id,
    ) && tree::is_leaf(tree::node_at(u, w.leases[i].node_id)) && tree::node_at(
        u,
        w.leases[i].node_id,
    ).status == NodeStatus::Assigned by {
        assert(tree::node_at(opened, w.leases[i].node_id).status == NodeStatus::Assigned);
        assert(w.leases[i].node_id != node);
        assert(u.nodes[w.leases[i].node_id.0 as int] == t.nodes[w.leases[i].node_id.0 as int]);
    }
}

/// Renewal keeps the leases on assigned leaves.
pub(crate) proof fn renewal_fits(t: TreeView, l: LeasesView, id: u64, expires_at: u64)
    requires
        leases_fit(t, l),
    ensures
        leases_fit(t, lease::renewed(l, id, expires_at)),
{
    let r = lease::renewed(l, id, expires_at);
    assert forall|i: int| 0 <= i < r.leases.len() implies (#[trigger] r.leases[i]).node_id
        == l.leases[i].node_id by {}
}

} // verus!
