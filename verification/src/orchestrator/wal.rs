//! The write-ahead log, and what replaying it means.

use vstd::prelude::*;

use crate::akx::literal::Literal;
use crate::akx::work::{ProblemId, WorkBudget};
use crate::scheduler::dispatch::NodeResult;
use crate::scheduler::error::SchedulerError;
use crate::scheduler::tree::NodeId;
#[allow(unused_imports)]
use crate::scheduler::coverage;
#[allow(unused_imports)]
use crate::scheduler::dispatch;
#[allow(unused_imports)]
use crate::scheduler::dispatch::{SchedView, Verdict};
#[allow(unused_imports)]
use crate::scheduler::lease;
#[allow(unused_imports)]
use crate::scheduler::lease::{LeaseView, LeasesView};
#[allow(unused_imports)]
use crate::scheduler::tree;
#[allow(unused_imports)]
use crate::scheduler::tree::{NodeStatus, NodeView, TreeView};
#[allow(unused_imports)]
use crate::text;

verus! {

/// One mutation record in the write-ahead log.
#[derive(Debug, PartialEq, Eq)]
pub enum WalEntry {
    WorkerAdmitted { worker: u32 },
    Heartbeat { worker: u32 },
    /// Node dispatched to a worker (records the node + budget for replay).
    Dispatch { worker: u32, node: NodeId, budget_ms: u64, budget_conflicts: u64 },
    /// Terminal worker outcome for a node.
    Result { worker: u32, node: NodeId, outcome: WalOutcome },
    /// A node was split into children (literals reconstruct the certificate).
    Split { worker: u32, node: NodeId, children: Vec<NodeId>, literals: Vec<Literal> },
    /// A worker was declared dead and its leases reaped.
    WorkerDead { worker: u32 },
    /// Global cancellation (validated SAT or orchestrator shutdown).
    CancelAll,
}

/// Terminal outcome recorded in the log.
#[derive(Clone, Copy, Debug, PartialEq, Eq, Structural)]
pub enum WalOutcome {
    Sat,
    Unsat,
    Cancelled,
}

/// The contents of a log entry.
#[verifier::ext_equal]
pub enum EntryView {
    WorkerAdmitted { worker: u32 },
    Heartbeat { worker: u32 },
    Dispatch { worker: u32, node: NodeId, budget_ms: u64, budget_conflicts: u64 },
    Result { worker: u32, node: NodeId, outcome: WalOutcome },
    Split { worker: u32, node: NodeId, children: Seq<NodeId>, literals: Seq<Literal> },
    WorkerDead { worker: u32 },
    CancelAll,
}

impl View for WalEntry {
    type V = EntryView;

    open spec fn view(&self) -> EntryView {
        match *self {
            WalEntry::WorkerAdmitted { worker } => EntryView::WorkerAdmitted { worker },
            WalEntry::Heartbeat { worker } => EntryView::Heartbeat { worker },
            WalEntry::Dispatch { worker, node, budget_ms, budget_conflicts } => {
                EntryView::Dispatch { worker, node, budget_ms, budget_conflicts }
            },
            WalEntry::Result { worker, node, outcome } => {
                EntryView::Result { worker, node, outcome }
            },
            WalEntry::Split { worker, node, children, literals } => {
                EntryView::Split { worker, node, children: children@, literals: literals@ }
            },
            WalEntry::WorkerDead { worker } => EntryView::WorkerDead { worker },
            WalEntry::CancelAll => EntryView::CancelAll,
        }
    }
}

impl Clone for WalEntry {
    fn clone(&self) -> (e: Self)
        ensures
            e@ == self@,
    {
        match self {
            WalEntry::WorkerAdmitted { worker } => WalEntry::WorkerAdmitted { worker: *worker },
            WalEntry::Heartbeat { worker } => WalEntry::Heartbeat { worker: *worker },
            WalEntry::Dispatch { worker, node, budget_ms, budget_conflicts } => {
                WalEntry::Dispatch {
                    worker: *worker,
                    node: *node,
                    budget_ms: *budget_ms,
                    budget_conflicts: *budget_conflicts,
                }
            },
            WalEntry::Result { worker, node, outcome } => {
                WalEntry::Result { worker: *worker, node: *node, outcome: *outcome }
            },
            WalEntry::Split { worker, node, children, literals } => {
                WalEntry::Split {
                    worker: *worker,
                    node: *node,
                    children: vstd::slice::slice_to_vec(children.as_slice()),
                    literals: vstd::slice::slice_to_vec(literals.as_slice()),
                }
            },
            WalEntry::WorkerDead { worker } => WalEntry::WorkerDead { worker: *worker },
            WalEntry::CancelAll => WalEntry::CancelAll,
        }
    }
}

pub open spec fn entry_views(wal: Seq<WalEntry>) -> Seq<EntryView> {
    wal.map_values(|e: WalEntry| e@)
}

/// Copy a log.
pub fn copy_wal(wal: &[WalEntry]) -> (r: Vec<WalEntry>)
    ensures
        entry_views(r@) == entry_views(wal@),
{
    let mut r: Vec<WalEntry> = Vec::new();
    let mut i: usize = 0;
    assert(entry_views(r@) =~= entry_views(wal@).take(0));
    while i < wal.len()
        invariant
            i <= wal@.len(),
            entry_views(r@) == entry_views(wal@).take(i as int),
        decreases wal@.len() - i,
    {
        let e = wal[i].clone();
        let ghost before = entry_views(r@);
        let ghost v = e@;
        r.push(e);
        assert(entry_views(r@) =~= before.push(v));
        assert(entry_views(wal@).take(i + 1) =~= before.push(v));
        i += 1;
    }
    assert(entry_views(wal@).take(i as int) =~= entry_views(wal@));
    r
}

/// The result that an outcome stands for.
pub open spec fn result_of(o: WalOutcome) -> NodeResult {
    match o {
        WalOutcome::Sat => NodeResult::Sat,
        WalOutcome::Unsat => NodeResult::Unsat,
        WalOutcome::Cancelled => NodeResult::Cancelled,
    }
}

/// What a log determines: the scheduler's state without deadlines, and which
/// workers are known and which of them dead.
#[verifier::ext_equal]
pub struct Shadow {
    pub sched: SchedView,
    pub workers: Map<u32, bool>,
}

pub open spec fn timeless_lease(l: LeaseView) -> LeaseView {
    LeaseView { expires_at: 0, ..l }
}

pub open spec fn timeless_leases(l: LeasesView) -> LeasesView {
    LeasesView { leases: l.leases.map_values(|x: LeaseView| timeless_lease(x)), ..l }
}

/// A scheduler's state without deadlines.
pub open spec fn timeless(s: SchedView) -> SchedView {
    SchedView { leases: timeless_leases(s.leases), ttl: 0, ..s }
}

/// Whether a worker holds a lease on a node.
pub open spec fn holds(l: LeasesView, worker: u32, node: NodeId) -> bool {
    exists|i: int|
        0 <= i < l.leases.len() && (#[trigger] l.leases[i]).worker_id == worker
            && l.leases[i].node_id == node
}

/// The lease that a worker holds on a node.
pub open spec fn lease_for(l: LeasesView, worker: u32, node: NodeId) -> u64 {
    l.leases[choose|i: int|
        0 <= i < l.leases.len() && (#[trigger] l.leases[i]).worker_id == worker
            && l.leases[i].node_id == node].lease_id
}

/// What makes a log inconsistent.
pub enum Fault {
    /// The worker holds no lease on the node.
    NoLease(NodeId),
    /// The problem is finished already.
    Finished(Verdict),
    NoWork,
    /// The scheduler picks another node than the one recorded.
    WrongNode(NodeId),
    /// The recorded literals do not cover.
    BadCertificate,
    SplitRefused(SchedulerError),
    /// The split yields other children than those recorded.
    OtherChildren,
}

/// The state after replaying an entry.
pub open spec fn replayed(s: Shadow, e: EntryView) -> Result<Shadow, Fault> {
    match e {
        EntryView::WorkerAdmitted { worker } => Ok(
            Shadow { workers: s.workers.insert(worker, false), ..s },
        ),
        EntryView::Heartbeat { .. } => Ok(s),
        EntryView::Dispatch { worker, node, budget_ms, budget_conflicts } => {
            let budget = WorkBudget { max_conflicts: budget_conflicts, max_ms: budget_ms };
            if dispatch::verdict_of(s.sched.tree) != Verdict::Unknown {
                Err(Fault::Finished(dispatch::verdict_of(s.sched.tree)))
            } else if dispatch::open_ids(s.sched.tree).len() == 0 {
                Err(Fault::NoWork)
            } else if dispatch::open_ids(s.sched.tree)[0] != node {
                Err(Fault::WrongNode(node))
            } else {
                Ok(Shadow { sched: dispatch::dispatched(s.sched, worker, budget, 0), ..s })
            }
        },
        EntryView::Result { worker, node, outcome } => if !holds(s.sched.leases, worker, node) {
            Err(Fault::NoLease(node))
        } else {
            let id = lease_for(s.sched.leases, worker, node);
            Ok(
                Shadow {
                    sched: dispatch::reported(
                        s.sched,
                        id,
                        result_of(outcome),
                        s.sched.stopped,
                    ).0,
                    ..s
                },
            )
        },
        EntryView::Split { worker, node, children, literals } => if !holds(
            s.sched.leases,
            worker,
            node,
        ) {
            Err(Fault::NoLease(node))
        } else if coverage::coverage_of(literals) is Err {
            Err(Fault::BadCertificate)
        } else {
            let rest = dispatch::released(s.sched, lease_for(s.sched.leases, worker, node));
            match tree::split_error(rest.tree, node, literals, literals) {
                Some(e) => Err(Fault::SplitRefused(e)),
                None => if tree::next_ids(rest.tree, literals.len()) != children {
                    Err(Fault::OtherChildren)
                } else {
                    Ok(Shadow { sched: dispatch::after_split(rest, node, literals), ..s })
                },
            }
        },
        EntryView::WorkerDead { worker } => {
            let ids = dispatch::worker_leases(s.sched, worker);
            Ok(
                Shadow {
                    sched: dispatch::reaped(s.sched, ids, ids.len() as int),
                    workers: if s.workers.contains_key(worker) {
                        s.workers.insert(worker, true)
                    } else {
                        s.workers
                    },
                },
            )
        },
        EntryView::CancelAll => Ok(Shadow { sched: dispatch::cancelled(s.sched), ..s }),
    }
}

/// The state after replaying the first `n` entries of a log, or what is wrong
/// with the first entry that does not fit.
pub open spec fn replay_all(s: Shadow, wal: Seq<EntryView>, n: int) -> Result<Shadow, Fault>
    decreases n,
{
    if n <= 0 {
        Ok(s)
    } else {
        match replay_all(s, wal, n - 1) {
            Ok(t) => replayed(t, wal[n - 1]),
            Err(f) => Err(f),
        }
    }
}

/// The state in which a log starts.
pub open spec fn initial(problem: ProblemId, cube: Seq<Literal>, depth: Option<usize>) -> Shadow {
    Shadow {
        sched: SchedView {
            tree: TreeView {
                nodes: seq![tree::fresh_node(NodeId(0), None, cube)],
                max_depth: depth,
            },
            leases: LeasesView { leases: Seq::empty(), next_id: 0 },
            problem,
            ttl: 0,
            stopped: false,
            splits: 0,
            abandoned: Set::empty(),
        },
        workers: Map::empty(),
    }
}

/// A longer log with the same beginning replays to the same state that far.
pub proof fn replay_prefix(s: Shadow, a: Seq<EntryView>, b: Seq<EntryView>, n: int)
    requires
        n <= a.len(),
        n <= b.len(),
        forall|i: int| 0 <= i < n ==> #[trigger] a[i] == b[i],
    ensures
        replay_all(s, a, n) == replay_all(s, b, n),
    decreases n,
{
    if n > 0 {
        replay_prefix(s, a, b, n - 1);
    }
}

/// Replaying one more entry.
pub proof fn replay_push(s: Shadow, wal: Seq<EntryView>, e: EntryView)
    ensures
        replay_all(s, wal.push(e), (wal.len() + 1) as int) == (match replay_all(
            s,
            wal,
            wal.len() as int,
        ) {
            Ok(t) => replayed(t, e),
            Err(f) => Err(f),
        }),
{
    replay_prefix(s, wal.push(e), wal, wal.len() as int);
}

// ---------------------------------------------------------------------------
// Deadlines do not matter
// ---------------------------------------------------------------------------

proof fn timeless_filter(s: Seq<LeaseView>, p: spec_fn(LeaseView) -> bool)
    requires
        forall|l: LeaseView| #[trigger] p(l) == p(timeless_lease(l)),
    ensures
        s.filter(p).map_values(|x: LeaseView| timeless_lease(x)) == s.map_values(
            |x: LeaseView| timeless_lease(x),
        ).filter(p),
    decreases s.len(),
{
    reveal(Seq::filter);
    let f = |x: LeaseView| timeless_lease(x);
    if s.len() == 0 {
        assert(s.filter(p).map_values(f) =~= s.map_values(f).filter(p));
    } else {
        let t = s.drop_last();
        timeless_filter(t, p);
        assert(s.map_values(f).drop_last() =~= t.map_values(f));
        assert(s.map_values(f).last() == timeless_lease(s.last()));
        assert(p(s.last()) == p(timeless_lease(s.last())));
        if p(s.last()) {
            assert(t.filter(p).push(s.last()).map_values(f) =~= t.filter(p).map_values(f).push(
                timeless_lease(s.last()),
            ));
        }
    }
}

/// The collected identifiers do not depend on deadlines if the condition does not.
proof fn timeless_ids(s: Seq<LeaseView>, p: spec_fn(LeaseView) -> bool)
    requires
        forall|l: LeaseView| #[trigger] p(l) == p(timeless_lease(l)),
    ensures
        lease::lease_ids(s.map_values(|x: LeaseView| timeless_lease(x)), p) == lease::lease_ids(
            s,
            p,
        ),
    decreases s.len(),
{
    let f = |x: LeaseView| timeless_lease(x);
    if s.len() > 0 {
        let t = s.drop_last();
        timeless_ids(t, p);
        assert(s.map_values(f).drop_last() =~= t.map_values(f));
        assert(s.map_values(f).last() == timeless_lease(s.last()));
        assert(p(s.last()) == p(timeless_lease(s.last())));
    }
}

pub proof fn timeless_without(l: LeasesView, id: u64)
    ensures
        timeless_leases(lease::without(l, id)) == lease::without(timeless_leases(l), id),
{
    timeless_filter(l.leases, |x: LeaseView| x.lease_id != id);
}

pub proof fn timeless_worker_leases(s: SchedView, worker: u32)
    ensures
        dispatch::worker_leases(timeless(s), worker) == dispatch::worker_leases(s, worker),
{
    timeless_ids(s.leases.leases, |l: LeaseView| l.worker_id == worker);
}

/// Leaving out the deadlines keeps the order and changes no lease otherwise.
pub proof fn timeless_keeps_order(l: LeasesView)
    requires
        lease::leases_ok(l),
    ensures
        lease::leases_ok(timeless_leases(l)),
        forall|id: u64|
            #[trigger] lease::held(timeless_leases(l), id) == lease::held(l, id) && (lease::held(
                l,
                id,
            ) ==> lease::lease_at(timeless_leases(l), id) == timeless_lease(
                lease::lease_at(l, id),
            )),
{
    let t = timeless_leases(l);
    assert forall|a: int, b: int| 0 <= a < b < t.leases.len() implies (
    #[trigger] t.leases[a]).lease_id < (#[trigger] t.leases[b]).lease_id by {
        assert(l.leases[a].lease_id < l.leases[b].lease_id);
    }
    assert forall|a: int| 0 <= a < t.leases.len() implies (#[trigger] t.leases[a]).lease_id
        < t.next_id by {
        assert(l.leases[a].lease_id < l.next_id);
    }
    assert forall|id: u64| #[trigger] lease::held(t, id) == lease::held(l, id) && (lease::held(
        l,
        id,
    ) ==> lease::lease_at(t, id) == timeless_lease(lease::lease_at(l, id))) by {
        if lease::held(l, id) {
            let j = lease::place_of(l, id);
            assert(t.leases[j].lease_id == id);
            lease::lease_at_is(l, j);
            lease::lease_at_is(t, j);
        }
        if lease::held(t, id) {
            let j = lease::place_of(t, id);
            assert(l.leases[j].lease_id == id);
        }
    }
}

/// A worker's lease on a node is the same with and without deadlines; leases
/// are on different nodes, so there is only one.
pub proof fn lease_for_is(s: SchedView, worker: u32, i: int)
    requires
        dispatch::leases_fit(s.tree, s.leases),
        0 <= i < s.leases.leases.len(),
        s.leases.leases[i].worker_id == worker,
    ensures
        holds(s.leases, worker, s.leases.leases[i].node_id),
        lease_for(s.leases, worker, s.leases.leases[i].node_id) == s.leases.leases[i].lease_id,
        holds(timeless_leases(s.leases), worker, s.leases.leases[i].node_id),
        lease_for(timeless_leases(s.leases), worker, s.leases.leases[i].node_id)
            == s.leases.leases[i].lease_id,
{
    let l = s.leases;
    let t = timeless_leases(l);
    let node = l.leases[i].node_id;
    assert(holds(l, worker, node));
    assert(t.leases[i].worker_id == worker && t.leases[i].node_id == node);
    let j = choose|j: int|
        0 <= j < l.leases.len() && (#[trigger] l.leases[j]).worker_id == worker
            && l.leases[j].node_id == node;
    let k = choose|k: int|
        0 <= k < t.leases.len() && (#[trigger] t.leases[k]).worker_id == worker
            && t.leases[k].node_id == node;
    assert(l.leases[k].node_id == node);
    if j < i {
        assert(l.leases[j].node_id != l.leases[i].node_id);
    } else if i < j {
        assert(l.leases[i].node_id != l.leases[j].node_id);
    }
    if k < i {
        assert(l.leases[k].node_id != l.leases[i].node_id);
    } else if i < k {
        assert(l.leases[i].node_id != l.leases[k].node_id);
    }
}

/// A worker holds the same leases with and without deadlines.
pub proof fn timeless_holds(l: LeasesView, worker: u32, node: NodeId)
    ensures
        holds(timeless_leases(l), worker, node) == holds(l, worker, node),
{
    let t = timeless_leases(l);
    if holds(l, worker, node) {
        let j = choose|j: int|
            0 <= j < l.leases.len() && (#[trigger] l.leases[j]).worker_id == worker
                && l.leases[j].node_id == node;
        assert(t.leases[j].worker_id == worker && t.leases[j].node_id == node);
    }
    if holds(t, worker, node) {
        let j = choose|j: int|
            0 <= j < t.leases.len() && (#[trigger] t.leases[j]).worker_id == worker
                && t.leases[j].node_id == node;
        assert(l.leases[j].worker_id == worker && l.leases[j].node_id == node);
    }
}

pub proof fn timeless_dispatched(s: SchedView, worker: u32, budget: WorkBudget, now: u64)
    ensures
        timeless(dispatch::dispatched(s, worker, budget, now)) == dispatch::dispatched(
            timeless(s),
            worker,
            budget,
            0,
        ),
{
    let a = timeless(dispatch::dispatched(s, worker, budget, now));
    let b = dispatch::dispatched(timeless(s), worker, budget, 0);
    assert(a.leases.leases =~= b.leases.leases);
}

pub proof fn timeless_cancelled(s: SchedView)
    ensures
        timeless(dispatch::cancelled(s)) == dispatch::cancelled(timeless(s)),
{
    assert(timeless(dispatch::cancelled(s)).leases.leases =~= Seq::<LeaseView>::empty());
    assert forall|id: u64| #[trigger] lease::held(timeless_leases(s.leases), id) == lease::held(
        s.leases,
        id,
    ) by {
        let t = timeless_leases(s.leases);
        if lease::held(s.leases, id) {
            let j = lease::place_of(s.leases, id);
            assert(t.leases[j].lease_id == id);
        }
        if lease::held(t, id) {
            let j = lease::place_of(t, id);
            assert(s.leases.leases[j].lease_id == id);
        }
    }
    assert(dispatch::outstanding(timeless_leases(s.leases)) =~= dispatch::outstanding(s.leases));
}

pub proof fn timeless_reported(s: SchedView, id: u64, result: NodeResult, tripped: bool)
    requires
        lease::leases_ok(s.leases),
        lease::held(s.leases, id),
    ensures
        timeless(dispatch::reported(s, id, result, tripped).0) == dispatch::reported(
            timeless(s),
            id,
            result,
            tripped,
        ).0,
        dispatch::reported(s, id, result, tripped).1 == dispatch::reported(
            timeless(s),
            id,
            result,
            tripped,
        ).1,
{
    timeless_keeps_order(s.leases);
    assert(lease::held(timeless_leases(s.leases), id));
    timeless_without(s.leases, id);
    assert(timeless(dispatch::released(s, id)) == dispatch::released(timeless(s), id));
    let node = lease::lease_at(s.leases, id).node_id;
    let rest = dispatch::released(s, id);
    timeless_cancelled(
        SchedView { tree: tree::with_status(s.tree, node, NodeStatus::ClosedSat), ..rest },
    );
    timeless_cancelled(
        SchedView { tree: tree::with_status(s.tree, node, NodeStatus::ClosedUnsat), ..rest },
    );
}

pub proof fn timeless_reaped(s: SchedView, ids: Seq<u64>, n: int)
    requires
        dispatch::sched_ok(s),
        0 <= n <= ids.len(),
        forall|a: int, b: int| 0 <= a < b < ids.len() ==> #[trigger] ids[a] < #[trigger] ids[b],
        forall|a: int| 0 <= a < ids.len() ==> lease::held(s.leases, #[trigger] ids[a]),
    ensures
        timeless(dispatch::reaped(s, ids, n)) == dispatch::reaped(timeless(s), ids, n),
    decreases n,
{
    if n > 0 {
        timeless_reaped(s, ids, n - 1);
        dispatch::reaped_keeps_order(s, ids, n - 1);
        let before = dispatch::reaped(s, ids, n - 1);
        let id = ids[n - 1];
        let earlier = ids.take(n - 1);
        assert(!earlier.contains(id)) by {
            if earlier.contains(id) {
                let k = choose|k: int| 0 <= k < earlier.len() && earlier[k] == id;
                assert(ids[k] < ids[n - 1]);
            }
        }
        assert(lease::held(before.leases, id));
        timeless_keeps_order(before.leases);
        assert(lease::held(timeless_leases(before.leases), id));
        timeless_without(before.leases, id);
        assert(timeless(dispatch::reaped_one(before, id)) == dispatch::reaped_one(
            timeless(before),
            id,
        ));
    }
}

} // verus!
