//! What the scheduler promises of leases, results and splits, over several
//! calls.

use vstd::prelude::*;

use crate::akx::literal::Literal;
#[allow(unused_imports)]
use crate::akx::logic;
#[allow(unused_imports)]
use crate::akx::work::WorkBudget;
#[allow(unused_imports)]
use crate::scheduler::dispatch;
#[allow(unused_imports)]
use crate::scheduler::dispatch::{NodeResult, SchedView, Verdict};
#[allow(unused_imports)]
use crate::scheduler::lease;
#[allow(unused_imports)]
use crate::scheduler::lease::LeaseView;
#[allow(unused_imports)]
use crate::scheduler::tree;
#[allow(unused_imports)]
use crate::scheduler::tree::{NodeId, NodeStatus, NodeView, TreeView};

verus! {

// ---------------------------------------------------------------------------
// Leases
// ---------------------------------------------------------------------------

/// The nodes of reaped leases are open again, and no other node has changed.
proof fn reaped_nodes(s: SchedView, ids: Seq<u64>, n: int)
    requires
        dispatch::sched_ok(s),
        0 <= n <= ids.len(),
        forall|a: int, b: int| 0 <= a < b < ids.len() ==> #[trigger] ids[a] < #[trigger] ids[b],
        forall|a: int| 0 <= a < ids.len() ==> lease::held(s.leases, #[trigger] ids[a]),
    ensures
        dispatch::reaped(s, ids, n).tree.nodes.len() == s.tree.nodes.len(),
        forall|a: int|
            0 <= a < n ==> dispatch::reaped(s, ids, n).tree.nodes[lease::lease_at(
                s.leases,
                #[trigger] ids[a],
            ).node_id.0 as int].status == NodeStatus::Open,
        forall|i: int|
            0 <= i < s.tree.nodes.len() && (forall|a: int|
                0 <= a < n ==> lease::lease_at(s.leases, #[trigger] ids[a]).node_id.0 != i)
                ==> #[trigger] dispatch::reaped(s, ids, n).tree.nodes[i] == s.tree.nodes[i],
    decreases n,
{
    if n > 0 {
        let m = n - 1;
        reaped_nodes(s, ids, m);
        dispatch::reaped_keeps_order(s, ids, m);
        let before = dispatch::reaped(s, ids, m);
        let after = dispatch::reaped(s, ids, n);
        let id = ids[m];
        assert(!ids.take(m).contains(id)) by {
            if ids.take(m).contains(id) {
                let k = choose|k: int| 0 <= k < m && ids.take(m)[k] == id;
                assert(ids[k] < ids[m]);
            }
        }
        assert(lease::held(before.leases, id) == lease::held(s.leases, id));
        let node = lease::lease_at(s.leases, id).node_id.0 as int;
        assert(lease::lease_at(before.leases, id) == lease::lease_at(s.leases, id));
        lease_is_known(s, id);
        assert forall|a: int| 0 <= a < n implies after.tree.nodes[lease::lease_at(
            s.leases,
            #[trigger] ids[a],
        ).node_id.0 as int].status == NodeStatus::Open by {
            lease_is_known(s, ids[a]);
        }
        assert forall|i: int|
            0 <= i < s.tree.nodes.len() && (forall|a: int|
                0 <= a < n ==> lease::lease_at(s.leases, #[trigger] ids[a]).node_id.0
                    != i) implies #[trigger] after.tree.nodes[i] == s.tree.nodes[i] by {
            assert(lease::lease_at(s.leases, ids[m]).node_id.0 != i);
            assert(before.tree.nodes[i] == s.tree.nodes[i]);
        }
    }
}

/// A held lease is on a node of the tree.
proof fn lease_is_known(s: SchedView, id: u64)
    requires
        dispatch::sched_ok(s),
        lease::held(s.leases, id),
    ensures
        lease::lease_at(s.leases, id).lease_id == id,
        lease::lease_at(s.leases, id).node_id.0 < s.tree.nodes.len(),
        s.tree.nodes[lease::lease_at(s.leases, id).node_id.0 as int].status
            == NodeStatus::Assigned,
{
    let i = lease::place_of(s.leases, id);
    assert(s.leases.leases[i].lease_id == id);
}

/// Reaping takes exactly the leases whose deadline has come: they are out no
/// more, their work is told to stop, and their nodes are open for others. Every
/// other lease is out as before.
pub proof fn reaping_follows_deadlines(s: SchedView, id: u64, now: u64)
    requires
        dispatch::sched_ok(s),
        lease::held(s.leases, id),
    ensures
        ({
            let ids = dispatch::expired_leases(s, now);
            let after = dispatch::reaped(s, ids, ids.len() as int);
            let l = lease::lease_at(s.leases, id);
            &&& dispatch::sched_ok(after)
            &&& now < l.expires_at ==> {
                &&& lease::held(after.leases, id)
                &&& lease::lease_at(after.leases, id) == l
                &&& after.tree.nodes[l.node_id.0 as int].status == NodeStatus::Assigned
                &&& !after.abandoned.contains(id)
            }
            &&& now >= l.expires_at ==> {
                &&& !lease::held(after.leases, id)
                &&& after.tree.nodes[l.node_id.0 as int].status == NodeStatus::Open
                &&& after.abandoned.contains(id)
            }
        }),
{
    let p = |l: LeaseView| lease::expired(l, now);
    let ids = dispatch::expired_leases(s, now);
    taken_or_left(s, id, p, ids);
}

/// Reaping a worker takes exactly the worker's leases.
pub proof fn reaping_a_worker(s: SchedView, id: u64, worker: u32)
    requires
        dispatch::sched_ok(s),
        lease::held(s.leases, id),
    ensures
        ({
            let ids = dispatch::worker_leases(s, worker);
            let after = dispatch::reaped(s, ids, ids.len() as int);
            let l = lease::lease_at(s.leases, id);
            &&& dispatch::sched_ok(after)
            &&& l.worker_id != worker ==> {
                &&& lease::held(after.leases, id)
                &&& lease::lease_at(after.leases, id) == l
                &&& after.tree.nodes[l.node_id.0 as int].status == NodeStatus::Assigned
                &&& !after.abandoned.contains(id)
            }
            &&& l.worker_id == worker ==> {
                &&& !lease::held(after.leases, id)
                &&& after.tree.nodes[l.node_id.0 as int].status == NodeStatus::Open
                &&& after.abandoned.contains(id)
            }
        }),
{
    let p = |l: LeaseView| l.worker_id == worker;
    let ids = dispatch::worker_leases(s, worker);
    taken_or_left(s, id, p, ids);
}

proof fn taken_or_left(s: SchedView, id: u64, p: spec_fn(LeaseView) -> bool, ids: Seq<u64>)
    requires
        dispatch::sched_ok(s),
        lease::held(s.leases, id),
        ids == lease::lease_ids(s.leases.leases, p),
    ensures
        ({
            let after = dispatch::reaped(s, ids, ids.len() as int);
            let l = lease::lease_at(s.leases, id);
            &&& dispatch::sched_ok(after)
            &&& !p(l) ==> {
                &&& lease::held(after.leases, id)
                &&& lease::lease_at(after.leases, id) == l
                &&& after.tree.nodes[l.node_id.0 as int].status == NodeStatus::Assigned
                &&& !after.abandoned.contains(id)
            }
            &&& p(l) ==> {
                &&& !lease::held(after.leases, id)
                &&& after.tree.nodes[l.node_id.0 as int].status == NodeStatus::Open
                &&& after.abandoned.contains(id)
            }
        }),
{
    let l = lease::lease_at(s.leases, id);
    let n = ids.len() as int;
    let after = dispatch::reaped(s, ids, n);
    lease::lease_ids_facts(s.leases, p);
    dispatch::reaped_keeps_order(s, ids, n);
    reaped_nodes(s, ids, n);
    assert(ids.take(n) =~= ids);
    let at = lease::place_of(s.leases, id);
    assert(s.leases.leases[at] == l && l.lease_id == id);
    if p(l) {
        assert(ids.contains(id));
        let a = choose|a: int| 0 <= a < ids.len() && ids[a] == id;
        assert(!lease::held(after.leases, ids[a]));
        assert(ids.to_set().contains(id));
    } else {
        if ids.contains(id) {
            let a = choose|a: int| 0 <= a < ids.len() && ids[a] == id;
            assert(p(lease::lease_at(s.leases, ids[a])));
        }
        assert(lease::held(after.leases, id) == lease::held(s.leases, id));
        lease_is_known(after, id);
        if after.abandoned.contains(id) {
            assert(!lease::held(after.leases, id));
        }
    }
}

/// Every listed node satisfies the condition, the nodes are listed in order,
/// and so the first one listed is the first one that does.
proof fn first_where(nodes: Seq<NodeView>, p: spec_fn(NodeView) -> bool)
    requires
        forall|i: int| 0 <= i < nodes.len() ==> (#[trigger] nodes[i]).id == NodeId(i as u64),
        nodes.len() <= u64::MAX,
        tree::ids_where(nodes, p).len() > 0,
    ensures
        tree::ids_where(nodes, p)[0].0 < nodes.len(),
        p(nodes[tree::ids_where(nodes, p)[0].0 as int]),
        forall|i: int| 0 <= i < tree::ids_where(nodes, p)[0].0 ==> !p(#[trigger] nodes[i]),
    decreases nodes.len(),
{
    dispatch::ids_where_facts(nodes, p);
    let t = nodes.drop_last();
    assert forall|i: int| 0 <= i < t.len() implies (#[trigger] t[i]).id == NodeId(i as u64) by {
        assert(t[i] == nodes[i]);
    }
    if tree::ids_where(t, p).len() > 0 {
        first_where(t, p);
        let k = tree::ids_where(t, p)[0].0 as int;
        assert(tree::ids_where(nodes, p)[0] == tree::ids_where(t, p)[0]);
        assert forall|i: int| 0 <= i < k implies !p(#[trigger] nodes[i]) by {
            assert(t[i] == nodes[i]);
        }
    } else {
        dispatch::ids_where_facts(t, p);
        assert forall|i: int| 0 <= i < nodes.len() - 1 implies !p(#[trigger] nodes[i]) by {
            assert(t[i] == nodes[i]);
            if p(t[i]) {
                assert(tree::ids_where(t, p).contains(t[i].id));
            }
        }
    }
}

/// Handing out work: the first open node is assigned, and a fresh lease on it
/// carries its cube, the worker and the budget. The lease runs its time:
/// reaping before the time to live is over leaves it with its worker, and
/// reaping from then on opens its node again.
pub proof fn leases_run_their_time(
    s: SchedView,
    worker: u32,
    budget: WorkBudget,
    now: u64,
    later: u64,
)
    requires
        dispatch::sched_ok(s),
        s.tree.nodes.len() <= u64::MAX,
        dispatch::verdict_of(s.tree) == Verdict::Unknown,
        dispatch::open_ids(s.tree).len() > 0,
        s.leases.next_id < u64::MAX,
        now + s.ttl <= u64::MAX,
    ensures
        ({
            let u = dispatch::dispatched(s, worker, budget, now);
            let l = u.leases.leases.last();
            let at = l.node_id.0 as int;
            let ids = dispatch::expired_leases(u, later);
            let after = dispatch::reaped(u, ids, ids.len() as int);
            &&& u.leases.leases == s.leases.leases.push(l)
            &&& !lease::held(s.leases, l.lease_id)
            &&& 0 <= at < s.tree.nodes.len()
            &&& s.tree.nodes[at].status == NodeStatus::Open
            &&& forall|i: int|
                0 <= i < at ==> (#[trigger] s.tree.nodes[i]).status != NodeStatus::Open
            &&& u.tree.nodes[at].status == NodeStatus::Assigned
            &&& forall|i: int|
                0 <= i < s.tree.nodes.len() && i != at ==> #[trigger] u.tree.nodes[i]
                    == s.tree.nodes[i]
            &&& l.worker_id == worker
            &&& l.unit.assumptions == s.tree.nodes[at].cube
            &&& l.unit.problem == s.problem
            &&& l.unit.budget == budget
            &&& later < now + s.ttl ==> lease::owned(after.leases, l.lease_id, worker)
                && after.tree.nodes[at].status == NodeStatus::Assigned
                && !after.abandoned.contains(l.lease_id)
            &&& later >= now + s.ttl ==> !lease::held(after.leases, l.lease_id)
                && after.tree.nodes[at].status == NodeStatus::Open && after.abandoned.contains(
                l.lease_id,
            )
        }),
{
    let u = dispatch::dispatched(s, worker, budget, now);
    let l = u.leases.leases.last();
    let node = dispatch::open_ids(s.tree)[0];
    assert forall|i: int| 0 <= i < s.tree.nodes.len() implies (
    #[trigger] s.tree.nodes[i]).id == NodeId(i as u64) by {
        assert(tree::node_ok(s.tree.nodes, i));
    }
    let p = |n: NodeView| tree::is_open(n);
    first_where(s.tree.nodes, p);
    assert forall|i: int| 0 <= i < node.0 implies (#[trigger] s.tree.nodes[i]).status
        != NodeStatus::Open by {
        assert(!p(s.tree.nodes[i]));
    }
    dispatched_in_order(s, worker, budget, now);
    let at = (u.leases.leases.len() - 1) as int;
    lease::lease_at_is(u.leases, at);
    reaping_follows_deadlines(u, l.lease_id, later);
    if lease::held(s.leases, l.lease_id) {
        let k = lease::place_of(s.leases, l.lease_id);
        assert(s.leases.leases[k].lease_id < s.leases.next_id);
    }
}

/// Dispatching keeps the state in order.
proof fn dispatched_in_order(s: SchedView, worker: u32, budget: WorkBudget, now: u64)
    requires
        dispatch::sched_ok(s),
        s.tree.nodes.len() <= u64::MAX,
        dispatch::verdict_of(s.tree) == Verdict::Unknown,
        dispatch::open_ids(s.tree).len() > 0,
        s.leases.next_id < u64::MAX,
    ensures
        dispatch::sched_ok(dispatch::dispatched(s, worker, budget, now)),
{
    let u = dispatch::dispatched(s, worker, budget, now);
    let node = dispatch::open_ids(s.tree)[0];
    dispatch::next_open(s.tree);
    assert(tree::node_ok(s.tree.nodes, node.0 as int));
    assert(tree::is_leaf(tree::node_at(s.tree, node)));
    tree::status_keeps_order(s.tree, node, NodeStatus::Assigned);
    dispatch::status_verdict(s.tree, node, NodeStatus::Assigned);
    assert(u.leases.leases.drop_last() =~= s.leases.leases);
    dispatch::dispatch_fits(s, node, u);
    assert forall|id: u64| #[trigger] u.abandoned.contains(id) implies id < u.leases.next_id
        && !lease::held(u.leases, id) by {
        assert(s.abandoned.contains(id));
        if lease::held(u.leases, id) {
            let k = lease::place_of(u.leases, id);
            assert(u.leases.leases[k].lease_id == id);
            if k < s.leases.leases.len() {
                assert(s.leases.leases[k].lease_id == id);
                assert(lease::held(s.leases, id));
            }
        }
    }
}

/// Renewing a lease gives it its whole time again, from the moment of renewal,
/// and leaves the others alone.
pub proof fn renewals_start_the_time_again(s: SchedView, id: u64, now: u64, later: u64)
    requires
        dispatch::sched_ok(s),
        lease::held(s.leases, id),
        now + s.ttl <= u64::MAX,
    ensures
        ({
            let u = dispatch::renewed(s, id, now);
            let l = lease::lease_at(s.leases, id);
            let ids = dispatch::expired_leases(u, later);
            let after = dispatch::reaped(u, ids, ids.len() as int);
            &&& u.tree == s.tree
            &&& forall|k: u64|
                k != id && #[trigger] lease::held(s.leases, k) ==> lease::held(u.leases, k)
                    && lease::lease_at(u.leases, k) == lease::lease_at(s.leases, k)
            &&& later < now + s.ttl ==> lease::owned(after.leases, id, l.worker_id)
                && after.tree.nodes[l.node_id.0 as int].status == NodeStatus::Assigned
            &&& later >= now + s.ttl ==> !lease::held(after.leases, id)
                && after.tree.nodes[l.node_id.0 as int].status == NodeStatus::Open
        }),
{
    let u = dispatch::renewed(s, id, now);
    lease::renewal_keeps_order(s.leases, id, (now + s.ttl) as u64);
    dispatch::renewal_fits(s.tree, s.leases, id, (now + s.ttl) as u64);
    assert forall|k: u64| #[trigger] u.abandoned.contains(k) implies k < u.leases.next_id
        && !lease::held(u.leases, k) by {
        assert(s.abandoned.contains(k));
        assert(lease::held(u.leases, k) == lease::held(s.leases, k));
    }
    assert(dispatch::sched_ok(u));
    assert(lease::held(u.leases, id) == lease::held(s.leases, id));
    reaping_follows_deadlines(u, id, later);
    assert forall|k: u64| k != id && #[trigger] lease::held(s.leases, k) implies lease::held(
        u.leases,
        k,
    ) && lease::lease_at(u.leases, k) == lease::lease_at(s.leases, k) by {
        assert(lease::held(u.leases, k) == lease::held(s.leases, k));
    }
}

// ---------------------------------------------------------------------------
// Results
// ---------------------------------------------------------------------------

/// What a result does, whatever it is: the lease is given back, and at most its
/// node changes.
///
/// SAT closes the node, decides the problem and stops everything. UNSAT closes
/// the node, and decides the problem exactly if no other leaf is left. A
/// cancelled node is open again, unless all work was told to stop.
pub proof fn results_decide(s: SchedView, id: u64, result: NodeResult, tripped: bool)
    requires
        dispatch::sched_ok(s),
        lease::held(s.leases, id),
    ensures
        ({
            let at = lease::lease_at(s.leases, id).node_id.0 as int;
            let (u, v) = dispatch::reported(s, id, result, tripped);
            &&& 0 <= at < s.tree.nodes.len()
            &&& !lease::held(u.leases, id)
            &&& u.tree.nodes.len() == s.tree.nodes.len()
            &&& forall|i: int|
                0 <= i < s.tree.nodes.len() && i != at ==> #[trigger] u.tree.nodes[i]
                    == s.tree.nodes[i]
            &&& u.tree.nodes[at].cube == s.tree.nodes[at].cube
            &&& match result {
                NodeResult::Sat => v == Verdict::Sat && u.tree.nodes[at].status
                    == NodeStatus::ClosedSat,
                NodeResult::Unsat => {
                    &&& u.tree.nodes[at].status == NodeStatus::ClosedUnsat
                    &&& v == Verdict::Unsat <==> forall|i: int|
                        0 <= i < u.tree.nodes.len() && (
                        #[trigger] u.tree.nodes[i]).children.len() == 0 ==> u.tree.nodes[i].status
                            == NodeStatus::ClosedUnsat
                    &&& v != Verdict::Sat
                },
                NodeResult::Cancelled => v == Verdict::Unknown && u.tree.nodes[at].status == (
                if tripped {
                    NodeStatus::Assigned
                } else {
                    NodeStatus::Open
                }),
                NodeResult::Split(_) => v == Verdict::Unknown && u.tree == s.tree,
            }
            &&& if v == Verdict::Unknown {
                &&& u.stopped == s.stopped && u.abandoned == s.abandoned
                &&& forall|k: u64|
                    k != id ==> #[trigger] lease::held(u.leases, k) == lease::held(s.leases, k)
            } else {
                &&& u.stopped
                &&& forall|k: u64| !#[trigger] lease::held(u.leases, k)
                &&& forall|k: u64|
                    k != id && #[trigger] lease::held(s.leases, k) ==> u.abandoned.contains(k)
            }
        }),
{
    let at = lease::lease_at(s.leases, id).node_id.0 as int;
    let node = lease::lease_at(s.leases, id).node_id;
    let (u, v) = dispatch::reported(s, id, result, tripped);
    lease_is_known(s, id);
    assert(dispatch::verdict_of(s.tree) == Verdict::Unknown);
    dispatch::fit_after_release(s.tree, s.leases, id, NodeStatus::Open);
    dispatch::status_verdict(s.tree, node, NodeStatus::Open);
    dispatch::status_verdict(s.tree, node, NodeStatus::ClosedUnsat);
    lease::without_keeps_order(s.leases, id);
    let rest = dispatch::released(s, id);
    if v != Verdict::Unknown {
        assert forall|k: u64| k != id && #[trigger] lease::held(
            s.leases,
            k,
        ) implies u.abandoned.contains(k) by {
            assert(lease::held(rest.leases, k) == lease::held(s.leases, k));
            assert(dispatch::outstanding(rest.leases).contains(k));
        }
    }
    if result is Unsat {
        let t = tree::with_status(s.tree, node, NodeStatus::ClosedUnsat);
        assert(u.tree == t);
        if forall|i: int|
            0 <= i < t.nodes.len() && (#[trigger] t.nodes[i]).children.len() == 0
                ==> t.nodes[i].status == NodeStatus::ClosedUnsat {
            assert(tree::unsat_closed(t));
        }
        if tree::unsat_closed(t) {
            assert forall|i: int|
                0 <= i < t.nodes.len() && (#[trigger] t.nodes[i]).children.len()
                    == 0 implies t.nodes[i].status == NodeStatus::ClosedUnsat by {
                assert(tree::is_leaf(t.nodes[i]));
            }
        }
    }
}

// ---------------------------------------------------------------------------
// Splits
// ---------------------------------------------------------------------------

/// A split adds an open child for each literal, whose region is the part of the
/// node's region in which the literal holds; no other node changes.
pub proof fn splits_refine(
    t: TreeView,
    parent: NodeId,
    lits: Seq<Literal>,
    k: int,
    val: logic::Valuation,
)
    requires
        tree::tree_ok(t),
        tree::split_error(t, parent, lits, lits) is None,
        t.nodes.len() + lits.len() <= u64::MAX,
        0 <= k < lits.len(),
    ensures
        ({
            let u = tree::after_split(t, parent, lits);
            let at = parent.0 as int;
            let child = u.nodes[t.nodes.len() + k];
            &&& at < t.nodes.len()
            &&& u.nodes.len() == t.nodes.len() + lits.len()
            &&& forall|i: int|
                0 <= i < t.nodes.len() && i != at ==> #[trigger] u.nodes[i] == t.nodes[i]
            &&& u.nodes[at].cube == t.nodes[at].cube
            &&& u.nodes[at].children.len() == lits.len()
            &&& u.nodes[at].children[k].0 == t.nodes.len() + k
            &&& child.parent == Some(parent)
            &&& child.children.len() == 0
            &&& child.status == NodeStatus::Open
            &&& child.cube.len() == t.nodes[at].cube.len() + 1
            &&& logic::all_hold(val, child.cube) <==> logic::all_hold(val, t.nodes[at].cube)
                && logic::lit_holds(val, lits[k])
            &&& t.max_depth matches Some(d) ==> child.cube.len() <= d
        }),
{
    let u = tree::after_split(t, parent, lits);
    let at = parent.0 as int;
    let child = u.nodes[t.nodes.len() + k];
    assert(child == tree::children_of(t, parent, lits)[k]);
    let cube = t.nodes[at].cube;
    assert(child.cube == cube.push(lits[k]));
    if logic::all_hold(val, child.cube) {
        assert forall|j: int| 0 <= j < cube.len() implies logic::lit_holds(
            val,
            #[trigger] cube[j],
        ) by {
            assert(child.cube[j] == cube[j]);
        }
        assert(child.cube[cube.len() as int] == lits[k]);
    }
    if logic::all_hold(val, cube) && logic::lit_holds(val, lits[k]) {
        assert forall|j: int| 0 <= j < child.cube.len() implies logic::lit_holds(
            val,
            #[trigger] child.cube[j],
        ) by {
            if j < cube.len() {
                assert(child.cube[j] == cube[j]);
            }
        }
    }
}

// ---------------------------------------------------------------------------
// Statistics
// ---------------------------------------------------------------------------

/// Every node is counted once: under its own status.
pub proof fn counts_add_up(nodes: Seq<NodeView>)
    ensures
        dispatch::count_of(nodes, NodeStatus::Open) + dispatch::count_of(
            nodes,
            NodeStatus::Assigned,
        ) + dispatch::count_of(nodes, NodeStatus::ClosedSat) + dispatch::count_of(
            nodes,
            NodeStatus::ClosedUnsat,
        ) + dispatch::count_of(nodes, NodeStatus::Cancelled) == nodes.len(),
        forall|st: NodeStatus|
            #[trigger] dispatch::count_of(nodes, st) == 0 <==> forall|i: int|
                0 <= i < nodes.len() ==> (#[trigger] nodes[i]).status != st,
    decreases nodes.len(),
{
    if nodes.len() > 0 {
        let t = nodes.drop_last();
        counts_add_up(t);
        assert forall|st: NodeStatus|
            #[trigger] dispatch::count_of(nodes, st) == 0 <==> forall|i: int|
                0 <= i < nodes.len() ==> (#[trigger] nodes[i]).status != st by {
            if dispatch::count_of(nodes, st) == 0 {
                assert(dispatch::count_of(t, st) == 0);
                assert forall|i: int| 0 <= i < nodes.len() implies (
                #[trigger] nodes[i]).status != st by {
                    if i < t.len() {
                        assert(t[i].status != st);
                    }
                }
            }
            if forall|i: int| 0 <= i < nodes.len() ==> (#[trigger] nodes[i]).status != st {
                assert forall|i: int| 0 <= i < t.len() implies (#[trigger] t[i]).status != st by {
                    assert(nodes[i].status != st);
                }
                assert(nodes[nodes.len() - 1].status != st);
                assert(dispatch::count_of(t, st) == 0);
            }
        }
    }
}

/// The open nodes that are listed are as many as are counted.
pub proof fn open_nodes_are_counted(t: TreeView)
    ensures
        dispatch::open_ids(t).len() == dispatch::count_of(t.nodes, NodeStatus::Open),
{
    listed_are_counted(t.nodes);
}

proof fn listed_are_counted(nodes: Seq<NodeView>)
    ensures
        tree::ids_where(nodes, |n: NodeView| tree::is_open(n)).len() == dispatch::count_of(
            nodes,
            NodeStatus::Open,
        ),
    decreases nodes.len(),
{
    if nodes.len() > 0 {
        listed_are_counted(nodes.drop_last());
    }
}

/// The statuses that end the life of a leaf, and the leaves that live on.
pub proof fn leaves_live_or_end(n: NodeView)
    ensures
        tree::terminal(n.status) <==> n.status != NodeStatus::Open && n.status
            != NodeStatus::Assigned,
        tree::is_active_leaf(n) <==> n.children.len() == 0 && (n.status == NodeStatus::Open
            || n.status == NodeStatus::Assigned),
{
}

} // verus!
