//! Coverage certificates, leases, the partition tree and the scheduler.

use reasonmesh::akx::literal::Literal;
use reasonmesh::akx::work::{CubePath, Priority, ProblemId, WorkBudget, WorkUnit};
use reasonmesh::scheduler::coverage::{CoverageCertificate, CoverageError};
use reasonmesh::scheduler::dispatch::{NodeResult, Scheduler, Verdict, SECOND};
use reasonmesh::scheduler::error::SchedulerError;
use reasonmesh::scheduler::lease::LeaseStore;
use reasonmesh::scheduler::tree::{NodeId, NodeStatus, PartitionTree};
use std::sync::atomic::Ordering;

#[test]
fn complementary_pair_covers() {
    let cert = CoverageCertificate::tautology(vec![Literal::positive(1), Literal::negative(1)])
        .unwrap();
    assert_eq!(cert.literals.len(), 2);
}

#[test]
fn all_polarities_of_each_var() {
    let cert = CoverageCertificate::tautology(vec![
        Literal::positive(1),
        Literal::negative(1),
        Literal::positive(2),
        Literal::negative(2),
    ])
    .unwrap();
    assert_eq!(cert.literals.len(), 4);
}

#[test]
fn one_complementary_pair_is_enough() {
    let lits = vec![Literal::positive(2), Literal::positive(1), Literal::negative(1)];
    let cert = CoverageCertificate::tautology(lits.clone()).unwrap();
    assert_eq!(cert.literals, lits);
    assert!(cert.verify(&[], &lits).is_ok());
    assert_eq!(
        CoverageCertificate::tautology(vec![Literal::positive(2), Literal::negative(1)]),
        Err(CoverageError::NotCovering)
    );
}

#[test]
fn single_polarity_does_not_cover() {
    assert!(matches!(
        CoverageCertificate::tautology(vec![Literal::positive(1)]),
        Err(CoverageError::NotCovering)
    ));
}

#[test]
fn duplicate_literal_rejected() {
    assert!(matches!(
        CoverageCertificate::tautology(vec![
            Literal::positive(1),
            Literal::positive(1),
            Literal::negative(1),
        ]),
        Err(CoverageError::DuplicateLiteral)
    ));
}

#[test]
fn empty_split_rejected() {
    assert!(matches!(
        CoverageCertificate::tautology(vec![]),
        Err(CoverageError::EmptySplit)
    ));
}

#[test]
fn mismatched_certificate_rejected_on_verify() {
    let cert = CoverageCertificate::tautology(vec![Literal::positive(1), Literal::negative(1)])
        .unwrap();
    assert!(matches!(
        cert.verify(&[], &[Literal::positive(1)]),
        Err(CoverageError::NotCovering)
    ));
}

fn unit(id: u64, assumptions: &[Literal]) -> WorkUnit {
    WorkUnit {
        problem: ProblemId(1),
        assumptions: assumptions.to_vec(),
        ancestry: CubePath::default(),
        priority: Priority(Priority::NORMAL),
        budget: WorkBudget::default(),
        seed: id,
        shutdown: std::sync::Arc::new(std::sync::atomic::AtomicBool::new(false)),
    }
}

#[test]
fn grant_and_renew() {
    let mut store = LeaseStore::new();
    let now: u64 = 1_000;
    let id = store.grant(NodeId(0), 7, unit(1, &[]), 10 * SECOND, now);
    assert!(store.is_owned_by(id, 7));
    assert!(!store.is_owned_by(id, 8));
    store.renew(id, 30 * SECOND, now).unwrap();
    assert!(!store
        .get(id)
        .unwrap()
        .is_expired(now + 20 * SECOND));
}

#[test]
fn expiry_collects_and_releases() {
    let mut store = LeaseStore::new();
    let now: u64 = 1_000;
    let a = store.grant(NodeId(0), 1, unit(1, &[]), 5 * SECOND, now);
    let b = store.grant(NodeId(1), 2, unit(2, &[]), 60 * SECOND, now);

    let expired = store.expired_ids(now + 6 * SECOND);
    assert_eq!(expired, vec![a]);

    let leased = store.release(a).unwrap();
    assert_eq!(leased.node_id, NodeId(0));
    assert_eq!(store.len(), 1);
    assert_eq!(store.get(b).unwrap().worker_id, 2);
}

#[test]
fn renew_unknown_lease_errors() {
    let mut store = LeaseStore::new();
    assert!(matches!(
        store.renew(99, 1 * SECOND, 0),
        Err(SchedulerError::UnknownLease(99))
    ));
}

fn scheduler() -> Scheduler {
    Scheduler::new(ProblemId(1), vec![], None).with_lease_ttl(10 * SECOND)
}

fn budget() -> WorkBudget {
    WorkBudget {
        max_conflicts: 100,
        max_ms: 100,
    }
}

#[test]
fn dispatch_assigns_root() {
    let mut s = scheduler();
    let now: u64 = 1_000;
    let lease = s.dispatch(1, budget(), now).unwrap();
    assert_eq!(lease.node_id, NodeId(0));
    assert_eq!(lease.worker_id, 1);
    assert_eq!(s.verdict(), Verdict::Unknown);
}

#[test]
fn sat_cancels_all() {
    let mut s = scheduler();
    let now: u64 = 1_000;
    let l = s.dispatch(1, budget(), now).unwrap();
    s.on_result(l.lease_id, 1, NodeResult::Sat).unwrap();
    assert_eq!(s.verdict(), Verdict::Sat);
    assert!(s.shutdown_token().load(Ordering::Relaxed));
    assert_eq!(s.leases().len(), 0);
}

#[test]
fn unsat_requires_all_leaves() {
    let mut s = scheduler();
    let now: u64 = 1_000;
    // Split root into x1 / ¬x1.
    let lits = vec![Literal::positive(1), Literal::negative(1)];
    let cert = CoverageCertificate::tautology(lits.clone()).unwrap();
    let l = s.dispatch(1, budget(), now).unwrap();
    let children = s.split(l.lease_id, 1, lits, cert).unwrap();
    assert_eq!(children.len(), 2);

    // Close the first child as UNSAT (dispatch + report).
    let c1 = s.dispatch(2, budget(), now).unwrap();
    assert_eq!(
        s.on_result(c1.lease_id, 2, NodeResult::Unsat).unwrap(),
        Verdict::Unknown
    );

    // Not yet UNSAT: second leaf still open.
    assert_eq!(s.verdict(), Verdict::Unknown);

    let c2 = s.dispatch(3, budget(), now).unwrap();
    let v = s.on_result(c2.lease_id, 3, NodeResult::Unsat).unwrap();
    assert_eq!(v, Verdict::Unsat);
}

#[test]
fn expired_lease_reopens_node() {
    let mut s = scheduler();
    let now: u64 = 1_000;
    let l = s.dispatch(1, budget(), now).unwrap();
    // Worker goes silent past the TTL.
    let later = now + 11 * SECOND;
    let reaped = s.reap_expired(later);
    assert_eq!(reaped, 1);
    assert!(l.work_unit.shutdown.load(Ordering::Relaxed));
    assert_eq!(s.tree().get(NodeId(0)).unwrap().status, NodeStatus::Open);
    // Another worker can take it over.
    let l2 = s.dispatch(2, budget(), later).unwrap();
    assert_eq!(l2.node_id, NodeId(0));
}

#[test]
fn cancelled_releases_and_reopens() {
    let mut s = scheduler();
    let now: u64 = 1_000;
    let l = s.dispatch(1, budget(), now).unwrap();
    s.on_result(l.lease_id, 1, NodeResult::Cancelled).unwrap();
    assert_eq!(s.tree().get(NodeId(0)).unwrap().status, NodeStatus::Open);
}

#[test]
fn lib_wrong_worker_rejected() {
    let mut s = scheduler();
    let now: u64 = 1_000;
    let l = s.dispatch(1, budget(), now).unwrap();
    assert!(matches!(
        s.on_result(l.lease_id, 2, NodeResult::Unsat),
        Err(SchedulerError::LeaseNotOwned(_, _))
    ));
}

#[test]
fn split_with_invalid_coverage_rejected() {
    let mut s = scheduler();
    let now: u64 = 1_000;
    let l = s.dispatch(1, budget(), now).unwrap();
    let bad_lits = vec![Literal::positive(1), Literal::positive(2)];
    let bad_cert = CoverageCertificate::tautology(bad_lits.clone());
    assert!(matches!(bad_cert, Err(CoverageError::NotCovering)));
    // A forged certificate that doesn't match the literals is rejected.
    let cert = CoverageCertificate::tautology(vec![Literal::positive(1), Literal::negative(1)])
        .unwrap();
    assert!(s.split(l.lease_id, 1, bad_lits, cert).is_err());
}

#[test]
fn deep_split_tree() {
    let mut s = scheduler();
    let now: u64 = 1_000;
    let l = s.dispatch(1, budget(), now).unwrap();
    let lits = vec![Literal::positive(1), Literal::negative(1)];
    let cert = CoverageCertificate::tautology(lits.clone()).unwrap();
    let children = s.split(l.lease_id, 1, lits, cert).unwrap();
    // Split child 0 again on x2.
    let c0 = s.dispatch(2, budget(), now).unwrap();
    assert_eq!(c0.node_id, children[0]);
    let lits2 = vec![Literal::positive(2), Literal::negative(2)];
    let cert2 = CoverageCertificate::tautology(lits2.clone()).unwrap();
    s.split(c0.lease_id, 2, lits2, cert2).unwrap();
    assert_eq!(s.stats().nodes, 5);
    assert_eq!(s.stats().splits, 2);
}

#[test]
fn root_is_open() {
    let tree = PartitionTree::new(vec![], None);
    assert_eq!(tree.root(), NodeId(0));
    assert_eq!(tree.get(tree.root()).unwrap().status, NodeStatus::Open);
    assert_eq!(tree.open_nodes(), vec![NodeId(0)]);
}

#[test]
fn split_creates_children_with_extended_cubes() {
    let mut tree = PartitionTree::new(vec![], None);
    let lits = vec![Literal::positive(1), Literal::negative(1)];
    let cert = CoverageCertificate::tautology(lits.clone()).unwrap();
    let children = tree.split(tree.root(), lits.clone(), cert).unwrap();
    assert_eq!(children.len(), 2);
    for (i, c) in children.iter().enumerate() {
        assert_eq!(tree.cube(*c).unwrap(), &[lits[i]]);
        assert_eq!(tree.get(*c).unwrap().status, NodeStatus::Open);
        assert_eq!(tree.get(*c).unwrap().parent, Some(tree.root()));
    }
    // Parent becomes an interior node.
    assert_eq!(tree.get(tree.root()).unwrap().children, children);
    assert_eq!(tree.node_count(), 3);
}

#[test]
fn split_with_invalid_certificate_rejected() {
    let mut tree = PartitionTree::new(vec![], None);
    // literals {x1, x2} do NOT cover the space: both could be false.
    let lits = vec![Literal::positive(1), Literal::positive(2)];
    let cert = CoverageCertificate::tautology(lits.clone());
    assert!(matches!(cert, Err(CoverageError::NotCovering)));
    // A certificate for a *different* covering split must not be
    // accepted for these literals.
    let other =
        CoverageCertificate::tautology(vec![Literal::positive(1), Literal::negative(1)])
            .unwrap();
    assert!(tree.split(tree.root(), lits.clone(), other).is_err());
    // The tree is untouched by the rejected split.
    assert_eq!(tree.get(tree.root()).unwrap().children.len(), 0);
}

#[test]
fn unsat_closure_requires_all_leaves() {
    let mut tree = PartitionTree::new(vec![], None);
    let lits = vec![Literal::positive(1), Literal::negative(1)];
    let cert = CoverageCertificate::tautology(lits.clone()).unwrap();
    let children = tree.split(tree.root(), lits.clone(), cert).unwrap();
    assert!(!tree.is_unsat());

    tree.close(children[0], NodeStatus::ClosedUnsat).unwrap();
    assert!(!tree.is_unsat());

    tree.close(children[1], NodeStatus::ClosedUnsat).unwrap();
    assert!(tree.is_unsat());
    assert!(!tree.is_sat());
}

#[test]
fn sat_closure_from_any_leaf() {
    let mut tree = PartitionTree::new(vec![], None);
    let lits = vec![Literal::positive(1), Literal::negative(1)];
    let cert = CoverageCertificate::tautology(lits.clone()).unwrap();
    let children = tree.split(tree.root(), lits.clone(), cert).unwrap();
    tree.close(children[0], NodeStatus::ClosedSat).unwrap();
    assert!(tree.is_sat());
    assert!(!tree.is_unsat());
}

#[test]
fn cannot_close_interior_node_or_reassign_closed() {
    let mut tree = PartitionTree::new(vec![], None);
    let lits = vec![Literal::positive(1), Literal::negative(1)];
    let cert = CoverageCertificate::tautology(lits.clone()).unwrap();
    tree.split(tree.root(), lits.clone(), cert).unwrap();
    assert!(matches!(
        tree.close(tree.root(), NodeStatus::ClosedSat),
        Err(SchedulerError::NotLeaf(_))
    ));
}

#[test]
fn reopen_after_cancel() {
    let mut tree = PartitionTree::new(vec![], None);
    tree.assign(tree.root()).unwrap();
    tree.close(tree.root(), NodeStatus::Cancelled).unwrap();
    tree.reopen(tree.root()).unwrap();
    assert_eq!(tree.get(tree.root()).unwrap().status, NodeStatus::Open);
}

#[test]
fn depth_limit_blocks_split() {
    let mut tree = PartitionTree::new(vec![], Some(1));
    let lits = vec![Literal::positive(1), Literal::negative(1)];
    let cert = CoverageCertificate::tautology(lits.clone()).unwrap();
    // Root (depth 0) may split to depth 1.
    let children = tree.split(tree.root(), lits.clone(), cert).unwrap();
    // A depth-1 leaf may not split further.
    let cert2 =
        CoverageCertificate::tautology(vec![Literal::positive(2), Literal::negative(2)])
            .unwrap();
    assert!(tree
        .split(
            children[0],
            vec![Literal::positive(2), Literal::negative(2)],
            cert2
        )
        .is_err());
}

#[test]
fn refused_tree_operations() {
    let mut tree = PartitionTree::new(vec![], None);
    let nowhere = NodeId(9);
    assert_eq!(tree.assign(nowhere), Err(SchedulerError::UnknownNode(nowhere)));
    tree.assign(tree.root()).unwrap();
    assert_eq!(tree.assign(tree.root()), Err(SchedulerError::NotOpen(tree.root())));
    assert_eq!(
        tree.close(tree.root(), NodeStatus::Open),
        Err(SchedulerError::InvalidClose(NodeStatus::Open))
    );
    tree.close(tree.root(), NodeStatus::ClosedUnsat).unwrap();
    assert_eq!(
        tree.close(tree.root(), NodeStatus::ClosedSat),
        Err(SchedulerError::AlreadyClosed(tree.root()))
    );
    let mut tree = PartitionTree::new(vec![], Some(0));
    let lits = vec![Literal::positive(1), Literal::negative(1)];
    let cert = CoverageCertificate::tautology(lits.clone()).unwrap();
    assert_eq!(
        tree.split(tree.root(), lits, cert),
        Err(SchedulerError::MaxDepth(NodeId(0)))
    );
}

#[test]
fn leaves_cover_the_root_region() {
    let mut tree = PartitionTree::new(vec![Literal::positive(9)], None);
    let lits = vec![Literal::positive(1), Literal::negative(1)];
    let cert = CoverageCertificate::tautology(lits.clone()).unwrap();
    let children = tree.split(tree.root(), lits, cert).unwrap();
    let lits = vec![Literal::positive(2), Literal::negative(2)];
    let cert = CoverageCertificate::tautology(lits.clone()).unwrap();
    tree.split(children[1], lits, cert).unwrap();
    for mask in 0..4u32 {
        let value = |l: &Literal| match l.var() {
            1 => (mask & 1 == 1) == l.is_positive(),
            2 => (mask & 2 == 2) == l.is_positive(),
            _ => true,
        };
        let inside = tree
            .nodes()
            .iter()
            .filter(|n| n.children.is_empty() && n.cube.iter().all(value))
            .count();
        assert_eq!(inside, 1);
    }
    assert_eq!(tree.active_leaves().len(), 3);
}

#[test]
fn work_comes_in_order_and_runs_out() {
    let mut s = scheduler();
    let l = s.dispatch(1, budget(), 0).unwrap();
    assert!(matches!(s.dispatch(2, budget(), 0), Err(SchedulerError::NoWork)));
    s.on_result(l.lease_id, 1, NodeResult::Unsat).unwrap();
    assert_eq!(s.verdict(), Verdict::Unsat);
    assert!(s.is_finished());
    assert_eq!(s.verdict().name(), "Unsat");
    assert!(matches!(s.dispatch(2, budget(), 0), Err(SchedulerError::Finished(_))));
    assert!(matches!(
        s.on_result(l.lease_id, 1, NodeResult::Unsat),
        Err(SchedulerError::UnknownLease(_))
    ));
}

#[test]
fn renewed_leases_outlive_their_term() {
    let mut s = scheduler();
    let l = s.dispatch(1, budget(), 0).unwrap();
    s.renew_lease(l.lease_id, 1, 8 * SECOND).unwrap();
    assert_eq!(s.reap_expired(11 * SECOND), 0);
    assert!(matches!(
        s.renew_lease(l.lease_id, 2, 9 * SECOND),
        Err(SchedulerError::LeaseNotOwned(_, 2))
    ));
    assert_eq!(s.reap_expired(18 * SECOND), 1);
    assert_eq!(s.leases().len(), 0);
}

#[test]
fn a_lost_worker_gives_its_work_back() {
    let mut s = scheduler();
    let l = s.dispatch(1, budget(), 0).unwrap();
    assert_eq!(s.reap_worker(2), 0);
    assert_eq!(s.reap_worker(1), 1);
    assert_eq!(s.tree().get(l.node_id).unwrap().status, NodeStatus::Open);
    let stats = s.stats();
    assert_eq!((stats.nodes, stats.open, stats.leases_outstanding), (1, 1, 0));
}

#[test]
fn an_undecided_problem_has_work_or_leases() {
    let mut s = scheduler();
    let l = s.dispatch(1, budget(), 0).unwrap();
    assert_eq!((s.verdict(), s.leases().len()), (Verdict::Unknown, 1));
    s.on_result(l.lease_id, 1, NodeResult::Cancelled).unwrap();
    assert_eq!(s.leases().len(), 0);
    assert_eq!(s.tree().open_nodes(), vec![NodeId(0)]);
}

#[test]
fn a_closed_tree_is_satisfied_or_refuted_but_not_both() {
    for (a, b) in [
        (NodeStatus::ClosedSat, NodeStatus::ClosedUnsat),
        (NodeStatus::ClosedUnsat, NodeStatus::ClosedUnsat),
    ] {
        let mut tree = PartitionTree::new(vec![], None);
        let lits = vec![Literal::positive(1), Literal::negative(1)];
        let cert = CoverageCertificate::tautology(lits.clone()).unwrap();
        let children = tree.split(tree.root(), lits, cert).unwrap();
        tree.close(children[0], a).unwrap();
        tree.close(children[1], b).unwrap();
        assert!(tree.is_sat() != tree.is_unsat());
    }
}

#[test]
fn reaping_spares_the_other_units() {
    let mut s = scheduler().with_lease_ttl(10 * SECOND);
    let root = s.dispatch(1, budget(), 0).unwrap();
    let lits = vec![Literal::positive(1), Literal::negative(1)];
    let cert = CoverageCertificate::tautology(lits.clone()).unwrap();
    s.split(root.lease_id, 1, lits, cert).unwrap();
    let a = s.dispatch(1, budget(), 0).unwrap();
    let c = s.dispatch(2, budget(), 5 * SECOND).unwrap();
    assert_eq!(s.reap_expired(11 * SECOND), 1);
    assert!(a.work_unit.is_cancelled());
    assert_eq!(s.tree().get(a.node_id).unwrap().status, NodeStatus::Open);
    assert!(s.leases().get(a.lease_id).is_none());
    assert!(s.leases().get(c.lease_id).is_some());
    assert!(!c.work_unit.is_cancelled());
    assert!(!s.shutdown_token().load(Ordering::Relaxed));
    // The cube is taken over, and a cancelled unit returns it.
    let again = s.dispatch(3, budget(), 11 * SECOND).unwrap();
    assert_eq!(again.node_id, a.node_id);
    assert!(!again.work_unit.is_cancelled());
    s.on_result(again.lease_id, 3, NodeResult::Cancelled).unwrap();
    assert_eq!(s.tree().get(a.node_id).unwrap().status, NodeStatus::Open);
    // Cancelling everything reaches the units in flight.
    s.cancel_all();
    assert!(c.work_unit.is_cancelled());
    assert!(s.shutdown_token().load(Ordering::Relaxed));
    assert_eq!(s.leases().len(), 0);
}

#[test]
fn a_refused_split_keeps_the_lease() {
    let mut s = scheduler();
    let l = s.dispatch(1, budget(), 0).unwrap();
    let lits = vec![Literal::positive(1), Literal::negative(1)];
    let cert = CoverageCertificate::tautology(lits).unwrap();
    let other = vec![Literal::positive(2), Literal::negative(2)];
    assert!(s.split(l.lease_id, 1, other, cert).is_err());
    assert_eq!(s.leases().len(), 1);
    s.on_result(l.lease_id, 1, NodeResult::Unsat).unwrap();
    assert_eq!(s.verdict(), Verdict::Unsat);
}
