//! The orchestrator, its write-ahead log and the standby.

use reasonmesh::akx::literal::Literal;
use reasonmesh::akx::work::{ProblemId, WorkBudget};
use reasonmesh::orchestrator::primary::{Orchestrator, OrchestratorConfig, OrchestratorError};
use reasonmesh::orchestrator::standby::Standby;
use reasonmesh::orchestrator::wal::{copy_wal, WalEntry};
use reasonmesh::scheduler::coverage::CoverageCertificate;
use reasonmesh::scheduler::dispatch::{NodeResult, Verdict};
use reasonmesh::scheduler::tree::NodeId;

const MILLISECOND: u64 = 1_000_000;

fn budget() -> WorkBudget {
    WorkBudget {
        max_conflicts: 100,
        max_ms: 100,
    }
}

fn cfg() -> OrchestratorConfig {
    OrchestratorConfig {
        heartbeat_timeout: 50 * MILLISECOND,
        lease_ttl: 10_000 * MILLISECOND,
        max_split_depth: None,
    }
}

fn root_split_literals() -> Vec<Literal> {
    vec![Literal::positive(1), Literal::negative(1)]
}

#[test]
fn admit_dispatch_result_sat() {
    let mut o = Orchestrator::new(ProblemId(1), vec![], cfg());
    o.admit_worker(1);
    let lease = o.dispatch(1, budget()).unwrap();
    o.on_result(&lease, 1, NodeResult::Sat).unwrap();
    assert_eq!(o.verdict(), Verdict::Sat);
    // WAL ends with CancelAll after a terminal verdict.
    assert!(matches!(o.wal().last(), Some(WalEntry::CancelAll)));
}

#[test]
fn dispatch_requires_registered_worker() {
    let mut o = Orchestrator::new(ProblemId(1), vec![], cfg());
    assert!(matches!(
        o.dispatch(1, budget()),
        Err(OrchestratorError::UnknownWorker(1))
    ));
}

#[test]
fn stale_worker_is_reaped() {
    let mut o = Orchestrator::new(ProblemId(1), vec![], cfg());
    o.admit_worker_at(1, 0);
    let lease = o.dispatch_at(1, budget(), 0).unwrap();
    // No heartbeats: worker goes stale and is declared dead.
    let dead = o.reap_stale_at(80 * MILLISECOND);
    assert_eq!(dead, vec![1]);
    assert!(o.worker(1).unwrap().dead);
    // Lease was reaped: node back to open, zero outstanding leases.
    assert_eq!(o.lease_count(), 0);
    assert_eq!(o.scheduler().tree().open_nodes(), vec![NodeId(0)]);
    let _ = lease;
}

#[test]
fn heartbeat_keeps_worker_alive() {
    let mut o = Orchestrator::new(ProblemId(1), vec![], cfg());
    o.admit_worker_at(1, 0);
    o.dispatch_at(1, budget(), 0).unwrap();
    // Heartbeat every 20ms keeps the worker alive past the 50ms timeout.
    let mut now: u64 = 0;
    for _ in 0..6 {
        now += 20 * MILLISECOND;
        o.heartbeat_at(1, now);
    }
    assert!(o.reap_stale_at(now).is_empty());
    assert!(o.worker(1).unwrap().is_alive());
}

#[test]
fn worker_failure_recovers_work() {
    let mut o = Orchestrator::new(ProblemId(1), vec![], cfg());
    o.admit_worker_at(1, 0);
    let lease = o.dispatch_at(1, budget(), 0).unwrap();
    let node = lease.node_id;
    // Worker 1 dies; another worker must be able to pick the node up.
    let now = 80 * MILLISECOND;
    o.reap_stale_at(now);
    o.admit_worker_at(2, now);
    let lease2 = o.dispatch_at(2, budget(), now).unwrap();
    assert_eq!(lease2.node_id, node);
}

#[test]
fn split_recorded_in_wal() {
    let mut o = Orchestrator::new(ProblemId(1), vec![], cfg());
    o.admit_worker(1);
    let lease = o.dispatch(1, budget()).unwrap();
    let lits = root_split_literals();
    let cert = CoverageCertificate::tautology(lits.clone()).unwrap();
    let children = o.split(&lease, 1, lits.clone(), cert).unwrap();
    assert_eq!(children.len(), 2);
    assert!(o.wal().iter().any(|e| matches!(e, WalEntry::Split { .. })));
}

#[test]
fn standby_promotes_to_matching_orchestrator() {
    let mut primary = Orchestrator::new(ProblemId(1), vec![], cfg());
    primary.admit_worker(1);
    primary.admit_worker(2);
    let l1 = primary.dispatch(1, budget()).unwrap();
    let lits = root_split_literals();
    let cert = CoverageCertificate::tautology(lits.clone()).unwrap();
    let children = primary.split(&l1, 1, lits, cert).unwrap();

    // Standby mirrors everything.
    let mut standby = Standby::new(ProblemId(1), vec![], cfg());
    standby.append(primary.wal());

    // A dispatch + result on the standby's shadow must replay to the same
    // verdict as the primary.
    let promoted = standby.promote().unwrap();
    assert_eq!(promoted.wal(), primary.wal());

    // Both agree on the current tree shape.
    assert_eq!(
        promoted.scheduler().tree().node_count(),
        primary.scheduler().tree().node_count()
    );
    let _ = children;
}

#[test]
fn standby_catches_up_with_split_and_result() {
    let mut primary = Orchestrator::new(ProblemId(1), vec![], cfg());
    primary.admit_worker(1);
    primary.admit_worker(2);
    let l1 = primary.dispatch(1, budget()).unwrap();
    let lits = root_split_literals();
    let cert = CoverageCertificate::tautology(lits.clone()).unwrap();
    let children = primary.split(&l1, 1, lits, cert).unwrap();

    // Close both children UNSAT.
    let c1 = primary.dispatch(2, budget()).unwrap();
    assert_eq!(c1.node_id, children[0]);
    primary.on_result(&c1, 2, NodeResult::Unsat).unwrap();
    let c2 = primary.dispatch(2, budget()).unwrap();
    assert_eq!(c2.node_id, children[1]);
    primary.on_result(&c2, 2, NodeResult::Unsat).unwrap();
    assert_eq!(primary.verdict(), Verdict::Unsat);

    // Standby replays to the same verdict.
    let mut standby = Standby::new(ProblemId(1), vec![], cfg());
    standby.append(primary.wal());
    let promoted = standby.promote().unwrap();
    assert_eq!(promoted.verdict(), Verdict::Unsat);
    assert_eq!(promoted.lease_count(), 0);
}

#[test]
fn dead_workers_get_no_work_until_admitted_again() {
    let mut o = Orchestrator::new(ProblemId(1), vec![], cfg());
    o.admit_worker_at(1, 0);
    assert_eq!(o.reap_stale_at(60 * MILLISECOND), vec![1]);
    assert!(matches!(
        o.dispatch_at(1, budget(), 60 * MILLISECOND),
        Err(OrchestratorError::DeadWorker(1))
    ));
    assert!(matches!(o.wal().last(), Some(WalEntry::WorkerDead { worker: 1 })));
    o.admit_worker_at(1, 70 * MILLISECOND);
    assert!(o.dispatch_at(1, budget(), 70 * MILLISECOND).is_ok());
}

#[test]
fn refused_operations_name_the_scheduler_error() {
    let mut o = Orchestrator::new(ProblemId(1), vec![], cfg());
    o.admit_worker(1);
    o.admit_worker(2);
    let lease = o.dispatch(1, budget()).unwrap();
    assert!(matches!(
        o.on_result(&lease, 2, NodeResult::Unsat),
        Err(OrchestratorError::Scheduler(_))
    ));
}

#[test]
fn a_recovered_standby_serves_on() {
    let mut primary = Orchestrator::new(ProblemId(1), vec![], cfg());
    primary.admit_worker_at(1, 0);
    primary.dispatch_at(1, budget(), 0).unwrap();
    primary.reap_stale_at(80 * MILLISECOND);
    let mut standby = Standby::new(ProblemId(1), vec![], cfg());
    standby.append(primary.wal());
    assert_eq!(standby.wal_len(), primary.wal().len());
    let promoted = standby.promote().unwrap();
    assert_eq!(promoted.verdict(), Verdict::Unknown);
    assert!(promoted.worker(1).unwrap().dead);
    assert_eq!(promoted.scheduler().tree().open_nodes(), vec![NodeId(0)]);
    assert_eq!(copy_wal(promoted.wal()), copy_wal(primary.wal()));
    assert_eq!(promoted.workers().len(), 1);
}

#[test]
fn the_clock_moves_on() {
    let o = Orchestrator::new(ProblemId(1), vec![], OrchestratorConfig::default());
    let a = o.reading();
    let b = o.reading();
    assert!(a <= b);
}

#[test]
fn refused_operations_leave_the_log_replayable() {
    let mut o = Orchestrator::new(ProblemId(1), vec![], cfg());
    o.admit_worker(1);
    o.admit_worker(2);
    let lease = o.dispatch(1, budget()).unwrap();
    let before = o.wal().len();
    assert!(o.on_result(&lease, 2, NodeResult::Unsat).is_err());
    assert!(o.dispatch(3, budget()).is_err());
    let lits = root_split_literals();
    let cert = CoverageCertificate::tautology(lits.clone()).unwrap();
    assert!(o.split(&lease, 1, vec![Literal::positive(1)], cert).is_err());
    assert_eq!(o.wal().len(), before);
    assert_eq!(o.lease_count(), 1);
    // What is logged is the node that the scheduler granted.
    let mut forged = lease.clone();
    forged.node_id = NodeId(7);
    let cert = CoverageCertificate::tautology(lits.clone()).unwrap();
    assert_eq!(o.split(&forged, 1, lits, cert).unwrap(), vec![NodeId(1), NodeId(2)]);
    assert!(o.on_result(&lease, 1, NodeResult::Sat).is_err());
    let next = o.dispatch(2, budget()).unwrap();
    assert_eq!(o.on_result(&next, 2, NodeResult::Cancelled).unwrap(), Verdict::Unknown);
    let mut standby = Standby::new(ProblemId(1), vec![], cfg());
    standby.append(o.wal());
    let p = standby.promote().unwrap();
    assert_eq!(copy_wal(p.wal()), copy_wal(o.wal()));
    assert_eq!(p.verdict(), o.verdict());
    assert_eq!(p.lease_count(), o.lease_count());
    for id in 0..3u64 {
        let a = o.scheduler().tree().get(NodeId(id)).unwrap();
        let b = p.scheduler().tree().get(NodeId(id)).unwrap();
        assert_eq!((a.parent, a.status, &a.cube), (b.parent, b.status, &b.cube));
    }
}

#[test]
fn a_shutdown_from_outside_is_taken_up_and_logged() {
    let mut o = Orchestrator::new(ProblemId(1), vec![], cfg());
    o.admit_worker(1);
    let lease = o.dispatch(1, budget()).unwrap();
    o.scheduler().shutdown_token().store(true, std::sync::atomic::Ordering::Release);
    assert_eq!(o.on_result(&lease, 1, NodeResult::Cancelled).unwrap(), Verdict::Unknown);
    assert!(matches!(o.wal().last(), Some(WalEntry::CancelAll)));
    assert!(lease.work_unit.is_cancelled());
    assert_eq!(o.lease_count(), 0);
    let mut standby = Standby::new(ProblemId(1), vec![], cfg());
    standby.append(o.wal());
    let p = standby.promote().unwrap();
    let (a, b) = (o.scheduler().tree().get(NodeId(0)), p.scheduler().tree().get(NodeId(0)));
    assert_eq!(a.unwrap().status, b.unwrap().status);
}
