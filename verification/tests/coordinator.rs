//! Jobs, tasks and leases of the coordinator.

use reasonmesh::coordinator::job::{build_script, JobStatus, TaskKind, Verdict};
use reasonmesh::coordinator::reply::{
    answer_poll, batch_report, cube_report, remaining_wait, CoordinatorConfig, PollEvent,
    PollReply, MILLISECOND, SECOND,
};
use reasonmesh::coordinator::state::{strip_check_sat, CoordinatorState};

fn state() -> CoordinatorState {
    CoordinatorState::new(30 * SECOND)
}

fn now() -> u64 {
    5 * SECOND
}

// ── Batch (Regime B) ──────────────────────────────────────────────────

#[test]
fn batch_submit_creates_tasks() {
    let mut s = state();
    let scripts = vec!["(check-sat)".into(), "(check-sat)".into()];
    let (job_id, count) = s.submit_batch(scripts, 0);
    assert_eq!(count, 2);
    assert_eq!(s.task_queue.len(), 2);
    assert!(s.batch_jobs.contains_key(&job_id));
    assert_eq!(s.stats().tasks_queued, 2);
}

#[test]
fn batch_pop_and_complete() {
    let mut s = state();
    let (job_id, _) = s.submit_batch(vec!["(check-sat)".into()], 0);

    let task = s.pop_task(1, now()).unwrap();
    assert_eq!(s.task_queue.len(), 0);
    assert_eq!(s.in_flight.len(), 1);

    let (done, new_tasks) = s
        .report_result(task.id, 1, 1, "".into(), None, now())
        .unwrap();
    assert!(done);
    assert_eq!(new_tasks, 0);
    assert_eq!(s.batch_jobs[&job_id].status, JobStatus::Complete);
    assert!(s.in_flight.is_empty());
}

#[test]
fn batch_all_scripts_must_complete() {
    let mut s = state();
    let scripts = vec!["(check-sat)".into(); 3];
    let (job_id, _) = s.submit_batch(scripts, 0);
    let t1 = s.pop_task(1, now()).unwrap();
    let t2 = s.pop_task(2, now()).unwrap();
    let t3 = s.pop_task(3, now()).unwrap();

    let (d, _) = s
        .report_result(t1.id, 1, 1, "".into(), None, now())
        .unwrap();
    assert!(!d);
    let (d, _) = s
        .report_result(t2.id, 2, 1, "".into(), None, now())
        .unwrap();
    assert!(!d);
    let (d, _) = s
        .report_result(t3.id, 3, 1, "".into(), None, now())
        .unwrap();
    assert!(d);
    assert_eq!(s.batch_jobs[&job_id].pending, 0);
}

#[test]
fn state_wrong_worker_rejected() {
    let mut s = state();
    s.submit_batch(vec!["(check-sat)".into()], 0);
    let task = s.pop_task(1, now()).unwrap();
    let err = s.report_result(task.id, 99, 1, "".into(), None, now());
    assert!(err.is_err());
    // Task should still be in-flight.
    assert_eq!(s.in_flight.len(), 1);
}

// ── Cube (Regime A) ───────────────────────────────────────────────────

#[test]
fn cube_submit_one_root_task() {
    let mut s = state();
    let (job_id, count) = s.submit_cube("(check-sat)".into(), 0);
    assert_eq!(count, 1);
    assert_eq!(s.task_queue.len(), 1);
    assert!(s.cube_jobs.contains_key(&job_id));
}

#[test]
fn cube_unsat_single_node() {
    let mut s = state();
    let (job_id, _) = s.submit_cube("(check-sat)".into(), 0);
    let task = s.pop_task(1, now()).unwrap();
    let (done, _) = s
        .report_result(task.id, 1, 1, "".into(), None, now())
        .unwrap();
    assert!(done);
    assert_eq!(s.cube_jobs[&job_id].verdict, Some(Verdict::Unsat));
}

#[test]
fn cube_sat_finishes_immediately() {
    let mut s = state();
    let (job_id, _) = s.submit_cube("(check-sat)".into(), 0);
    let task = s.pop_task(1, now()).unwrap();
    let (done, _) = s
        .report_result(task.id, 1, 0, "x=1".into(), None, now())
        .unwrap();
    assert!(done);
    assert_eq!(s.cube_jobs[&job_id].verdict, Some(Verdict::Sat));
}

#[test]
fn cube_split_creates_children() {
    let mut s = state();
    let (job_id, _) = s.submit_cube("(declare-const x Bool)\n(check-sat)".into(), 100);
    let task = s.pop_task(1, now()).unwrap();

    // Worker splits on x: branch "(assert x)" and "(assert (not x))".
    let split = Some(vec!["(assert x)".into(), "(assert (not x))".into()]);
    let (done, new_count) = s
        .report_result(task.id, 1, 2, "".into(), split, now())
        .unwrap();
    assert!(!done);
    assert_eq!(new_count, 2);
    assert_eq!(s.task_queue.len(), 2);
    assert_eq!(s.cube_jobs[&job_id].nodes.len(), 3); // root + 2 children
}

#[test]
fn cube_split_then_both_unsat() {
    let mut s = state();
    let (job_id, _) = s.submit_cube("(check-sat)".into(), 100);
    let root_task = s.pop_task(1, now()).unwrap();

    // Split root into two branches.
    let split = Some(vec!["(assert true)".into(), "(assert false)".into()]);
    s.report_result(root_task.id, 1, 2, "".into(), split, now())
        .unwrap();

    // Close first child as UNSAT.
    let c1 = s.pop_task(2, now()).unwrap();
    let (d, _) = s
        .report_result(c1.id, 2, 1, "".into(), None, now())
        .unwrap();
    assert!(!d, "second child still open");

    // Close second child as UNSAT → job complete.
    let c2 = s.pop_task(3, now()).unwrap();
    let (d, _) = s
        .report_result(c2.id, 3, 1, "".into(), None, now())
        .unwrap();
    assert!(d, "both children UNSAT → complete");
    assert_eq!(s.cube_jobs[&job_id].verdict, Some(Verdict::Unsat));
}

// ── Lease management ──────────────────────────────────────────────────

#[test]
fn expired_lease_requeues_task() {
    let mut s = state();
    s.submit_batch(vec!["(check-sat)".into()], 0);
    let _ = s.pop_task(1, now());
    assert_eq!(s.in_flight.len(), 1);
    assert_eq!(s.task_queue.len(), 0);

    // Simulate expiry by passing a "now" far in the future.
    let far_future = now() + 9999 * SECOND;
    let requeued = s.reap_expired(far_future);
    assert_eq!(requeued, 1);
    assert_eq!(s.in_flight.len(), 0);
    assert_eq!(s.task_queue.len(), 1);
}

#[test]
fn dead_worker_requeues_tasks() {
    let mut s = state();
    s.submit_batch(vec!["(check-sat)".into(), "(check-sat)".into()], 0);
    s.pop_task(7, now());
    s.pop_task(7, now());
    s.touch_worker(7, now());

    let far_future = now() + 9999 * SECOND;
    let requeued = s.reap_dead_workers(60 * SECOND, far_future);
    assert_eq!(requeued, 2);
    assert_eq!(s.task_queue.len(), 2);
    assert_eq!(s.in_flight.len(), 0);
}

#[test]
fn lease_renewal_extends_deadline() {
    let mut s = state();
    s.submit_batch(vec!["(check-sat)".into()], 0);
    let task = s.pop_task(1, now()).unwrap();

    // Renew succeeds.
    s.renew_lease(task.id, 1, now()).unwrap();

    // Wrong worker is rejected.
    assert!(s.renew_lease(task.id, 99, now()).is_err());
}

// ── Strip (check-sat) ─────────────────────────────────────────────────

#[test]
fn strip_check_sat_removes_suffix() {
    assert_eq!(strip_check_sat("(check-sat)"), "");
    assert_eq!(
        strip_check_sat("(assert true)\n(check-sat)"),
        "(assert true)"
    );
    assert_eq!(strip_check_sat("(assert true)"), "(assert true)");
}

#[test]
fn identifiers_are_distinct_and_hyphenated() {
    let mut s = state();
    let (a, _) = s.submit_batch(vec!["(check-sat)".into()], 0);
    let (b, _) = s.submit_batch(vec!["(check-sat)".into()], 0);
    assert_ne!(a, b);
    // Version and variant of a random identifier.
    assert_eq!((a >> 76) & 0xF, 4);
    assert_eq!((a >> 62) & 3, 2);
    let task = s.pop_task(1, now()).unwrap();
    let id = uuid::Uuid::from_u128(task.id);
    match answer_poll(PollEvent::Permit(Some(task)), 30 * SECOND) {
        PollReply::Work(w) => {
            assert_eq!(w.task_id, id.to_string());
            assert_eq!(w.script, "(check-sat)");
            assert_eq!(w.lease_ttl_ms, 30_000);
        }
        _ => panic!("expected work"),
    }
}

#[test]
fn identifiers_read_as_groups_of_digits() {
    let mut s = state();
    let id = 0x0123_4567_89ab_4def_8123_4567_89ab_cdefu128;
    s.submit_batch_with(id, &vec![id], vec!["(check-sat)".into()], 0);
    let task = s.pop_task(1, now()).unwrap();
    match answer_poll(PollEvent::Permit(Some(task)), SECOND) {
        PollReply::Work(w) => assert_eq!(w.task_id, "01234567-89ab-4def-8123-456789abcdef"),
        _ => panic!("expected work"),
    }
}

#[test]
fn open_nodes_of_a_cube_job() {
    let mut s = state();
    let (id, _) = s.submit_cube("(check-sat)".into(), 0);
    let task = s.pop_task(1, now()).unwrap();
    let split = Some(vec!["(assert true)".into(), "(assert false)".into()]);
    s.report_result(task.id, 1, 2, "".into(), split, now()).unwrap();
    assert_eq!(s.cube_jobs[&id].open_node_ids(), vec![1, 2]);
}

#[test]
fn polls_without_a_task() {
    assert!(matches!(answer_poll(PollEvent::TimedOut, SECOND), PollReply::NoContent));
    assert!(matches!(answer_poll(PollEvent::Closed, SECOND), PollReply::Unavailable));
    assert!(matches!(answer_poll(PollEvent::Permit(None), SECOND), PollReply::Retry));
    assert_eq!(remaining_wait(3 * MILLISECOND, 5 * MILLISECOND), Some(2 * MILLISECOND));
    assert_eq!(remaining_wait(5 * MILLISECOND, 5 * MILLISECOND), None);
}

#[test]
fn job_reports() {
    let mut s = state();
    let (batch, _) = s.submit_batch(vec!["(check-sat)".into(); 2], 0);
    let (cube, _) = s.submit_cube("(check-sat)".into(), 0);
    let t = s.pop_task(1, now()).unwrap();
    s.report_result(t.id, 1, 0, "x=1".into(), None, now()).unwrap();
    let r = batch_report(&s, batch).ok().unwrap();
    assert_eq!((r.status, r.pending), ("running", 1));
    let first = r.results[0].as_ref().unwrap();
    assert_eq!((first.code, first.model.as_str()), (0, "x=1"));
    assert!(r.results[1].is_none());
    let r = cube_report(&s, cube).ok().unwrap();
    assert_eq!(r.nodes, 1);
    assert!(batch_report(&s, cube).is_err());
    assert!(cube_report(&s, batch).is_err());
    assert_eq!(JobStatus::Complete.name(), "complete");
    assert_eq!(Verdict::Unsat.name(), "unsat");
}

#[test]
fn children_solve_their_branch() {
    let mut s = state();
    s.submit_cube("(declare-const x Bool)\n(check-sat)".into(), 100);
    let task = s.pop_task(1, now()).unwrap();
    let split = Some(vec!["(assert x)".into(), "(assert (not x))".into()]);
    s.report_result(task.id, 1, 2, "".into(), split, now()).unwrap();
    let child = s.pop_task(2, now()).unwrap();
    assert_eq!(child.script(), "(declare-const x Bool)\n(assert x)\n(check-sat)\n");
    assert_eq!(child.max_conflicts(), 100);
    assert!(matches!(child.kind, TaskKind::Cube { node_id: 1, .. }));
    assert_eq!(build_script("a", &vec!["b".into()]), "a\nb\n(check-sat)\n");
}

#[test]
fn coordinator_defaults() {
    let c = CoordinatorConfig::default();
    assert_eq!((c.lease_ttl_secs, c.worker_timeout_secs), (30, 60));
}

#[test]
fn requeued_tasks_are_the_ones_that_were_held() {
    let mut s = state();
    s.submit_batch(vec!["a".into(), "b".into(), "c".into()], 0);
    let first = s.pop_task(7, now()).unwrap();
    let second = s.pop_task(8, now()).unwrap();
    s.touch_worker(7, now());
    s.touch_worker(8, now() + 100 * SECOND);
    assert_eq!(s.reap_dead_workers(60 * SECOND, now() + 100 * SECOND), 1);
    assert!(s.in_flight.contains_key(&second.id));
    assert!(!s.in_flight.contains_key(&first.id));
    let scripts: Vec<&str> = s.task_queue.iter().map(|t| t.script()).collect();
    assert_eq!(scripts, vec!["c", "a"]);
    assert_eq!(s.stats().workers_active, 1);
}

#[test]
fn jobs_do_not_touch_each_other() {
    let mut s = state();
    let (a, _) = s.submit_cube("(check-sat)".into(), 0);
    let (b, _) = s.submit_cube("(check-sat)".into(), 0);
    let task = s.pop_task(1, now()).unwrap();
    s.report_result(task.id, 1, 1, "".into(), None, now()).unwrap();
    assert_eq!(s.cube_jobs[&a].verdict, Some(Verdict::Unsat));
    assert_eq!(s.cube_jobs[&b].verdict, None);
    assert!(s.renew_lease(task.id, 1, now()).is_err());
}

#[test]
fn an_unknown_result_queues_the_node_again() {
    let mut s = state();
    let (id, _) = s.submit_cube("(check-sat)".into(), 0);
    let task = s.pop_task(1, now()).unwrap();
    let (done, queued) = s.report_result(task.id, 1, 2, "".into(), None, now()).unwrap();
    assert_eq!((done, queued), (false, 1));
    assert_eq!(s.cube_jobs[&id].open_node_ids(), vec![0]);
    assert_eq!(s.task_queue.len(), 1);
}
