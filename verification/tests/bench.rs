//! Benchmark manifests, runs and scores, and the reports of the command line.

use reasonmesh::akx::literal::Literal;
use reasonmesh::akx::reasoner::{Reasoner, ReasonerEvent, ReasonerId, WorkerId};
use reasonmesh::akx::stats::BusMetrics;
use reasonmesh::akx::work::{CubePath, PartialModel, WorkBudget};
use reasonmesh::api::solver::{SmtAnswer, SmtStatus};
use reasonmesh::bench::manifest::{
    Expected, Manifest, ManifestError, OutputConfig, Problem, SolverConfig,
};
use reasonmesh::bench::result::{KnowledgeMetrics, ManifestRun, ProblemResult, RunSummary};
use reasonmesh::bench::run::{
    aggregate_knowledge_metrics, baseline_outcome, build_sharing_policies, collect_pool_outcome,
    expected_matches, manifest_run, parse_dimacs_verdict, pool_counters, problem_result,
    problem_trace, total_stats, TraceEvent, WorkerOutcome, WorkerStats,
};
use reasonmesh::certify::proof_file::{ProofError, ProofFile};
use reasonmesh::cli::{
    check_proof, effective_workers, failure_report, is_checkable, is_smt_extension, smt_report,
    solve_report, solve_trace, with_companion, SmtFailure, EXIT_INTERNAL_ERROR, EXIT_INVALID,
    EXIT_SAT, EXIT_UNKNOWN, EXIT_UNSAT, EXIT_VALID,
};
use reasonmesh::sat::dimacs::{parse_dimacs, DimacsCnf, DimacsError};
use reasonmesh::sat::instance::{
    build_cdcl_solver, is_loadable, solve_single, InvalidModel, Outcome, RunCounters,
};
use reasonmesh::sat::reasoner::{make_work_unit, CdclReasoner};

fn manifest(workers: u32, sharing: bool, problems: Vec<Problem>) -> Manifest {
    Manifest {
        schema_version: 1,
        name: "test".into(),
        description: String::new(),
        solver: SolverConfig {
            workers,
            seed: 1,
            deterministic: workers == 1,
            clause_sharing: sharing,
            export_min_utility: 0,
            import_min_utility: 0,
            max_conflicts_per_problem: Some(100_000),
            timeout_secs: 30,
        },
        output: OutputConfig { dir: "out".into(), trace: true },
        baselines: vec![],
        problems,
    }
}

fn problem(name: &str, text: &str, expect: Option<Expected>) -> Problem {
    Problem { name: name.into(), file: text.into(), expect }
}

/// Solve a problem, whose file stands for its contents here.
fn solve(m: &Manifest, p: &Problem) -> Result<ProblemResult, DimacsError> {
    let cnf = parse_dimacs(&p.file)?;
    assert!(is_loadable(&cnf));
    let (outcome, counters, knowledge) = if m.solver.workers > 1 {
        let outcomes: Vec<WorkerOutcome> = (0..m.solver.workers).map(|w| work(&cnf, w)).collect();
        let (outcome, _) = collect_pool_outcome(&outcomes, &cnf).unwrap();
        let total = total_stats(&outcomes).unwrap();
        let k = aggregate_knowledge_metrics(&total, &BusMetrics::default());
        (outcome, pool_counters(&total), Some(k))
    } else {
        let run = solve_single(&cnf, m.solver.budget(), None, false).unwrap();
        (run.outcome, run.counters, None)
    };
    Ok(problem_result(&m.solver, p, outcome, counters, 1_000, knowledge, vec![], None))
}

/// One worker on its own.
fn work(cnf: &DimacsCnf, worker: u32) -> WorkerOutcome {
    let unit = make_work_unit(1, Vec::new(), 1, WorkBudget::default());
    let solver = build_cdcl_solver(cnf, false);
    let mut r = CdclReasoner::new(ReasonerId(worker), WorkerId(worker), solver, unit);
    let budget = WorkBudget { max_conflicts: 100_000, max_ms: 0 };
    let event = r.step(budget).unwrap();
    let (conflicts, propagations, restarts, decisions) = r.solver().search_counters();
    let stats = WorkerStats { conflicts, decisions, propagations, restarts, ..no_stats() };
    match event {
        ReasonerEvent::SatCandidate { model } => WorkerOutcome::Sat {
            model: PartialModel {
                assignments: model.assignments.clone(),
                work_unit_ancestry: CubePath::default(),
            },
            stats,
        },
        ReasonerEvent::UnsatLocal { .. } => WorkerOutcome::Unsat { stats },
        _ => WorkerOutcome::Aborted { stats },
    }
}

fn no_stats() -> WorkerStats {
    WorkerStats {
        conflicts: 0,
        decisions: 0,
        propagations: 0,
        restarts: 0,
        exported: 0,
        published: 0,
        received: 0,
        applied: 0,
        buffered: 0,
        discarded: 0,
    }
}

fn run(m: &Manifest) -> Result<ManifestRun, DimacsError> {
    let mut results = Vec::new();
    for p in &m.problems {
        results.push(solve(m, p)?);
    }
    assert!(RunSummary::fits(m.problems.len(), &results, m.solver.timeout_ns()));
    Ok(manifest_run(m, "0.1.0".into(), None, 5_000, results))
}

/// PHP(2,2): 2 pigeons in 2 holes, satisfiable.
fn php_sat_dimacs() -> &'static str {
    "p cnf 4 4\n1 3 0\n2 4 0\n-1 -2 0\n-3 -4 0\n"
}

/// PHP(3,2): 3 pigeons in 2 holes, unsatisfiable.
fn php_unsat_dimacs() -> &'static str {
    "p cnf 6 9\n1 4 0\n2 5 0\n3 6 0\n-1 -2 0\n-1 -3 0\n-2 -3 0\n-4 -5 0\n-4 -6 0\n-5 -6 0\n"
}

#[test]
fn runs_sat_and_unsat_with_validation() {
    let m = manifest(
        1,
        true,
        vec![
            problem("sat-p", "p cnf 3 2\n1 2 3 0\n-1 -2 -3 0\n", Some(Expected::Sat)),
            problem(
                "unsat-p",
                "p cnf 2 4\n1 2 0\n1 -2 0\n-1 2 0\n-1 -2 0\n",
                Some(Expected::Unsat),
            ),
        ],
    );
    let run = run(&m).unwrap();
    assert_eq!(run.problems.len(), 2);
    assert_eq!(run.problems[0].outcome, Outcome::Sat);
    assert!(run.problems[0].matches_expected);
    assert_eq!(run.problems[1].outcome, Outcome::Unsat);
    assert!(run.problems[1].matches_expected);
    assert_eq!(run.summary.solved, 2);
    assert_eq!(run.summary.unsolved, 0);
    assert_eq!(run.problems[0].name, "sat-p");
    assert_eq!(run.git_revision, "unknown");
    assert_eq!(run.schema_version, 1);
}

#[test]
fn penalizes_unsolved_in_par_scores() {
    // Empty clause => instantly UNSAT.
    let m = manifest(1, true, vec![problem("empty-p", "p cnf 1 1\n0\n", None)]);
    let run = run(&m).unwrap();
    assert_eq!(run.summary.solved, 1);
    let par2 = run.summary.par2_ns;
    let par10 = run.summary.par10_ns;
    assert!(par2 >= run.summary.solved_total_ns);
    assert!(par10 >= par2);
}

#[test]
fn aborts_on_invalid_dimacs() {
    // Out-of-range literal -> parse error.
    let m = manifest(1, true, vec![problem("bad-p", "p cnf 1 1\n5 0\n", None)]);
    assert!(matches!(run(&m), Err(DimacsError::VarOutOfRange { .. })));
}

#[test]
fn multi_worker_finds_sat_with_validation() {
    let m = manifest(2, true, vec![problem("php-sat", php_sat_dimacs(), Some(Expected::Sat))]);
    let run = run(&m).unwrap();
    assert_eq!(run.problems[0].outcome, Outcome::Sat);
    assert!(run.problems[0].matches_expected);
    // Aggregated search counters are non-trivial (some worker searched).
    let p = &run.problems[0];
    assert!(
        p.conflicts > 0 || p.decisions > 0,
        "expected some search activity from the pool"
    );
}

#[test]
fn multi_worker_proves_unsat() {
    let m = manifest(3, true, vec![problem("php-unsat", php_unsat_dimacs(), Some(Expected::Unsat))]);
    let run = run(&m).unwrap();
    assert_eq!(run.problems[0].outcome, Outcome::Unsat);
    assert!(run.problems[0].matches_expected);
}

#[test]
fn isolated_portfolio_is_correct() {
    let m = manifest(
        2,
        false,
        vec![problem("php-isolated-sat", php_sat_dimacs(), Some(Expected::Sat))],
    );
    let (export, import) = build_sharing_policies(&m.solver);
    assert_eq!((export.max_items, import.max_items), (0, 0));
    let run = run(&m).unwrap();
    assert_eq!(run.problems[0].outcome, Outcome::Sat);
    assert!(run.problems[0].matches_expected);
    let k = run.problems[0]
        .knowledge
        .as_ref()
        .expect("multi-worker runs report knowledge metrics");
    assert_eq!(
        (
            k.exported,
            k.published,
            k.received,
            k.applied,
            k.buffered,
            k.discarded
        ),
        (0, 0, 0, 0, 0, 0),
        "isolated portfolio must not exchange knowledge"
    );
    assert_eq!(k.bus_published, 0);
}

#[test]
fn sharing_run_reports_knowledge_metrics() {
    let m = manifest(
        2,
        true,
        vec![problem("php-sharing-sat", php_sat_dimacs(), Some(Expected::Sat))],
    );
    let run = run(&m).unwrap();
    assert_eq!(run.problems[0].outcome, Outcome::Sat);
    assert!(
        run.problems[0].knowledge.is_some(),
        "sharing runs must report knowledge-exchange metrics"
    );
}

#[test]
fn parse_dimacs_verdict_recognises_sat_and_unsat() {
    assert_eq!(
        parse_dimacs_verdict("s SATISFIABLE\nv 1 -2 0\n"),
        Outcome::Sat
    );
    assert_eq!(parse_dimacs_verdict("s UNSATISFIABLE\n"), Outcome::Unsat);
    assert_eq!(parse_dimacs_verdict("SAT\n"), Outcome::Sat);
    assert_eq!(parse_dimacs_verdict("UNSAT\n"), Outcome::Unsat);
    assert_eq!(parse_dimacs_verdict(""), Outcome::Unknown);
    assert_eq!(parse_dimacs_verdict("error: timeout\n"), Outcome::Unknown);
}

#[test]
fn rejects_old_schema() {
    let old = Manifest { schema_version: 0, ..manifest(1, true, vec![]) };
    let err = old.checked().unwrap_err();
    assert!(matches!(
        err,
        ManifestError::SchemaVersion {
            found: 0,
            expected: 1
        }
    ));
    assert!(manifest(1, true, vec![]).checked().is_ok());
}

#[test]
fn defaults_fill_solver_and_output() {
    let solver = SolverConfig::default();
    let output = OutputConfig::default();
    assert_eq!(solver.timeout_secs, 300);
    assert_eq!(solver.max_conflicts_per_problem, Some(100_000));
    assert_eq!(output.dir, "results");
    assert!(solver.clause_sharing);
    assert_eq!(solver.export_min_utility, 250_000_000);
    assert_eq!(solver.import_min_utility, 143_000_000);
    assert!(!output.trace);
}

#[test]
fn scores_of_solved_and_unsolved_problems() {
    let solver = SolverConfig { timeout_secs: 2, ..SolverConfig::default() };
    let counters = RunCounters { conflicts: 1, decisions: 2, propagations: 3, restarts: 4 };
    let p = problem("p", "", Some(Expected::Unsat));
    let result = |outcome, wall| {
        problem_result(&solver, &p, outcome, counters, wall, None, vec![], None)
    };
    let results = [
        result(Outcome::Sat, 500),
        result(Outcome::Unknown, 2_000_000_000),
        result(Outcome::Unsat, 700),
    ];
    assert!(results[1].timed_out && !results[0].timed_out);
    assert!(results[2].matches_expected && !results[0].matches_expected);
    assert_eq!(results[0].restarts, 4);
    let s = RunSummary::compute(4, &results, solver.timeout_ns());
    assert_eq!((s.problems, s.solved, s.unsolved), (4, 2, 2));
    assert_eq!(s.solved_total_ns, 1_200);
    assert_eq!(s.par2_ns, 1_200 + 2 * 2 * 2_000_000_000);
    assert_eq!(s.par10_ns, 1_200 + 10 * 2 * 2_000_000_000);
    assert!(!RunSummary::fits(4, &results, u128::MAX));
}

#[test]
fn pools_report_the_first_model_they_find() {
    let cnf = parse_dimacs("p cnf 2 1\n1 2 0\n").unwrap();
    let sat = |values: Vec<Option<bool>>| WorkerOutcome::Sat {
        model: PartialModel {
            assignments: values,
            work_unit_ancestry: CubePath::default(),
        },
        stats: WorkerStats { conflicts: 2, ..no_stats() },
    };
    let unsat = || WorkerOutcome::Unsat { stats: WorkerStats { conflicts: 3, ..no_stats() } };
    let good = sat(vec![None, Some(false), Some(true)]);
    let (o, m) = collect_pool_outcome(&[unsat(), good], &cnf).unwrap();
    assert_eq!((o, m), (Outcome::Sat, Some(vec![false, false, true])));
    assert_eq!(collect_pool_outcome(&[sat(vec![None])], &cnf), Err(InvalidModel));
    let (o, m) = collect_pool_outcome(&[unsat()], &cnf).unwrap();
    assert_eq!((o, m), (Outcome::Unsat, None));
    let (o, _) = collect_pool_outcome(&[], &cnf).unwrap();
    assert_eq!(o, Outcome::Unknown);
    let total = total_stats(&[unsat(), sat(vec![])]).unwrap();
    assert_eq!(total.conflicts, 5);
    let much = || WorkerOutcome::Aborted {
        stats: WorkerStats { applied: u64::MAX, ..no_stats() },
    };
    assert!(total_stats(&[much(), much()]).is_none());
    let bus = BusMetrics { published_total: 4, evicted: 1, ..BusMetrics::default() };
    let k: KnowledgeMetrics = aggregate_knowledge_metrics(
        &WorkerStats { exported: 9, discarded: 2, ..no_stats() },
        &bus,
    );
    assert_eq!((k.exported, k.discarded, k.bus_published, k.bus_evicted), (9, 2, 4, 1));
}

#[test]
fn sharing_follows_the_manifest() {
    let solver = SolverConfig { export_min_utility: 7, import_min_utility: 8, ..SolverConfig::default() };
    let (export, import) = build_sharing_policies(&solver);
    assert_eq!((export.min_utility, export.max_items), (7, 256));
    assert_eq!((import.min_utility, import.max_items), (8, 512));
}

#[test]
fn verdicts_of_baselines() {
    assert_eq!(baseline_outcome(true, "s SATISFIABLE\n"), Outcome::Unknown);
    assert_eq!(baseline_outcome(false, "c x\n  S Satisfiable \r\n"), Outcome::Sat);
    assert!(expected_matches(None, Outcome::Unknown));
    assert!(!expected_matches(Some(Expected::Sat), Outcome::Unknown));
    assert_eq!((Expected::Sat.name(), Expected::Unsat.name()), ("SAT", "UNSAT"));
}

#[test]
fn traces_of_a_problem() {
    let c = RunCounters { conflicts: 1, decisions: 2, propagations: 3, restarts: 4 };
    let t = problem_trace(Outcome::Sat, c, Some(&vec![false, true, true]));
    assert_eq!(t.len(), 4);
    assert!(matches!(&t[0], TraceEvent::Phase { name } if name == "root"));
    assert!(matches!(t[1], TraceEvent::SearchSummary { counters } if counters == c));
    assert!(matches!(t[2], TraceEvent::ModelFragment { size: 2 }));
    assert!(matches!(t[3], TraceEvent::RunFinished { outcome: Outcome::Sat }));
    assert_eq!(problem_trace(Outcome::Unsat, c, None).len(), 3);
    assert_eq!(solve_trace(Outcome::Unknown, c).len(), 3);
}

#[test]
fn reports_of_a_solve() {
    let cnf = parse_dimacs("p cnf 2 2\n1 0\n-2 0\n").unwrap();
    let r = solve_report(&cnf, None, true).unwrap();
    assert_eq!((r.code, r.outcome), (EXIT_SAT, Outcome::Sat));
    assert_eq!(r.output, "s SATISFIABLE\nv  1\nv - 2\n");
    let pf = ProofFile::parse(&r.certificate.unwrap()).unwrap();
    assert!(is_checkable(&pf));
    let (code, message) = check_proof(&pf);
    assert_eq!(code, EXIT_VALID);
    assert_eq!(message.unwrap(), "VALID SAT model (2 vars, 2 clauses)\n");

    let cnf = parse_dimacs(php_unsat_dimacs()).unwrap();
    let r = solve_report(&cnf, None, true).unwrap();
    assert_eq!((r.code, r.output.as_str()), (EXIT_UNSAT, "s UNSATISFIABLE\n"));
    let pf = ProofFile::parse(&r.certificate.unwrap()).unwrap();
    let (code, message) = check_proof(&pf);
    assert_eq!(code, EXIT_VALID);
    assert!(message.unwrap().starts_with("VALID UNSAT proof (6 vars, 9 clauses, "));

    let r = solve_report(&cnf, Some(0), true).unwrap();
    assert_eq!((r.code, r.output.as_str()), (EXIT_UNKNOWN, "s UNKNOWN\n"));
    assert!(r.certificate.is_none());
    assert!(solve_report(&cnf, None, false).unwrap().certificate.is_none());
}

#[test]
fn invalid_proofs_are_refused() {
    let pf = ProofFile::parse("p cnf 1 1\n1 0\ns SAT\nv -1 0\n").unwrap();
    let (code, message) = check_proof(&pf);
    assert_eq!(code, EXIT_INVALID);
    assert!(matches!(message, Err(ProofError::BadModel)));
    let pf = ProofFile::parse("p cnf 1 2\n1 0\n-1 0\ns UNSAT\n").unwrap();
    let (code, message) = check_proof(&pf);
    assert_eq!(code, EXIT_INVALID);
    assert!(matches!(message, Err(ProofError::UnsatNotSupported)));
}

#[test]
fn omitted_clauses_come_from_the_companion() {
    let cnf = parse_dimacs("p cnf 1 2\n1 0\n-1 0\n").unwrap();
    let pf = ProofFile::parse("p cnf 1 2\ns UNSAT\nd 0\n").unwrap();
    assert_eq!(check_proof(&pf).0, EXIT_INVALID);
    let pf = with_companion(pf, cnf.clone());
    assert_eq!(pf.clauses, cnf.clauses);
    assert_eq!(check_proof(&pf).0, EXIT_VALID);
    let own = ProofFile::parse("p cnf 1 1\n1 0\ns SAT\nv 1 0\n").unwrap();
    let kept = with_companion(own, cnf);
    assert_eq!(kept.clauses, vec![vec![1]]);
    assert_eq!(check_proof(&kept).0, EXIT_VALID);
}

#[test]
fn reports_of_the_theory_solver() {
    let sat = SmtAnswer {
        status: SmtStatus::Sat,
        values: vec![("x".into(), "#b1".into()), ("y".into(), "true".into())],
    };
    let (code, text, events) = smt_report(&sat);
    assert_eq!(code, EXIT_SAT);
    assert_eq!(
        text,
        "s SATISFIABLE\n(model\n  (define-fun x () #b1)\n  (define-fun y () true)\n)\n"
    );
    assert_eq!(events.len(), 2);
    let unsat = SmtAnswer { status: SmtStatus::Unsat, values: vec![] };
    assert_eq!(smt_report(&unsat).1, "s UNSATISFIABLE\n");
    let (code, text) = failure_report(&SmtFailure::UnsupportedLogic("QF_LRA".into()));
    assert_eq!(code, EXIT_UNKNOWN);
    assert_eq!(text, "error: logic QF_LRA is not supported yet (QF_BV only)\n");
    let (code, text) = failure_report(&SmtFailure::Invalid("eof".into()));
    assert_eq!((code, text.as_str()), (EXIT_INTERNAL_ERROR, "error: invalid SMT-LIB input: eof\n"));
    assert_eq!(failure_report(&SmtFailure::Other("x".into())).1, "error: x\n");
}

#[test]
fn command_line_rules() {
    assert!(is_smt_extension(Some("smt2")) && is_smt_extension(Some("smt")));
    assert!(!is_smt_extension(Some("cnf")) && !is_smt_extension(None));
    assert_eq!((effective_workers(8, true), effective_workers(8, false)), (1, 8));
    assert_eq!(Literal::positive(1).var(), 1);
}

#[test]
fn a_conclusion_is_within_the_budget() {
    let cnf = parse_dimacs("p cnf 2 4\n1 2 0\n1 -2 0\n-1 2 0\n-1 -2 0\n").unwrap();
    let r = solve_report(&cnf, Some(0), false).unwrap();
    assert_eq!((r.code, r.outcome), (EXIT_UNKNOWN, Outcome::Unknown));
    let events = solve_trace(r.outcome, r.counters);
    assert_eq!(events.len(), 3);
    assert!(matches!(&events[0], TraceEvent::Phase { name } if name == "root"));
    assert!(matches!(&events[1], TraceEvent::SearchSummary { .. }));
    assert!(matches!(&events[2], TraceEvent::RunFinished { outcome: Outcome::Unknown }));
    let r = solve_report(&cnf, None, false).unwrap();
    assert_eq!((r.code, r.outcome), (EXIT_UNSAT, Outcome::Unsat));
}

#[test]
fn the_certificate_of_an_empty_clause_is_accepted() {
    let cnf = parse_dimacs("p cnf 1 2\n1 0\n0\n").unwrap();
    let r = solve_report(&cnf, None, true).unwrap();
    assert_eq!(r.code, EXIT_UNSAT);
    let pf = ProofFile::parse(&r.certificate.unwrap()).unwrap();
    assert_eq!(pf.clauses, cnf.clauses);
    assert_eq!(check_proof(&pf).0, EXIT_VALID);
}
