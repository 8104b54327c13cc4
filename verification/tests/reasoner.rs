//! The reasoner around the solver.

use reasonmesh::akx::knowledge::{
    ClauseKnowledge, KnowledgeId, KnowledgeKind, KnowledgeKindTag, KnowledgeObject, Scope,
    TrustLevel,
};
use reasonmesh::akx::literal::Literal;
use reasonmesh::akx::litvec::LitVec;
use reasonmesh::akx::policy::ExportPolicy;
use reasonmesh::akx::reasoner::{Reasoner, ReasonerEvent, ReasonerId, WorkerId};
use reasonmesh::akx::stop::Stop;
use reasonmesh::akx::work::{WorkBudget, WorkUnit};
use reasonmesh::sat::cdcl::{CdclSolver, SolveResult};
use reasonmesh::sat::reasoner::{make_work_unit, utility_of, CdclReasoner};


/// The pigeonhole problem PHP(3,2): 3 pigeons in 2 holes is UNSAT — the
/// classic hard-ish instance. Variables x1..x3 = hole 1, x4..x6 = hole 2.
fn php_unsat() -> CdclSolver {
    let mut s = CdclSolver::new(6);
    // Each pigeon must have a hole: x1∨x4, x2∨x5, x3∨x6
    s.add_clause(&[Literal::positive(1), Literal::positive(4)]);
    s.add_clause(&[Literal::positive(2), Literal::positive(5)]);
    s.add_clause(&[Literal::positive(3), Literal::positive(6)]);
    // No two pigeons in hole 1: ¬x1∨¬x2, ¬x1∨¬x3, ¬x2∨¬x3
    s.add_clause(&[Literal::negative(1), Literal::negative(2)]);
    s.add_clause(&[Literal::negative(1), Literal::negative(3)]);
    s.add_clause(&[Literal::negative(2), Literal::negative(3)]);
    // No two pigeons in hole 2: ¬x4∨¬x5, ¬x4∨¬x6, ¬x5∨¬x6
    s.add_clause(&[Literal::negative(4), Literal::negative(5)]);
    s.add_clause(&[Literal::negative(4), Literal::negative(6)]);
    s.add_clause(&[Literal::negative(5), Literal::negative(6)]);
    s
}

/// PHP(2,2): 2 pigeons in 2 holes is satisfiable. x1,x2 = hole 1;
/// x3,x4 = hole 2.
fn php_sat() -> CdclSolver {
    let mut s = CdclSolver::new(4);
    s.add_clause(&[Literal::positive(1), Literal::positive(3)]);
    s.add_clause(&[Literal::positive(2), Literal::positive(4)]);
    s.add_clause(&[Literal::negative(1), Literal::negative(2)]);
    s.add_clause(&[Literal::negative(3), Literal::negative(4)]);
    s
}

fn work(assumptions: Vec<Literal>) -> WorkUnit {
    make_work_unit(
        1,
        assumptions,
        7,
        WorkBudget {
            max_conflicts: 1000,
            max_ms: 500,
        },
    )
}

#[test]
fn step_finds_sat_model() {
    let mut r = CdclReasoner::new(ReasonerId(0), WorkerId(0), php_sat(), work(vec![]));
    let ev = r.step(WorkBudget::default()).unwrap();
    match ev {
        ReasonerEvent::SatCandidate { model } => {
            assert!(model.is_complete());
            for v in 1..=4u32 {
                assert!(model.get(v).is_some());
            }
        }
        _ => panic!("expected SatCandidate"),
    }
}

#[test]
fn step_reports_unsat_under_contradictory_assumptions() {
    // Force x1=true and ¬x1: immediately UNSAT at the assumption boundary.
    let mut r = CdclReasoner::new(
        ReasonerId(0),
        WorkerId(1),
        php_sat(),
        work(vec![Literal::positive(1), Literal::negative(1)]),
    );
    let ev = r.step(WorkBudget::default()).unwrap();
    match ev {
        ReasonerEvent::UnsatLocal { proof_ref } => assert!(proof_ref.is_none()),
        _ => panic!("expected UnsatLocal"),
    }
}

#[test]
fn budget_exhausted_when_conflicts_run_out() {
    // Zero conflict budget on an UNSAT formula: the solver can never finish
    // in 0 conflicts, and max_ms = 0 forces a wall-clock stop too.
    let mut r = CdclReasoner::new(ReasonerId(0), WorkerId(2), php_unsat(), work(vec![]));
    let ev = r
        .step(WorkBudget {
            max_conflicts: 0,
            max_ms: 0,
        })
        .unwrap();
    assert!(matches!(ev, ReasonerEvent::BudgetExhausted));
}

#[test]
fn learned_clauses_are_exported_with_ctx_and_filtered_by_watermark() {
    // UNSAT formula, capped budget: the solver is guaranteed to hit the
    // conflict budget before concluding, learning clauses along the way.
    let mut r = CdclReasoner::new(ReasonerId(0), WorkerId(4), php_unsat(), work(vec![]));
    let _ = r
        .step(WorkBudget {
            max_conflicts: 100,
            max_ms: 0,
        })
        .unwrap();

    // drain_and_export() performs the lazy drain from the solver's outbox
    // and then applies the policy filter in one pass.
    let batch = r.drain_and_export(&ExportPolicy::default());
    assert!(!batch.is_empty());
    // Everything exported carries ctx assumptions (or fewer).
    for obj in &batch {
        assert!(matches!(obj.kind, KnowledgeKind::Clause(_)));
        assert!(obj
            .assumptions
            .as_slice()
            .iter()
            .all(|l| r.gate().context().literals().contains(l)));
    }

    // Re-export with the watermark past everything: the outbox is empty
    // (already drained above) and pending is now empty too.
    let max_id = batch.iter().map(|o| o.id.0).max().map(KnowledgeId).unwrap();
    let empty = r.drain_and_export(&ExportPolicy {
        watermark: max_id,
        ..ExportPolicy::default()
    });
    assert!(empty.is_empty());
}

#[test]
fn import_applies_unconditional_and_ctx_subset_clauses() {
    let mut r = CdclReasoner::new(ReasonerId(0), WorkerId(5), php_sat(), work(vec![]));

    // Unconditional clause: x4 ∨ ¬x1 — always applicable (ctx = ∅).
    let unconditional = KnowledgeObject {
        id: KnowledgeId(9001),
        kind: KnowledgeKind::Clause(ClauseKnowledge {
            literals: LitVec::from_slice(&[Literal::positive(4), Literal::negative(1)]),
            lbd: 2,
        }),
        assumptions: LitVec::from_slice(&[]),
        scope: Scope::Process,
        trust: TrustLevel::Trusted,
        utility: 500_000_000,
        proof_ref: None,
        source: 99,
    };

    let stats = r.import(vec![unconditional]).unwrap();
    assert_eq!(stats.received, 1);
    assert_eq!(stats.applied, 1);
    assert_eq!(stats.buffered, 0);

    let cp = r.checkpoint().unwrap().unwrap();
    assert_eq!(cp.knowledge_watermark, KnowledgeId(9001));
}

#[test]
fn import_defers_out_of_context_knowledge() {
    // Worker assumes {x1}; the object is conditional on {x5} → no overlap.
    let mut r = CdclReasoner::new(
        ReasonerId(0),
        WorkerId(6),
        php_sat(),
        work(vec![Literal::positive(1)]),
    );

    let conditional = KnowledgeObject {
        id: KnowledgeId(42),
        kind: KnowledgeKind::Clause(ClauseKnowledge {
            literals: LitVec::from_slice(&[Literal::negative(2)]),
            lbd: 2,
        }),
        assumptions: LitVec::from_slice(&[Literal::positive(5)]),
        scope: Scope::Process,
        trust: TrustLevel::Trusted,
        utility: 500_000_000,
        proof_ref: None,
        source: 7,
    };

    let stats = r.import(vec![conditional]).unwrap();
    assert_eq!(stats.discarded_no_overlap, 1);
    assert_eq!(stats.applied, 0);
    assert_eq!(r.gate().buffer_len(), 0);
}

#[test]
fn capabilities_declare_clause_io() {
    let r = CdclReasoner::new(ReasonerId(0), WorkerId(7), php_sat(), work(vec![]));
    let c = r.capabilities();
    assert!(c.is_complete);
    assert!(c.can_produce.as_slice().contains(&KnowledgeKindTag::Clause));
    assert!(c.can_consume.as_slice().contains(&KnowledgeKindTag::Clause));
}

#[test]
fn utility_falls_with_lbd() {
    assert_eq!(utility_of(0), 1_000_000_000);
    assert_eq!(utility_of(1), 500_000_000);
    assert_eq!(utility_of(3), 250_000_000);
    assert_eq!(utility_of(6), 142_857_142);
}

#[test]
fn a_cancelled_unit_is_not_worked_on() {
    let unit = work(vec![]);
    assert!(!unit.is_cancelled());
    let watcher = unit.clone();
    let mut r = CdclReasoner::new(ReasonerId(3), WorkerId(3), php_sat(), unit);
    watcher.cancel();
    assert!(watcher.is_cancelled());
    assert!(matches!(r.step(WorkBudget::default()), Ok(ReasonerEvent::Cancelled)));
    assert_eq!(r.id(), ReasonerId(3));
    assert_eq!(r.worker_id(), WorkerId(3));
}

#[test]
fn exports_respect_the_policy() {
    let mut r = CdclReasoner::new(ReasonerId(0), WorkerId(4), php_unsat(), work(vec![]));
    let _ = r.step(WorkBudget { max_conflicts: 100, max_ms: 0 }).unwrap();
    let batch = r.drain_and_export(&ExportPolicy { max_items: 1, ..ExportPolicy::default() });
    assert_eq!(batch.len(), 1);
    assert_eq!(batch[0].source, 4);
    let rest = r.drain_and_export(&ExportPolicy::default());
    assert!(rest.iter().all(|o| o.id.0 > batch[0].id.0));
    // With no items allowed what was learned is dropped.
    let mut r = CdclReasoner::new(ReasonerId(0), WorkerId(4), php_unsat(), work(vec![]));
    let _ = r.step(WorkBudget { max_conflicts: 100, max_ms: 0 }).unwrap();
    let none = r.drain_and_export(&ExportPolicy { max_items: 0, ..ExportPolicy::default() });
    assert!(none.is_empty());
    assert!(r.drain_and_export(&ExportPolicy::default()).is_empty());
}

#[test]
fn imported_clauses_bind_the_search() {
    let mut r = CdclReasoner::new(ReasonerId(0), WorkerId(5), php_sat(), work(vec![]));
    let unit = |id: u64, lit: Literal| KnowledgeObject {
        id: KnowledgeId(id),
        kind: KnowledgeKind::Clause(ClauseKnowledge {
            literals: LitVec::from_slice(&[lit]),
            lbd: 1,
        }),
        assumptions: LitVec::from_slice(&[]),
        scope: Scope::Process,
        trust: TrustLevel::Trusted,
        utility: 900_000_000,
        proof_ref: None,
        source: 9,
    };
    let stats = r
        .import(vec![unit(1, Literal::positive(1)), unit(2, Literal::positive(2))])
        .unwrap();
    assert_eq!(stats.applied, 2);
    assert!(matches!(
        r.step(WorkBudget::default()),
        Ok(ReasonerEvent::UnsatLocal { proof_ref: None })
    ));
    assert!(matches!(
        r.conclude(&SolveResult::Unknown, false),
        ReasonerEvent::Progress
    ));
    assert!(matches!(
        r.conclude(&SolveResult::Unknown, true),
        ReasonerEvent::BudgetExhausted
    ));
}

#[test]
fn readings_decide_on_cancellation() {
    let budget = WorkBudget { max_conflicts: 1000, max_ms: 0 };
    for list in [vec![true], vec![false, true]] {
        let mut r = CdclReasoner::new(ReasonerId(0), WorkerId(0), php_unsat(), work(vec![]));
        let e = r.step_with(budget, &mut Stop::given(list), &mut Stop::never(), &mut Stop::never());
        assert!(matches!(e, ReasonerEvent::Cancelled));
    }
    let mut r = CdclReasoner::new(ReasonerId(0), WorkerId(0), php_unsat(), work(vec![]));
    let e = r.step_with(budget, &mut Stop::never(), &mut Stop::never(), &mut Stop::never());
    assert!(matches!(e, ReasonerEvent::UnsatLocal { .. }));
    let unit = work(vec![]);
    unit.cancel();
    let mut r = CdclReasoner::new(ReasonerId(0), WorkerId(0), php_sat(), unit);
    assert!(matches!(r.step(budget), Ok(ReasonerEvent::Cancelled)));
}

#[test]
fn the_time_decides_without_a_conclusion() {
    let budget = WorkBudget { max_conflicts: 1000, max_ms: 500 };
    for (spent, exhausted) in [(true, true), (false, false)] {
        let mut r = CdclReasoner::new(ReasonerId(0), WorkerId(0), php_unsat(), work(vec![]));
        let mut limit = Stop::given(vec![true]);
        let e = r.step_with(budget, &mut Stop::never(), &mut limit, &mut Stop::given(vec![spent]));
        assert_eq!(matches!(e, ReasonerEvent::BudgetExhausted), exhausted);
        assert_eq!(matches!(e, ReasonerEvent::Progress), !exhausted);
        // The next step goes on where time allows.
        assert!(matches!(r.step(budget), Ok(ReasonerEvent::UnsatLocal { .. })));
    }
    // What propagation refutes is refuted, whatever the time.
    let contradictory = vec![Literal::positive(1), Literal::negative(1)];
    let mut r = CdclReasoner::new(ReasonerId(0), WorkerId(0), php_sat(), work(contradictory));
    let mut limit = Stop::given(vec![true; 8]);
    let e = r.step_with(budget, &mut Stop::never(), &mut limit, &mut Stop::never());
    assert!(matches!(e, ReasonerEvent::UnsatLocal { .. }));
}

#[test]
fn clocks_are_watched() {
    let now = std::time::Instant::now();
    assert!(Stop::at(Some(now)).read());
    assert!(!Stop::at(now.checked_add(std::time::Duration::from_secs(3600))).read());
    assert!(!Stop::at(None).read());
    assert!(Stop::after(now, 0).read());
    assert!(!Stop::after(now, 3_600_000_000_000).read());
}
