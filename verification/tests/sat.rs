//! The solver, its parts, and the DIMACS reader.

use reasonmesh::akx::literal::Literal;
use reasonmesh::sat::assignment::{Assignment, Value};
use reasonmesh::sat::clause::ClauseRef;
use reasonmesh::sat::cdcl::{lits_to_dimacs, CdclSolver, SolveResult};
use reasonmesh::sat::dimacs::{parse_dimacs, DimacsCnf, DimacsError};
use reasonmesh::sat::instance::{
    build_cdcl_solver, check_model, dimacs_lit, is_loadable, solve_single, solve_single_with,
    InvalidModel, Outcome,
};
use reasonmesh::sat::luby::luby_next;
use reasonmesh::akx::stop::Stop;
use std::sync::atomic::{AtomicBool, Ordering};
use std::sync::Arc;

#[test]
fn assign_and_backtrack() {
    let mut a = Assignment::new(4);
    a.new_decision_level();
    a.assign(Literal::positive(1), 1, u32::MAX);
    a.assign(Literal::negative(2), 1, u32::MAX);
    assert_eq!(a.value_of(1), Value::True);
    assert_eq!(a.value_of(2), Value::False);
    assert_eq!(a.level_of(1), 1);

    a.backtrack_to(0);
    assert_eq!(a.value_of(1), Value::Undef);
    assert_eq!(a.value_of(2), Value::Undef);
    assert_eq!(a.current_level(), 0);
}

#[test]
fn literal_value() {
    let mut a = Assignment::new(2);
    a.assign(Literal::positive(1), 0, u32::MAX);
    assert_eq!(a.literal_value(Literal::positive(1)), Value::True);
    assert_eq!(a.literal_value(Literal::negative(1)), Value::False);
    assert_eq!(a.literal_value(Literal::positive(2)), Value::Undef);
}

#[test]
fn parses_basic_cnf() {
    let dimacs = "c a comment\np cnf 3 2\n1 -2 3 0\n-1 0\n";
    let cnf = parse_dimacs(dimacs).unwrap();
    assert_eq!(cnf.num_vars, 3);
    assert_eq!(cnf.clauses, vec![vec![1, -2, 3], vec![-1]]);
}

#[test]
fn parses_clause_lines_and_trailing_zeros() {
    let dimacs = "p cnf 2 3\n1 2 0\n-1 -2 0\n2 0\n";
    let cnf = parse_dimacs(dimacs).unwrap();
    assert_eq!(cnf.clauses, vec![vec![1, 2], vec![-1, -2], vec![2]]);
}

#[test]
fn parses_empty_clause() {
    let dimacs = "p cnf 1 1\n0\n";
    let cnf = parse_dimacs(dimacs).unwrap();
    assert_eq!(cnf.clauses, vec![Vec::<i32>::new()]);
}

#[test]
fn rejects_out_of_range_literal() {
    let dimacs = "p cnf 2 1\n3 0\n";
    let err = parse_dimacs(dimacs).unwrap_err();
    assert_eq!(
        err,
        DimacsError::VarOutOfRange {
            num_vars: 2,
            lit: 3,
            ref_var: 3
        }
    );
}

#[test]
fn rejects_wrong_clause_count() {
    let dimacs = "p cnf 2 2\n1 0\n";
    let err = parse_dimacs(dimacs).unwrap_err();
    assert_eq!(
        err,
        DimacsError::WrongClauseCount {
            expected: 2,
            found: 1
        }
    );
}

#[test]
fn rejects_missing_header() {
    let dimacs = "1 0\n";
    assert_eq!(
        parse_dimacs(dimacs).unwrap_err(),
        DimacsError::MissingHeader
    );
}


// -----------------------------------------------------------------------
// Brute-force oracle for property tests
// -----------------------------------------------------------------------

/// DIMACS-style: positive int = positive literal (1-indexed), negative = negative.
fn brute_force(num_vars: u32, clauses: &[Vec<i32>]) -> bool {
    'outer: for mask in 0u64..(1u64 << num_vars) {
        for clause in clauses {
            let sat = clause.iter().any(|&lit| {
                let var = (lit.unsigned_abs() - 1) as u64;
                let val = (mask >> var) & 1 == 1;
                if lit > 0 {
                    val
                } else {
                    !val
                }
            });
            if !sat {
                continue 'outer;
            }
        }
        return true; // all clauses satisfied
    }
    false
}

fn dimacs_to_solver(num_vars: u32, clauses: &[Vec<i32>]) -> CdclSolver {
    let mut s = CdclSolver::new(num_vars);
    for clause in clauses {
        let lits: Vec<Literal> = clause
            .iter()
            .map(|&l| {
                if l > 0 {
                    Literal::positive(l as u32)
                } else {
                    Literal::negative((-l) as u32)
                }
            })
            .collect();
        s.add_clause(&lits);
    }
    s
}

fn cdcl_is_sat(num_vars: u32, clauses: &[Vec<i32>]) -> bool {
    let mut s = dimacs_to_solver(num_vars, clauses);
    matches!(s.solve(&[], u64::MAX), SolveResult::Sat(_))
}

// -----------------------------------------------------------------------
// Basic sanity
// -----------------------------------------------------------------------

#[test]
fn empty_formula_is_sat() {
    let mut s = CdclSolver::new(1);
    assert!(matches!(s.solve(&[], u64::MAX), SolveResult::Sat(_)));
}

#[test]
fn empty_clause_is_unsat() {
    let mut s = CdclSolver::new(1);
    s.add_clause(&[]);
    assert_eq!(s.solve(&[], u64::MAX), SolveResult::Unsat);
}

#[test]
fn unit_sat() {
    assert!(cdcl_is_sat(1, &[vec![1]]));
}

#[test]
fn unit_unsat() {
    let sat = cdcl_is_sat(1, &[vec![1], vec![-1]]);
    assert!(!sat);
}

#[test]
fn simple_2sat() {
    // (x1 ∨ x2) ∧ (¬x1 ∨ x2) → x2 must be true
    assert!(cdcl_is_sat(2, &[vec![1, 2], vec![-1, 2]]));
}

#[test]
fn simple_unsat_3() {
    // x1 ∧ x2 ∧ (¬x1 ∨ ¬x2)
    let sat = cdcl_is_sat(2, &[vec![1], vec![2], vec![-1, -2]]);
    assert!(!sat);
}

// -----------------------------------------------------------------------
// Model validation
// -----------------------------------------------------------------------

#[test]
fn model_is_valid() {
    let clauses = vec![vec![1, 2], vec![-1, 3], vec![-2, -3]];
    let mut s = dimacs_to_solver(3, &clauses);
    match s.solve(&[], u64::MAX) {
        SolveResult::Sat(model) => {
            assert!(model.verify_dimacs(&clauses), "model failed verification");
        }
        _ => panic!("expected SAT"),
    }
}

// -----------------------------------------------------------------------
// Brute-force oracle comparison on random 3-SAT instances
// -----------------------------------------------------------------------

/// Simple LCG for reproducible pseudo-random tests.
struct Lcg {
    state: u64,
}
impl Lcg {
    fn new(seed: u64) -> Self {
        Lcg { state: seed }
    }
    fn next(&mut self) -> u64 {
        self.state = self
            .state
            .wrapping_mul(6364136223846793005)
            .wrapping_add(1442695040888963407);
        self.state
    }
    fn range(&mut self, lo: i32, hi: i32) -> i32 {
        lo + (self.next() % (hi - lo + 1) as u64) as i32
    }
}

fn random_3sat(rng: &mut Lcg, num_vars: u32, num_clauses: u32) -> Vec<Vec<i32>> {
    (0..num_clauses)
        .map(|_| {
            let mut lits = Vec::new();
            let mut used = vec![false; num_vars as usize + 1];
            for _ in 0..3 {
                loop {
                    let var = rng.range(1, num_vars as i32);
                    if !used[var as usize] {
                        used[var as usize] = true;
                        let sign = if rng.next() & 1 == 0 { 1 } else { -1 };
                        lits.push(sign * var);
                        break;
                    }
                }
            }
            lits
        })
        .collect()
}

#[test]
fn oracle_3sat_4vars() {
    let mut rng = Lcg::new(42);
    let num_vars = 4u32;
    let mut mismatches = 0;
    for _ in 0..500 {
        let clauses = random_3sat(&mut rng, num_vars, 8);
        let bf = brute_force(num_vars, &clauses);
        let cdcl = cdcl_is_sat(num_vars, &clauses);
        if bf != cdcl {
            mismatches += 1;
            println!("mismatch: bf={bf} cdcl={cdcl} clauses={clauses:?}");
        }
    }
    assert_eq!(mismatches, 0, "{mismatches} mismatches in oracle test");
}

#[test]
fn oracle_3sat_6vars() {
    let mut rng = Lcg::new(137);
    let num_vars = 6u32;
    let mut mismatches = 0;
    for _ in 0..200 {
        let clauses = random_3sat(&mut rng, num_vars, 14);
        let bf = brute_force(num_vars, &clauses);
        let cdcl = cdcl_is_sat(num_vars, &clauses);
        if bf != cdcl {
            mismatches += 1;
            println!("mismatch: bf={bf} cdcl={cdcl}");
        }
    }
    assert_eq!(mismatches, 0, "{mismatches} mismatches in oracle test");
}

/// Broader oracle sweep: several variable counts, a range of clause counts,
/// and many seeds. For every SAT result the returned model must be a
/// complete assignment that satisfies all clauses.
#[test]
fn oracle_sweep_broad() {
    let mut rng = Lcg::new(7);
    let mut mismatches = 0u32;
    let mut checked = 0u32;
    for num_vars in 3..=8u32 {
        for num_clauses in (num_vars - 1)..=(num_vars * 3) {
            for _ in 0..40 {
                let clauses = random_3sat(&mut rng, num_vars, num_clauses);
                let bf = brute_force(num_vars, &clauses);
                let mut s = dimacs_to_solver(num_vars, &clauses);
                match s.solve(&[], u64::MAX) {
                    SolveResult::Sat(m) => {
                        assert_eq!(m.num_vars(), num_vars, "model must be complete");
                        if !m.verify_dimacs(&clauses) {
                            mismatches += 1;
                            println!("invalid SAT model: {clauses:?} model={m:?}");
                        }
                        if !bf {
                            mismatches += 1;
                            println!("SAT but brute-force says UNSAT: {clauses:?}");
                        }
                    }
                    SolveResult::Unsat => {
                        if bf {
                            mismatches += 1;
                            println!("UNSAT but brute-force says SAT: {clauses:?}");
                        }
                    }
                    SolveResult::Unknown => {
                        mismatches += 1;
                        println!("UNKNOWN for small formula: {clauses:?}");
                    }
                }
                checked += 1;
            }
        }
    }
    assert_eq!(
        mismatches, 0,
        "{mismatches}/{checked} mismatches in oracle sweep"
    );
}

// -----------------------------------------------------------------------
// Assumptions (incremental cube solving)
// -----------------------------------------------------------------------

#[test]
fn solve_with_assumptions_sat() {
    // (x1 ∨ x2) with assumption ¬x2 forces x1 in any model.
    let clauses = vec![vec![1, 2]];
    let mut s = dimacs_to_solver(2, &clauses);
    match s.solve(&[Literal::negative(2)], u64::MAX) {
        SolveResult::Sat(m) => {
            assert!(
                m.satisfies(Literal::negative(2)),
                "assumption not satisfied"
            );
            assert!(m.satisfies(Literal::positive(1)), "expected x1");
            assert!(m.verify_dimacs(&clauses));
        }
        other => panic!("expected SAT, got {other:?}"),
    }
}

#[test]
fn solve_with_assumptions_unsat() {
    // Unit clause (x1) contradicts assumption ¬x1.
    let mut s = dimacs_to_solver(1, &[vec![1]]);
    assert_eq!(
        s.solve(&[Literal::negative(1)], u64::MAX),
        SolveResult::Unsat
    );
}

/// Brute-force oracle for solving under a literal assumption set.
fn brute_force_assumptions(
    num_vars: u32,
    clauses: &[Vec<i32>],
    assumptions: &[Literal],
) -> bool {
    'outer: for mask in 0u64..(1u64 << num_vars) {
        for &a in assumptions {
            // Bit mask is 0-indexed; DIMACS variables are 1-indexed.
            let var = (a.var() - 1) as u64;
            let val = (mask >> var) & 1 == 1;
            let ok = if a.is_positive() { val } else { !val };
            if !ok {
                continue 'outer;
            }
        }
        for clause in clauses {
            let sat = clause.iter().any(|&lit| {
                let var = (lit.unsigned_abs() - 1) as u64;
                let val = (mask >> var) & 1 == 1;
                if lit > 0 {
                    val
                } else {
                    !val
                }
            });
            if !sat {
                continue 'outer;
            }
        }
        return true;
    }
    false
}

/// Random assumptions must agree with the brute-force oracle, and any SAT
/// model must satisfy the assumptions and all clauses.
#[test]
fn oracle_with_random_assumptions() {
    let mut rng = Lcg::new(99);
    let num_vars = 5u32;
    for _ in 0..300 {
        let clauses = random_3sat(&mut rng, num_vars, 10);
        let mut assumptions = Vec::new();
        for v in 1..=num_vars {
            if rng.next() & 3 == 0 {
                let l = if rng.next() & 1 == 0 {
                    Literal::positive(v)
                } else {
                    Literal::negative(v)
                };
                assumptions.push(l);
            }
        }
        let bf = brute_force_assumptions(num_vars, &clauses, &assumptions);
        let mut s = dimacs_to_solver(num_vars, &clauses);
        let cdcl = match s.solve(&assumptions, u64::MAX) {
            SolveResult::Sat(m) => {
                for &a in &assumptions {
                    assert!(m.satisfies(a), "model misses assumption {a:?}");
                }
                assert!(m.verify_dimacs(&clauses), "model violates a clause");
                true
            }
            SolveResult::Unsat => false,
            SolveResult::Unknown => panic!("UNKNOWN for small formula"),
        };
        assert_eq!(
            bf, cdcl,
            "mismatch with assumptions {assumptions:?} on {clauses:?}"
        );
    }
}

/// Incremental use: several `solve` calls with different assumption sets
/// on one solver must give the same answers as independent solves.
#[test]
fn repeated_assumption_solves_are_independent() {
    // (x1 ∨ x2) ∧ (¬x1 ∨ x3)
    let clauses = vec![vec![1, 2], vec![-1, 3]];
    let mut s = dimacs_to_solver(3, &clauses);

    // Under ¬x2: x1 forced; then x3 forced.
    match s.solve(&[Literal::negative(2)], u64::MAX) {
        SolveResult::Sat(m) => {
            assert!(m.satisfies(Literal::positive(1)));
            assert!(m.satisfies(Literal::positive(3)));
        }
        other => panic!("expected SAT, got {other:?}"),
    }

    // Under ¬x1 ∧ ¬x2: (x1∨x2) has both literals false.
    assert_eq!(
        s.solve(&[Literal::negative(1), Literal::negative(2)], u64::MAX),
        SolveResult::Unsat
    );

    // Back to a satisfiable assumption set; must still work after UNSAT.
    match s.solve(&[Literal::positive(3)], u64::MAX) {
        SolveResult::Sat(m) => {
            assert!(m.satisfies(Literal::positive(3)));
            assert!(m.verify_dimacs(&clauses));
        }
        other => panic!("expected SAT, got {other:?}"),
    }
}

/// G0 gate: imported clauses integrate into a live solver at level 0 with
/// no structural changes to the trail or clause database.
#[test]
fn import_clauses_mid_search_g0() {
    // (¬x1 ∨ ¬x2 ∨ ¬x3) is SAT and solved without any conflicts, leaving
    // the solver in a clean, re-usable state.
    let mut s = dimacs_to_solver(3, &[vec![-1, -2, -3]]);
    assert!(matches!(s.solve(&[], 0), SolveResult::Sat(_)));

    // Import unit clauses x1, x2, x3 mid-solve — the clause is falsified.
    let units: Vec<Vec<Literal>> = vec![vec![1], vec![2], vec![3]]
        .into_iter()
        .map(|c| c.into_iter().map(|l| Literal::positive(l as u32)).collect())
        .collect();
    assert_eq!(s.import_clauses(&units), 3);
    assert_eq!(s.solve(&[], u64::MAX), SolveResult::Unsat);
}

// -----------------------------------------------------------------------
// Budget behaviour
// -----------------------------------------------------------------------

#[test]
fn zero_budget_returns_unknown() {
    let (nv, clauses) = pigeonhole(3, 2);
    let mut s = dimacs_to_solver(nv, &clauses);
    assert_eq!(s.solve(&[], 0), SolveResult::Unknown);
}

#[test]
fn unlimited_budget_terminates() {
    let (nv, clauses) = pigeonhole(5, 5);
    let mut s = dimacs_to_solver(nv, &clauses);
    match s.solve(&[], u64::MAX) {
        SolveResult::Sat(m) => {
            let violating: Vec<&Vec<i32>> = clauses
                .iter()
                .filter(|c| !m.verify_dimacs(std::slice::from_ref(*c)))
                .collect();
            if !violating.is_empty() {
                panic!("SAT model violates clauses {violating:?} (model={m:?}, vars={nv})");
            }
        }
        SolveResult::Unsat => {
            if brute_force(nv, &clauses) {
                panic!("reported UNSAT but pigeonhole(5,5) is satisfiable");
            }
        }
        SolveResult::Unknown => panic!("expected a decision for pigeonhole(5,5)"),
    }
}

// -----------------------------------------------------------------------
// Pigeonhole: pigeons(n) = n+1 pigeons in n holes — classic hard UNSAT
// -----------------------------------------------------------------------

/// Pigeonhole principle: variable(p, h) = pigeon p in hole h.
fn pigeonhole(pigeons: u32, holes: u32) -> (u32, Vec<Vec<i32>>) {
    let var = |p: u32, h: u32| -> i32 { (p * holes + h + 1) as i32 };
    let num_vars = pigeons * holes;
    let mut clauses: Vec<Vec<i32>> = Vec::new();

    // Each pigeon must be in at least one hole.
    for p in 0..pigeons {
        clauses.push((0..holes).map(|h| var(p, h)).collect());
    }
    // No two pigeons share a hole.
    for h in 0..holes {
        for p1 in 0..pigeons {
            for p2 in (p1 + 1)..pigeons {
                clauses.push(vec![-var(p1, h), -var(p2, h)]);
            }
        }
    }
    (num_vars, clauses)
}

#[test]
fn pigeonhole_3_2_is_unsat() {
    let (nv, clauses) = pigeonhole(3, 2);
    let sat = cdcl_is_sat(nv, &clauses);
    assert!(!sat, "pigeonhole(3,2) should be UNSAT");
}

#[test]
fn pigeonhole_4_3_is_unsat() {
    let (nv, clauses) = pigeonhole(4, 3);
    let sat = cdcl_is_sat(nv, &clauses);
    assert!(!sat, "pigeonhole(4,3) should be UNSAT");
}

#[test]
fn luby_sequence() {
    let mut u = 1u64;
    let mut v = 1u64;
    let expected = [1u64, 1, 2, 1, 1, 2, 4, 1, 1, 2, 1, 1, 2, 4, 8];
    for &e in &expected {
        assert_eq!(luby_next(&mut u, &mut v), e);
    }
}

/// Regression (hard instance panic): learnt-clause reduction must neither
/// delete a clause still used as a trail reason nor leave stale entries in
/// the two-watched-literal index. PHP(8,7) is large enough to trigger
/// several reductions before the root conflict is found.
#[test]
fn reduction_keeps_reasons_and_watches_live() {
    let (nv, clauses) = pigeonhole(8, 7);
    let mut s = dimacs_to_solver(nv, &clauses);
    // Collapse the learnt limit so reduction fires almost immediately.
    s.learnt_limit = 4;
    assert_eq!(s.solve(&[], u64::MAX), SolveResult::Unsat);
}

/// A wall-clock deadline must stop the search with `Unknown` even when the
/// conflict budget is unlimited.
#[test]
fn deadline_returns_unknown_with_propagation() {
    let (nv, clauses) = pigeonhole(10, 9);
    let mut s = dimacs_to_solver(nv, &clauses);
    let deadline = std::time::Instant::now()
        .checked_add(std::time::Duration::from_millis(30))
        .unwrap();
    match s.solve_with_deadline(&[], u64::MAX, Some(deadline)) {
        SolveResult::Unknown => {} // expected: too hard for 30ms
        SolveResult::Unsat => {}   // allowed if the search completed
        SolveResult::Sat(_) => panic!("PHP(10,9) is UNSAT"),
    }
}

#[test]
fn a_set_token_abandons_the_search() {
    let (nv, clauses) = pigeonhole(4, 3);
    let mut s = dimacs_to_solver(nv, &clauses);
    let token = Arc::new(AtomicBool::new(true));
    let mut stop = Stop::on(Arc::clone(&token));
    assert_eq!(s.solve_until(&[], u64::MAX, &mut Stop::never(), &mut stop), None);
    token.store(false, Ordering::Relaxed);
    assert_eq!(s.solve_until(&[], u64::MAX, &mut Stop::never(), &mut stop), Some(SolveResult::Unsat));
    let mut fresh = dimacs_to_solver(nv, &clauses);
    let mut given = Stop::given(vec![false, false, true]);
    assert_eq!(fresh.solve_until(&[], u64::MAX, &mut Stop::never(), &mut given), None);
    assert_eq!(fresh.solve_until(&[], u64::MAX, &mut Stop::never(), &mut given), Some(SolveResult::Unsat));
}

#[test]
fn literals_in_dimacs_form() {
    assert_eq!(lits_to_dimacs(&[Literal::positive(3), Literal::negative(7)]), vec![3, -7]);
    assert_eq!(dimacs_lit(-7), Literal::negative(7));
    assert_eq!(dimacs_lit(3), Literal::positive(3));
}

#[test]
fn rejects_malformed_text() {
    assert_eq!(parse_dimacs("p cnf x 1\n").unwrap_err(), DimacsError::MalformedHeader);
    assert_eq!(parse_dimacs("p cnf 2 1\n1 a 0\n").unwrap_err(), DimacsError::MalformedHeader);
    assert_eq!(parse_dimacs("").unwrap_err(), DimacsError::MissingHeader);
}

#[test]
fn equality_of_results_ignores_models() {
    let mut s = CdclSolver::new(1);
    let a = s.solve(&[], u64::MAX);
    let b = s.solve(&[], u64::MAX);
    assert!(a != b);
    assert!(SolveResult::Unsat == SolveResult::Unsat);
    assert!(SolveResult::Unsat != SolveResult::Unknown);
    assert!(SolveResult::Unsat.is_unsat() && SolveResult::Unknown.is_unknown());
}

#[test]
fn proof_log_closes_with_the_empty_clause() {
    let (nv, clauses) = pigeonhole(4, 3);
    let mut s = dimacs_to_solver(nv, &clauses);
    s.enable_proof_logging();
    assert_eq!(s.solve(&[], u64::MAX), SolveResult::Unsat);
    let log = s.take_proof_log().unwrap();
    assert!(log.last().unwrap().is_empty());
    assert!(log.len() > 1);
    assert!(s.take_proof_log().is_none());
}

#[test]
fn instances_beyond_the_solver_are_not_loadable() {
    let small = DimacsCnf { num_vars: 2, clauses: vec![vec![1, -2]] };
    assert!(is_loadable(&small));
    assert!(!is_loadable(&DimacsCnf { num_vars: 2, clauses: vec![vec![1, -3]] }));
    assert!(!is_loadable(&DimacsCnf { num_vars: 2, clauses: vec![vec![0]] }));
    assert!(!is_loadable(&DimacsCnf { num_vars: u32::MAX, clauses: vec![] }));
    let mut s = build_cdcl_solver(&small, false);
    assert_eq!(s.num_vars(), 2);
    assert!(matches!(s.solve(&[], u64::MAX), SolveResult::Sat(_)));
}

#[test]
fn single_runs_validate_their_models() {
    let cnf = parse_dimacs("p cnf 3 2\n1 2 3 0\n-1 -2 -3 0\n").unwrap();
    let run = solve_single(&cnf, u64::MAX, None, false).unwrap();
    assert_eq!(run.outcome, Outcome::Sat);
    let model = run.model.unwrap();
    assert_eq!(model.len(), 4);
    assert_eq!(check_model(&cnf, &model), Ok(()));
    assert_eq!(check_model(&cnf, &[false, true, true, true]), Err(InvalidModel));
    assert!(run.log.is_none());
    let (nv, clauses) = pigeonhole(3, 2);
    let php = DimacsCnf { num_vars: nv, clauses };
    let run = solve_single(&php, 0, None, true).unwrap();
    assert_eq!(run.outcome, Outcome::Unknown);
    assert!(run.counters.conflicts > 0);
    let run = solve_single(&php, u64::MAX, None, true).unwrap();
    assert_eq!(run.outcome, Outcome::Unsat);
    assert!(run.log.unwrap().last().unwrap().is_empty());
}

#[test]
fn learned_clauses_are_staged_once() {
    let (nv, clauses) = pigeonhole(4, 3);
    let mut s = dimacs_to_solver(nv, &clauses);
    assert_eq!(s.solve(&[], 5), SolveResult::Unknown);
    let staged = s.drain_learned();
    assert!(!staged.is_empty());
    for (lits, _lbd) in &staged {
        // Every staged clause follows from the formula.
        let mut with = clauses.clone();
        for l in lits_to_dimacs(lits) {
            with.push(vec![-l]);
        }
        assert!(!brute_force(nv, &with));
    }
    assert!(s.drain_learned().is_empty());
}

#[test]
fn values_and_references() {
    assert!(Value::Undef.is_undef() && !Value::from_bool(true).is_undef());
    assert_eq!(Value::from_bool(false), Value::False);
    assert!(ClauseRef(ClauseRef::DECISION).is_decision());
    assert!(ClauseRef(ClauseRef::DECISION).is_sentinel());
    assert!(!ClauseRef(3).is_sentinel());
}

#[test]
fn propagation_alone_refutes_assumptions() {
    let mut s = CdclSolver::new(3);
    s.add_clause(&[Literal::negative(1), Literal::negative(2)]);
    let assumed = [Literal::positive(1), Literal::positive(2), Literal::positive(3)];
    assert_eq!(s.solve(&assumed, u64::MAX), SolveResult::Unsat);
}

#[test]
fn propagation_alone_logs_the_empty_clause_only() {
    let mut s = CdclSolver::new(2);
    s.enable_proof_logging();
    s.add_clause(&[Literal::positive(1)]);
    s.add_clause(&[Literal::positive(2)]);
    s.add_clause(&[Literal::negative(1), Literal::negative(2)]);
    assert_eq!(s.solve(&[], u64::MAX), SolveResult::Unsat);
    assert_eq!(s.take_proof_log(), Some(vec![vec![]]));
    assert_eq!(s.take_proof_log(), None);
}

#[test]
fn time_decides_when_it_is_over() {
    let (nv, clauses) = pigeonhole(4, 3);
    let mut s = dimacs_to_solver(nv, &clauses);
    let mut limit = Stop::given(vec![false, true]);
    let r = s.solve_until(&[], u64::MAX, &mut limit, &mut Stop::never());
    assert_eq!(r, Some(SolveResult::Unknown));
    let r = s.solve_until(&[], u64::MAX, &mut limit, &mut Stop::never());
    assert_eq!(r, Some(SolveResult::Unsat));
    let now = std::time::Instant::now();
    let mut late = dimacs_to_solver(nv, &clauses);
    assert_eq!(late.solve_with_deadline(&[], u64::MAX, Some(now)), SolveResult::Unknown);
    let hour = now.checked_add(std::time::Duration::from_secs(3600));
    assert_eq!(late.solve_with_deadline(&[], u64::MAX, hour), SolveResult::Unsat);
    let cnf = DimacsCnf { num_vars: nv, clauses };
    let run = solve_single_with(&cnf, u64::MAX, &mut Stop::given(vec![true]), false).unwrap();
    assert_eq!(run.outcome, Outcome::Unknown);
    assert_eq!(solve_single(&cnf, u64::MAX, Some(now), false).unwrap().outcome, Outcome::Unknown);
    assert_eq!(solve_single(&cnf, u64::MAX, hour, false).unwrap().outcome, Outcome::Unsat);
}

#[test]
fn units_take_no_reference() {
    let mut s = CdclSolver::new(3);
    let batch = vec![
        vec![Literal::positive(1)],
        vec![Literal::negative(1), Literal::positive(2)],
        vec![],
    ];
    assert_eq!(s.import_clauses(&batch), 3);
    assert_eq!(s.stored_clauses(), 1);
    assert_eq!(s.solve(&[], 0), SolveResult::Unsat);
}
