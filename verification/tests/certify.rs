//! The proof verifier, the model evaluator and the proof file format.

use reasonmesh::akx::literal::Literal;
use reasonmesh::certify::drup::{up_derives_empty, verify_drup, DrupError};
use reasonmesh::certify::model::{check_dimacs_model, ModelCheckError};
use reasonmesh::certify::proof_file::{ProofError, ProofFile, Status};
use reasonmesh::sat::cdcl::{CdclSolver, SolveResult};
use reasonmesh::sat::dimacs::parse_dimacs;

#[test]
fn trivial_unsat_empty_clause() {
    // Empty clause as the first original clause → empty proof of 1 step
    let original = vec![vec![]];
    let proof = vec![vec![]];
    assert!(verify_drup(0, &original, &proof).is_ok());
}

#[test]
fn unit_propagation_refutation() {
    // (x1) ∧ (¬x1) → UNSAT
    // Original: {1} {-1}
    // Proof: just the empty clause (UP from {1} and {-1} is enough)
    let original = vec![vec![1], vec![-1]];
    let proof = vec![vec![]];
    let r = verify_drup(1, &original, &proof);
    assert!(r.is_ok(), "expected valid proof, got {r:?}");
}

#[test]
fn resolution_step() {
    // (x ∨ y) ∧ (¬x ∨ y) ∧ (¬y) → UNSAT
    // Derived: (y) from first two by resolution; then empty from (y) and (¬y)
    let original = vec![vec![1, 2], vec![-1, 2], vec![-2]];
    let proof = vec![
        vec![2], // RUP: assuming ¬y, {x,y} becomes {x} and {¬x,y} becomes {¬x}, UP gives contradiction
        vec![],  // empty clause
    ];
    let r = verify_drup(2, &original, &proof);
    assert!(r.is_ok(), "expected valid proof, got {r:?}");
}

#[test]
fn invalid_rup_step_rejected() {
    // Claim (x1) is RUP from (x1 ∨ x2) — it isn't.
    let original = vec![vec![1, 2]];
    let proof = vec![vec![1], vec![]];
    assert!(matches!(
        verify_drup(2, &original, &proof),
        Err(DrupError::NotRup { .. })
    ));
}

#[test]
fn missing_empty_clause() {
    let original = vec![vec![1]];
    let proof = vec![vec![1, 2]]; // no empty clause at end
    assert!(matches!(
        verify_drup(2, &original, &proof),
        Err(DrupError::NoEmptyClause)
    ));
}

#[test]
fn empty_proof_rejected() {
    let original = vec![vec![1, 2]];
    assert!(matches!(
        verify_drup(2, &original, &[]),
        Err(DrupError::EmptyProof)
    ));
}

/// Cross-check: run the CDCL solver with proof logging on unsatisfiable
/// instances, then verify the proof with this independent checker.
#[test]
fn cross_check_with_cdcl_proofs() {
    // Pigeonhole PHP(3,2): 3 pigeons, 2 holes — provably UNSAT.
    // p cnf 6 11 (variables x_ij for pigeon i in hole j)
    let dimacs = "p cnf 6 11\n\
        1 2 0\n\
        3 4 0\n\
        5 6 0\n\
        -1 -3 0\n\
        -1 -5 0\n\
        -3 -5 0\n\
        -2 -4 0\n\
        -2 -6 0\n\
        -4 -6 0\n\
        1 3 5 0\n\
        2 4 6 0\n";
    let cnf = parse_dimacs(dimacs).unwrap();
    let mut solver = CdclSolver::new(cnf.num_vars);
    solver.enable_proof_logging();
    for clause in &cnf.clauses {
        let lits: Vec<Literal> = clause
            .iter()
            .map(|&l| {
                if l > 0 {
                    Literal::positive(l as u32)
                } else {
                    Literal::negative((-l) as u32)
                }
            })
            .collect();
        solver.add_clause(&lits);
    }
    assert_eq!(solver.solve(&[], u64::MAX), SolveResult::Unsat);
    let proof = solver
        .take_proof_log()
        .expect("proof log should be present");
    assert!(
        !proof.is_empty(),
        "proof should have at least the empty clause"
    );
    let result = verify_drup(cnf.num_vars, &cnf.clauses, &proof);
    assert!(result.is_ok(), "CDCL proof failed verification: {result:?}");
}

/// Small deterministic PRNG for generating random test CNFs.
struct Lcg {
    state: u64,
}
impl Lcg {
    fn new(seed: u64) -> Self {
        Lcg { state: seed }
    }
    fn next(&mut self) -> u64 {
        self.state = self
            .state
            .wrapping_mul(6364136223846793005)
            .wrapping_add(1442695040888963407);
        self.state >> 33
    }
}

#[test]
fn accepts_valid_model() {
    // (x1 ∨ x2) ∧ (¬x1 ∨ ¬x2)
    let clauses = vec![vec![1, 2], vec![-1, -2]];
    let mut model = vec![false; 3]; // index 0 unused
    model[1] = true;
    model[2] = false;
    assert_eq!(check_dimacs_model(2, &clauses, &model), Ok(true));
}

#[test]
fn rejects_falsified_clause() {
    // (x1) ∧ (¬x1)
    let clauses = vec![vec![1], vec![-1]];
    let mut model = vec![false; 2];
    model[1] = true;
    assert_eq!(check_dimacs_model(1, &clauses, &model), Ok(false));
}

#[test]
fn rejects_empty_clause_as_unsatisfiable() {
    let clauses = vec![Vec::<i32>::new()];
    let model = vec![false; 2];
    assert_eq!(check_dimacs_model(1, &clauses, &model), Ok(false));
}

#[test]
fn rejects_too_short_model() {
    let clauses = vec![vec![1, 2]];
    let model = vec![false; 2]; // only covers variable 1
    assert_eq!(
        check_dimacs_model(2, &clauses, &model),
        Err(ModelCheckError::SizeMismatch {
            model_vars: 2,
            num_vars: 2
        })
    );
}

#[test]
fn rejects_out_of_range_clause() {
    let clauses = vec![vec![1, 3]];
    let model = vec![false; 3];
    assert_eq!(
        check_dimacs_model(2, &clauses, &model),
        Err(ModelCheckError::ClauseOutOfRange {
            ref_var: 3,
            num_vars: 2
        })
    );
}

/// Cross-check: solve random CNFs with the production CDCL solver and
/// validate every returned model with this independent evaluator. Only the
/// solver's public API is used — never its internals.
#[test]
fn cross_check_with_solver_models() {
    fn random_cnf(rng: &mut Lcg, vars: u32, clauses: usize) -> String {
        let mut s = format!("p cnf {vars} {clauses}\n");
        for _ in 0..clauses {
            let k = 1 + (rng.next() % 4) as usize;
            for _ in 0..k {
                let v = 1 + (rng.next() % vars as u64) as u32;
                let lit = if rng.next() & 1 == 0 {
                    v as i32
                } else {
                    -(v as i32)
                };
                s.push_str(&format!("{lit} "));
            }
            s.push_str("0\n");
        }
        s
    }

    let mut rng = Lcg::new(7);
    for _ in 0..200 {
        let dimacs = random_cnf(&mut rng, 5, 12);
        let cnf = parse_dimacs(&dimacs).unwrap();
        let mut solver = CdclSolver::new(cnf.num_vars);
        for clause in &cnf.clauses {
            let lits: Vec<Literal> = clause
                .iter()
                .map(|&l| {
                    if l > 0 {
                        Literal::positive(l as u32)
                    } else {
                        Literal::negative((-l) as u32)
                    }
                })
                .collect();
            solver.add_clause(&lits);
        }
        if let SolveResult::Sat(m) = solver.solve(&[], u64::MAX) {
            let mut raw = vec![false; cnf.num_vars as usize + 1];
            for v in 1..=cnf.num_vars {
                raw[v as usize] = m.value_of(v);
            }
            assert_eq!(
                check_dimacs_model(cnf.num_vars, &cnf.clauses, &raw),
                Ok(true),
                "solver returned a model that fails independent validation"
            );
        }
    }
}


const SIMPLE_SAT: &str = "c reasonmesh proof v0.2\n\
    p cnf 2 2\n\
    1 2 0\n\
    -1 -2 0\n\
    s SAT\n\
    v 1 -2 0\n";

#[test]
fn parse_and_verify_sat() {
    let pf = ProofFile::parse(SIMPLE_SAT).unwrap();
    assert_eq!(pf.status, Status::Sat);
    assert_eq!(pf.num_vars, 2);
    assert_eq!(pf.clauses.len(), 2);
    assert!(pf.model[1]);
    assert!(!pf.model[2]);
    pf.verify().unwrap();
}

#[test]
fn bad_model_detected() {
    // Model says x1=false but clause (x1) is falsified.
    let text = "c test\np cnf 1 1\n1 0\ns SAT\nv -1 0\n";
    let pf = ProofFile::parse(text).unwrap();
    assert!(matches!(pf.verify(), Err(ProofError::BadModel)));
}

#[test]
fn unsat_status_returns_error() {
    let text = "c test\np cnf 1 2\n1 0\n-1 0\ns UNSAT\n";
    let pf = ProofFile::parse(text).unwrap();
    assert!(matches!(pf.verify(), Err(ProofError::UnsatNotSupported)));
}

#[test]
fn missing_header_error() {
    let text = "s SAT\nv 1 0\n";
    assert!(matches!(ProofFile::parse(text), Err(ProofError::MissingHeader)));
}

#[test]
fn missing_status_error() {
    let text = "p cnf 1 1\n1 0\nv 1 0\n";
    assert!(matches!(ProofFile::parse(text), Err(ProofError::MissingStatus)));
}

#[test]
fn out_of_range_step_rejected() {
    assert!(matches!(
        verify_drup(1, &[vec![1]], &[vec![-2], vec![]]),
        Err(DrupError::OutOfRange { lit: -2, var: 2, num_vars: 1 })
    ));
}

#[test]
fn unit_propagation_finds_conflicts() {
    let db = vec![vec![-1, 2], vec![-2, 3], vec![-3]];
    assert!(up_derives_empty(&db, &[1]));
    assert!(!up_derives_empty(&db, &[-1]));
}

#[test]
fn number_of_steps_up_to_the_empty_clause() {
    let original = vec![vec![1, 2], vec![-1, 2], vec![-2]];
    assert!(matches!(verify_drup(2, &original, &[vec![2], vec![]]), Ok(2)));
}

#[test]
fn unsat_file_reads_back() {
    let clauses = vec![vec![1, 2], vec![-1, 2], vec![-2]];
    let steps = vec![vec![2], vec![]];
    let text = ProofFile::write_unsat(2, &clauses, &steps);
    assert_eq!(
        text,
        "c reasonmesh proof v0.2\np cnf 2 3\n1 2 0\n-1 2 0\n-2 0\ns UNSAT\nd 2 0\nd 0\n"
    );
    let pf = ProofFile::parse(&text).unwrap();
    assert_eq!(pf.status, Status::Unsat);
    assert_eq!(pf.clauses, clauses);
    assert_eq!(pf.drup, steps);
    pf.verify().unwrap();
}

#[test]
fn sat_file_reads_back() {
    let clauses = vec![vec![1, 2], vec![-1, -2]];
    let text = ProofFile::write_sat(2, &clauses, &[false, true, false]);
    assert_eq!(text, SIMPLE_SAT);
    let pf = ProofFile::parse(&text).unwrap();
    assert_eq!(pf.model, vec![false, true, false]);
    pf.verify().unwrap();
}

#[test]
fn comments_and_both_forms_of_the_empty_step() {
    let short = "c\ncomment\np cnf 1 2\n1 0\nc x\n-1 0\ns UNSAT\n0\n";
    let pf = ProofFile::parse(short).unwrap();
    assert_eq!(pf.clauses, vec![vec![1], vec![-1]]);
    assert_eq!(pf.drup, vec![Vec::<i32>::new()]);
    pf.verify().unwrap();
    let long = "p cnf 1 2\n1 0\n-1 0\ns UNSAT\nd 0\n";
    assert_eq!(ProofFile::parse(long).unwrap().drup, pf.drup);
}

#[test]
fn refused_proof_files() {
    let wrong = "p cnf 2 2\n1 2 0\n-1 -2 0\ns UNSAT\nd 1 0\nd 0\n";
    assert!(matches!(
        ProofFile::parse(wrong).unwrap().verify(),
        Err(ProofError::Drup(DrupError::NotRup { .. }))
    ));
    assert!(matches!(
        ProofFile::parse("p cnf 1 1\n1 0\ns SAT\nv 5 0\n"),
        Err(ProofError::ModelTooLarge { declared: 1, found: 5 })
    ));
    assert!(matches!(
        ProofFile::parse("p cnf 1 1\nx 0\ns SAT\n"),
        Err(ProofError::Malformed { line: 2, .. })
    ));
    let outside = "p cnf 1 1\n2 0\ns SAT\nv 1 0\n";
    assert!(matches!(
        ProofFile::parse(outside).unwrap().verify(),
        Err(ProofError::CheckFailed(ModelCheckError::ClauseOutOfRange { ref_var: 2, num_vars: 1 }))
    ));
}

#[test]
fn logs_of_the_solver_are_accepted() {
    // Random instances near the threshold, so that both verdicts occur.
    let mut rng = Lcg::new(11);
    let mut refuted = 0;
    for _ in 0..300 {
        let clauses: Vec<Vec<i32>> = (0..30)
            .map(|_| {
                let mut c: Vec<i32> = Vec::new();
                while c.len() < 3 {
                    let v = 1 + (rng.next() % 6) as i32;
                    if !c.contains(&v) && !c.contains(&-v) {
                        c.push(if rng.next() & 1 == 0 { v } else { -v });
                    }
                }
                c
            })
            .collect();
        let mut solver = CdclSolver::new(6);
        solver.enable_proof_logging();
        for c in &clauses {
            let lits: Vec<Literal> = c
                .iter()
                .map(|&l| Literal::new(l.unsigned_abs(), l > 0))
                .collect();
            solver.add_clause(&lits);
        }
        if solver.solve(&[], u64::MAX).is_unsat() {
            let log = solver.take_proof_log().unwrap();
            assert!(verify_drup(6, &clauses, &log).is_ok());
            refuted += 1;
        }
    }
    assert!(refuted > 0);
}

#[test]
fn a_repeated_literal_is_no_unit_for_the_verifier() {
    // The clauses contradict each other, but neither is taken for a unit.
    assert!(matches!(
        verify_drup(1, &[vec![1, 1], vec![-1, -1]], &[vec![]]),
        Err(DrupError::NotRup { step: 0, .. })
    ));
}

#[test]
fn empty_clauses_are_kept() {
    let clauses = vec![vec![1, 2], vec![], vec![-2]];
    let text = ProofFile::write_unsat(2, &clauses, &[vec![]]);
    let pf = ProofFile::parse(&text).unwrap();
    assert_eq!(pf.clauses, clauses);
    assert_eq!(pf.drup, vec![Vec::<i32>::new()]);
    pf.verify().unwrap();
    let sat = ProofFile::parse("p cnf 1 1\n0\ns SAT\nv 1 0\n").unwrap();
    assert_eq!(sat.clauses, vec![Vec::<i32>::new()]);
    assert!(matches!(sat.verify(), Err(ProofError::BadModel)));
}
