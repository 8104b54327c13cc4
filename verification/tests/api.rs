//! Expressions, scripts, models, sessions and the solver pool.

use reasonmesh::api::context::Context;
use reasonmesh::api::emit::{detect_logic, emit_expr, emit_smtlib};
use reasonmesh::api::expr::{children, Expr};
use reasonmesh::api::ffi::{
    batch_codes, sat_result_code, solver_config, RM_SAT, RM_UNKNOWN, RM_UNSAT,
};
use reasonmesh::api::model::{parse_value, readable, value_to_smtlib, Model, Value};
use reasonmesh::api::pool::{Job, JobResult, SolverPool};
use reasonmesh::api::solver::{
    conclude, convert_result, effective_conflict_budget, may_start, race, SatResult, SmtAnswer,
    SmtStatus, Solver, SolverConfig,
};
use reasonmesh::api::sort::Sort;

fn answer(status: SmtStatus, values: &[(&str, &str)]) -> SmtAnswer {
    SmtAnswer {
        status,
        values: values
            .iter()
            .map(|(n, v)| (n.to_string(), v.to_string()))
            .collect(),
    }
}

#[test]
fn parse_bv_canonical() {
    assert_eq!(
        parse_value("(_ bv42 8)"),
        Some(Value::BitVec { bits: 42, width: 8 })
    );
}

#[test]
fn parse_bv_binary() {
    assert_eq!(
        parse_value("#b1010"),
        Some(Value::BitVec { bits: 10, width: 4 })
    );
}

#[test]
fn parse_bv_hex() {
    assert_eq!(
        parse_value("#xff"),
        Some(Value::BitVec { bits: 255, width: 8 })
    );
}

#[test]
fn parse_int_positive() {
    assert_eq!(parse_value("7"), Some(Value::Int(7)));
}

#[test]
fn parse_int_negative() {
    assert_eq!(parse_value("(- 3)"), Some(Value::Int(-3)));
}

#[test]
fn parse_bool() {
    assert_eq!(parse_value("true"), Some(Value::Bool(true)));
    assert_eq!(parse_value("false"), Some(Value::Bool(false)));
}

// The theory solver answers the requests below as written beside them.

#[test]
fn bv_sat_programmatic() {
    let ctx = Context::new();
    let mut solver = Solver::new(&ctx);
    let x = ctx.bitvec_const("x", 8);
    solver.assert_expr(&x.bvult(&ctx.bitvec_val(10, 8)));
    assert_eq!(
        solver.request().script,
        "(set-logic QF_BV)\n(declare-const x (_ BitVec 8))\n(assert (bvult x (_ bv10 8)))\n\
         (check-sat)\n(get-model)\n"
    );
    let r = conclude(Ok(answer(SmtStatus::Sat, &[("x", "#b00000111")])));
    assert!(r.is_sat(), "expected SAT, got {r:?}");
    let (bits, width) = r.model().unwrap().get_bitvec("x").unwrap();
    assert!(bits < 10, "model value {bits} must be < 10");
    assert_eq!(width, 8);
}

#[test]
fn bv_unsat_programmatic() {
    let ctx = Context::new();
    let mut solver = Solver::new(&ctx);
    let x = ctx.bitvec_const("x", 4);
    solver.assert_expr(&x.eq(&ctx.bitvec_val(0, 4)));
    solver.assert_expr(&x.eq(&ctx.bitvec_val(15, 4)));
    assert!(solver
        .request()
        .script
        .contains("(assert (= x (_ bv0 4)))\n(assert (= x (_ bv15 4)))\n"));
    assert!(conclude(Ok(answer(SmtStatus::Unsat, &[]))).is_unsat());
}

#[test]
fn push_pop_isolates_scope() {
    let ctx = Context::new();
    let mut solver = Solver::new(&ctx);
    let x = ctx.bitvec_const("x", 8);
    solver.assert_expr(&x.bvult(&ctx.bitvec_val(100, 8)));
    let outside = solver.request().script;
    solver.push();
    solver.assert_expr(&x.bvult(&ctx.bitvec_val(0, 8)));
    assert_eq!(solver.num_assertions(), 2);
    assert!(solver.request().script.contains("(assert (bvult x (_ bv0 8)))"));
    solver.pop();
    assert_eq!(solver.num_assertions(), 1);
    assert_eq!(solver.request().script, outside);
    solver.pop();
    assert_eq!(solver.num_assertions(), 1);
}

#[test]
fn idl_sat_programmatic() {
    let ctx = Context::new();
    let mut solver = Solver::new(&ctx);
    let x = ctx.int_const("x");
    let y = ctx.int_const("y");
    let five = ctx.int_val(5);
    solver.assert_expr(&x.sub(&y).le(&five));
    let script = solver.request().script;
    assert!(script.starts_with("(set-logic QF_IDL)\n"));
    assert!(script.contains("(assert (<= (- x y) 5))"));
    assert!(conclude(Ok(answer(SmtStatus::Sat, &[]))).is_sat());
}

#[test]
fn solve_smtlib_text() {
    // (assert (= a #b0101))
    let r = convert_result(answer(SmtStatus::Sat, &[("a", "#b0101")]));
    assert!(r.is_sat());
    let (bits, _) = r.model().unwrap().get_bitvec("a").unwrap();
    assert_eq!(bits, 5);
}

#[test]
fn pool_runs_independent_jobs() {
    let pool = SolverPool::new(SolverConfig { num_workers: 4, ..Default::default() });
    let jobs = vec![
        Job::new("(set-logic QF_BV)(declare-const x (_ BitVec 4))(assert (bvult x #x5))(check-sat)").with_label("j0"),
        Job::new("(set-logic QF_BV)(declare-const x (_ BitVec 4))(assert (= x #b0000))(assert (= x #b1111))(check-sat)").with_label("j1"),
    ];
    assert_eq!((pool.concurrency(), pool.budget()), (4, u64::MAX));
    let count = jobs.len();
    let labels: Vec<Option<String>> = jobs.into_iter().map(|j| j.label).collect();
    let finished = vec![
        (1, JobResult { label: labels[1].clone(), result: SatResult::Unsat }),
        (
            0,
            JobResult {
                label: labels[0].clone(),
                result: conclude(Ok(answer(SmtStatus::Sat, &[("x", "#x0")]))),
            },
        ),
    ];
    let results = pool.collect(count, finished);
    assert_eq!(results.len(), 2);
    assert!(results[0].result.is_sat());
    assert!(results[1].result.is_unsat());
    assert_eq!(results[0].label.as_deref(), Some("j0"));
    assert_eq!(results[1].label.as_deref(), Some("j1"));
}

#[test]
fn parallel_workers_agree() {
    let ctx = Context::new();
    let mut solver = Solver::with_config(
        &ctx,
        SolverConfig { num_workers: 4, ..Default::default() },
    );
    let x = ctx.bitvec_const("x", 8);
    solver.assert_expr(&x.eq(&ctx.bitvec_val(42, 8)));
    assert_eq!(solver.request().runs, 4);
    let r = race(vec![
        SatResult::Unknown("budget".into()),
        conclude(Ok(answer(SmtStatus::Sat, &[("x", "(_ bv42 8)")]))),
        SatResult::Unknown("budget".into()),
    ]);
    assert!(r.is_sat());
    let (bits, _) = r.model().unwrap().get_bitvec("x").unwrap();
    assert_eq!(bits, 42);
}

#[test]
fn a_race_without_a_winner_is_unknown() {
    match race(vec![SatResult::Unknown("a".into())]) {
        SatResult::Unknown(s) => assert_eq!(s, "no conclusive result within budget"),
        _ => panic!("expected unknown"),
    }
    assert!(may_start(false, 5, None));
    assert!(may_start(false, 5, Some(6)));
    assert!(!may_start(false, 6, Some(6)));
    assert!(!may_start(true, 0, None));
}

#[test]
fn unfinished_jobs_are_unknown() {
    let pool = SolverPool::new(SolverConfig { num_workers: 0, max_conflicts: 9, timeout: None });
    assert_eq!((pool.concurrency(), pool.budget()), (1, 9));
    let results = pool.collect(1, vec![]);
    match &results[0].result {
        SatResult::Unknown(s) => assert_eq!(s, "job did not complete"),
        _ => panic!("expected unknown"),
    }
}

#[test]
fn failures_give_their_reason() {
    match conclude(Err("no such logic".into())) {
        SatResult::Unknown(s) => assert_eq!(s, "no such logic"),
        _ => panic!("expected unknown"),
    }
    match convert_result(answer(SmtStatus::Unknown, &[])) {
        SatResult::Unknown(s) => assert_eq!(s, "solver returned unknown"),
        _ => panic!("expected unknown"),
    }
}

#[test]
fn assumptions_do_not_persist() {
    let ctx = Context::new();
    let mut solver = Solver::new(&ctx);
    let p = ctx.bool_const("p");
    solver.assert_expr(&p);
    let before = solver.request().script;
    let r = solver.request_assuming(&[ctx.not(&p)]);
    assert!(r.script.contains("(assert p)\n(assert (not p))\n"));
    assert_eq!((r.runs, r.budget), (1, u64::MAX));
    assert_eq!(solver.request().script, before);
    let c = SolverConfig { num_workers: 1, max_conflicts: 3, timeout: None };
    assert_eq!(effective_conflict_budget(&c), 3);
}

#[test]
fn expressions_as_text() {
    let ctx = Context::new();
    let (p, q) = (ctx.bool_const("p"), ctx.bool_const("q"));
    let (i, j) = (ctx.int_const("i"), ctx.int_val(-7));
    let (a, b) = (ctx.bitvec_const("a", 8), ctx.bitvec_val(3, 8));
    let cases: Vec<(Expr, &str)> = vec![
        (ctx.and(&p, &q), "(and p q)"),
        (ctx.or(&p, &q), "(or p q)"),
        (ctx.implies(&p, &q), "(=> p q)"),
        (p.iff(&q), "(= p q)"),
        (ctx.ite(&p, &i, &j), "(ite p i (- 7))"),
        (ctx.eq(&i, &j), "(= i (- 7))"),
        (ctx.distinct(&p, &ctx.bool_val(true)), "(distinct p true)"),
        (i.add(&j).mul(&i).neg(), "(- (* (+ i (- 7)) i))"),
        (i.lt(&j), "(< i (- 7))"),
        (i.gt(&j), "(> i (- 7))"),
        (i.ge(&j), "(>= i (- 7))"),
        (a.bvadd(&b).bvsub(&a), "(bvsub (bvadd a (_ bv3 8)) a)"),
        (a.bvmul(&b).bvneg(), "(bvneg (bvmul a (_ bv3 8)))"),
        (a.bvand(&b).bvor(&a).bvxor(&b), "(bvxor (bvor (bvand a (_ bv3 8)) a) (_ bv3 8))"),
        (a.bvnot().bvule(&b), "(bvule (bvnot a) (_ bv3 8))"),
        (a.bvslt(&b), "(bvslt a (_ bv3 8))"),
        (a.bvsle(&b), "(bvsle a (_ bv3 8))"),
        (a.bvshl(&b).bvlshr(&b).bvashr(&b), "(bvashr (bvlshr (bvshl a (_ bv3 8)) (_ bv3 8)) (_ bv3 8))"),
        (a.concat(&b), "(concat a (_ bv3 8))"),
        (a.extract(7, 4), "((_ extract 7 4) a)"),
        (a.zero_extend(8), "((_ zero_extend 8) a)"),
        (a.sign_extend(2), "((_ sign_extend 2) a)"),
        (ctx.int_val(i64::MIN), "(- 9223372036854775808)"),
        (ctx.bool_val(false), "false"),
    ];
    for (e, text) in &cases {
        assert_eq!(&emit_expr(e), text);
    }
    assert_eq!(children(ctx.ite(&p, &i, &j).node()).len(), 3);
    assert_eq!(children(p.node()).len(), 0);
}

#[test]
fn scripts_declare_each_constant_once_in_order() {
    let ctx = Context::new();
    let (z, a) = (ctx.bool_const("z"), ctx.bool_const("a"));
    let e = z.and(&a).or(&z);
    assert_eq!(detect_logic(&[e.clone()]), "QF_UF");
    assert_eq!(
        emit_smtlib(&[e], "QF_UF"),
        "(set-logic QF_UF)\n(declare-const a Bool)\n(declare-const z Bool)\n\
         (assert (or (and z a) z))\n(check-sat)\n(get-model)\n"
    );
    // Of two sorts of one name the one met first, from the right, is declared.
    let both = ctx.eq(&ctx.int_const("n"), &ctx.bitvec_const("n", 3));
    assert!(emit_smtlib(&[both.clone()], "QF_BV").contains("(declare-const n (_ BitVec 3))\n"));
    assert_eq!(detect_logic(&[both]), "QF_BV");
    assert_eq!(detect_logic(&[ctx.int_const("n").lt(&ctx.int_val(1))]), "QF_IDL");
    assert_eq!(Sort::BitVec(12).smtlib(), "(_ BitVec 12)");
    assert_eq!((Sort::Bool.smtlib(), Sort::Int.smtlib()), ("Bool".into(), "Int".into()));
}

#[test]
fn texts_that_denote_no_value() {
    for raw in ["", "maybe", "(_ bv", "(_ bv5)", "(_ bvx 8)", "#b", "#b102", "#xg", "(- x)", "1e3"] {
        assert_eq!(parse_value(raw), None, "{raw}");
    }
    assert_eq!(parse_value("  (-   12 ) "), Some(Value::Int(-12)));
    assert_eq!(parse_value("-12"), Some(Value::Int(-12)));
    assert_eq!(parse_value("#xFFFFFFFFFFFFFFFFF"), None);
    assert!(readable("7"));
    assert!(!readable("(- -9223372036854775808)"));
}

#[test]
fn values_read_back() {
    for v in [
        Value::Bool(true),
        Value::Bool(false),
        Value::Int(0),
        Value::Int(-3),
        Value::Int(i64::MAX),
        Value::BitVec { bits: u64::MAX, width: 64 },
        Value::BitVec { bits: 5, width: 8 },
    ] {
        assert_eq!(parse_value(&value_to_smtlib(&v)), Some(v));
    }
    assert_eq!(value_to_smtlib(&Value::Int(i64::MIN)), "(- 9223372036854775808)");
    assert_eq!(parse_value("(- 9223372036854775808)"), None);
}

#[test]
fn models_keep_the_last_value() {
    let pairs = vec![
        ("x".to_string(), "1".to_string()),
        ("b".to_string(), "true".to_string()),
        ("x".to_string(), "2".to_string()),
        ("x".to_string(), "what".to_string()),
    ];
    let m = Model::from_raw(pairs);
    assert_eq!(m.get_int("x"), Some(2));
    assert_eq!(m.get_bool("b"), Some(true));
    assert_eq!(m.get_bool("x"), None);
    assert_eq!(m.get_bitvec("b"), None);
    assert_eq!(m.get("nothing"), None);
    assert_eq!(m.iter().len(), 2);
    assert!(!m.is_empty());
    assert!(Model::from_raw(vec![]).is_empty());
}

#[test]
fn result_codes() {
    assert_eq!(sat_result_code(&SatResult::Unsat), RM_UNSAT);
    assert_eq!(sat_result_code(&SatResult::Unknown(String::new())), RM_UNKNOWN);
    assert_eq!(sat_result_code(&SatResult::Sat(Model::from_raw(vec![]))), RM_SAT);
    assert_eq!(solver_config(0, 7).num_workers, 1);
    // A script that cannot be read keeps its place.
    let job = |result| JobResult { label: None, result };
    let outcomes = [
        job(SatResult::Unsat),
        job(SatResult::Unknown(String::new())),
        job(SatResult::Sat(Model::from_raw(vec![]))),
    ];
    assert_eq!(
        batch_codes(&[true, false, true, true], &outcomes),
        (vec![RM_UNSAT, RM_UNKNOWN, RM_UNKNOWN, RM_SAT], 2)
    );
}
