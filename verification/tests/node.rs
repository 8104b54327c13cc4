//! Look-ahead splitting and the reports of a worker node.

use reasonmesh::coordinator::state::strip_check_sat;
use reasonmesh::node::lookahead::{
    candidates, count_occurrences, make_split_assertions, parse_declarations, pick_by_frequency,
    pick_probed, pick_split, probe_script, score, sort_of, Decl, ProbeOutcome, SExpr, Split,
    VarSort,
};
use reasonmesh::node::solve::{
    after_poll, renewal_interval_ms, report_of, Binding, NextStep, PollOutcome, SolveOutcome,
};

/// The expressions of a script.
fn read(script: &str) -> Vec<SExpr> {
    let spaced = script.replace('(', " ( ").replace(')', " ) ");
    let mut open: Vec<Vec<SExpr>> = vec![Vec::new()];
    for word in spaced.split_whitespace() {
        match word {
            "(" => open.push(Vec::new()),
            ")" => {
                let list = open.pop().unwrap();
                open.last_mut().unwrap().push(SExpr::List(list));
            }
            _ => {
                let atom = match word.parse::<u64>() {
                    Ok(n) => SExpr::Numeral(n),
                    Err(_) if word.starts_with('#') => SExpr::Other,
                    Err(_) => SExpr::Symbol(word.to_string()),
                };
                open.last_mut().unwrap().push(atom);
            }
        }
    }
    open.pop().unwrap()
}

// ── parse_declarations ────────────────────────────────────────────────────

#[test]
fn parse_bv_bool_int_decls() {
    let script =
        "(set-logic QF_BV)\n\
         (declare-const x (_ BitVec 8))\n\
         (declare-const flag Bool)\n\
         (declare-const n Int)\n\
         (declare-fun f () (_ BitVec 16))\n\
         (assert true)\n";
    let decls = parse_declarations(&read(script));
    assert_eq!(decls.len(), 4);
    assert_eq!(decls[0].name, "x");
    assert_eq!(decls[0].sort, VarSort::BitVec(8));
    assert_eq!(decls[1].name, "flag");
    assert_eq!(decls[1].sort, VarSort::Bool);
    assert_eq!(decls[2].name, "n");
    assert_eq!(decls[2].sort, VarSort::Int);
    assert_eq!(decls[3].name, "f");
    assert_eq!(decls[3].sort, VarSort::BitVec(16));
}

#[test]
fn parse_empty_script() {
    let decls = parse_declarations(&read("(set-logic QF_BV) (check-sat)"));
    assert!(decls.is_empty());
}

#[test]
fn nullary_fun_parsed() {
    let decls = parse_declarations(&read("(declare-fun g () Bool)"));
    assert_eq!(decls.len(), 1);
    assert_eq!(decls[0].sort, VarSort::Bool);
}

#[test]
fn non_nullary_fun_ignored() {
    // (declare-fun h (Int) Bool) — not nullary, should be skipped.
    let decls = parse_declarations(&read("(declare-fun h (Int) Bool)"));
    assert_eq!(decls.len(), 0);
}

// ── count_occurrences ─────────────────────────────────────────────────────

#[test]
fn occurrence_count_basic() {
    let s = "(assert (bvult x (_ bv5 8))) (assert (= x (_ bv3 8)))";
    assert_eq!(count_occurrences(s, "x"), 2);
}

#[test]
fn occurrence_count_no_substring_match() {
    // "xy" must not match inside "xyz"
    let s = "(declare-const xyz Bool) (assert xyz)";
    assert_eq!(count_occurrences(s, "xy"), 0);
    assert_eq!(count_occurrences(s, "xyz"), 2);
}

// ── make_split_assertions ─────────────────────────────────────────────────

#[test]
fn split_bool() {
    let decl = Decl { name: "flag".into(), sort: VarSort::Bool };
    let Split { pos, neg } = make_split_assertions(&decl);
    assert_eq!(pos, "(assert flag)");
    assert_eq!(neg, "(assert (not flag))");
}

#[test]
fn split_bitvec_8() {
    let decl = Decl { name: "x".into(), sort: VarSort::BitVec(8) };
    let Split { pos, neg } = make_split_assertions(&decl);
    assert_eq!(pos, "(assert (bvult x (_ bv128 8)))");
    assert_eq!(neg, "(assert (not (bvult x (_ bv128 8))))");
}

#[test]
fn split_bitvec_1() {
    // Width-1: mid = 2^0 = 1, so split is x < 1 (i.e. x = 0b0) vs x >= 1 (i.e. x = 0b1).
    let decl = Decl { name: "b".into(), sort: VarSort::BitVec(1) };
    let Split { pos, neg } = make_split_assertions(&decl);
    assert_eq!(pos, "(assert (bvult b (_ bv1 1)))");
    assert_eq!(neg, "(assert (not (bvult b (_ bv1 1))))");
}

#[test]
fn split_int() {
    let decl = Decl { name: "n".into(), sort: VarSort::Int };
    let Split { pos, neg } = make_split_assertions(&decl);
    assert_eq!(pos, "(assert (>= n 0))");
    assert_eq!(neg, "(assert (< n 0))");
}

// ── pick_split (no probing) ───────────────────────────────────────────────

#[test]
fn pick_split_frequency_heuristic() {
    // x appears 3 times, y appears once → x should be chosen.
    let script =
        "(set-logic QF_BV)\n\
         (declare-const x (_ BitVec 8))\n\
         (declare-const y (_ BitVec 8))\n\
         (assert (bvult x (_ bv100 8)))\n\
         (assert (bvugt x (_ bv50 8)))\n\
         (assert (= y (_ bv5 8)))\n\
         (check-sat)\n";
    let split = pick_split(script, &read(script), &[]).expect("should find a split");
    assert!(split.pos.contains("x"), "expected x in pos branch, got {:?}", split.pos);
    assert!(split.neg.contains("x"), "expected x in neg branch, got {:?}", split.neg);
}

#[test]
fn pick_split_no_decls_returns_none() {
    let script = "(set-logic QF_BV) (assert true) (check-sat)";
    assert!(pick_split(script, &read(script), &[]).is_none());
}

// ── probes ───────────────────────────────────────────────────────────────

#[test]
fn probe_unsat_branch_scores_100() {
    // Adding (assert (bvult x #b0000)) to a script where x = #b0000
    // makes it UNSAT (can't have bvult 0 0).
    let base =
        "(set-logic QF_BV)\n\
         (declare-const x (_ BitVec 4))\n\
         (assert (= x #b0000))";
    let assertion = "(assert (bvult x #b0000))";
    assert_eq!(
        probe_script(base, assertion),
        "(set-logic QF_BV)\n(declare-const x (_ BitVec 4))\n(assert (= x #b0000))\n\
         (assert (bvult x #b0000))\n(check-sat)\n"
    );
    assert_eq!(score(ProbeOutcome::Unsat), 100, "UNSAT branch should score 100");
}

#[test]
fn probe_sat_branch_scores_10() {
    let base =
        "(set-logic QF_BV)\n\
         (declare-const x (_ BitVec 8))";
    let assertion = "(assert (bvult x (_ bv128 8)))";
    assert!(probe_script(base, assertion).contains(assertion));
    assert_eq!(score(ProbeOutcome::Sat), 10, "SAT branch should score 10");
}

// ── pick_split with probing ───────────────────────────────────────────────

#[test]
fn pick_split_with_probing_returns_valid_split() {
    let script =
        "(set-logic QF_BV)\n\
         (declare-const x (_ BitVec 8))\n\
         (assert (bvult x (_ bv200 8)))\n\
         (check-sat)\n";
    let chosen = candidates(script, parse_declarations(&read(script)));
    // Both halves of the range of x are feasible.
    let probes = vec![(ProbeOutcome::Sat, ProbeOutcome::Sat); chosen.len()];
    let split = pick_split(script, &read(script), &probes).expect("should find a split");
    // The split assertions must partition the space.
    assert!(split.pos.starts_with("(assert "));
    assert!(split.neg.starts_with("(assert "));
    // Pos and neg should be complementary (neg wraps in (not ...)).
    assert!(split.neg.contains("(not"), "neg branch should negate pos: {:?}", split.neg);
}

#[test]
fn strip_check_sat_basic() {
    assert_eq!(strip_check_sat("(assert true)\n(check-sat)"), "(assert true)");
    assert_eq!(strip_check_sat("(check-sat)"), "");
    assert_eq!(strip_check_sat("(assert true)"), "(assert true)");
}

#[test]
fn solve_bv_unsat() {
    let (code, _) = report_of(&SolveOutcome::Unsat);
    assert_eq!(code, 1);
}

#[test]
fn solve_bv_sat() {
    let values = vec![
        Binding { name: "x".into(), value: "(_ bv3 8)".into() },
        Binding { name: "y".into(), value: "true".into() },
    ];
    let (code, model) = report_of(&SolveOutcome::Sat(values));
    assert_eq!(code, 0);
    assert!(!model.is_empty(), "expected model string");
    assert_eq!(model, "(x (_ bv3 8)) (y true)");
}

#[test]
fn solve_idl_unsat() {
    let (code, model) = report_of(&SolveOutcome::Unsat);
    assert_eq!(code, 1);
    assert!(model.is_empty());
}

#[test]
fn solve_parse_error_returns_unknown() {
    let (code, msg) = report_of(&SolveOutcome::ParseError("unbalanced".into()));
    assert_eq!(code, 2);
    assert!(msg.contains("parse error"));
}

#[test]
fn solve_empty_problem_returns_sat() {
    let (code, _) = report_of(&SolveOutcome::EmptyProblem);
    assert_eq!(code, 0);
}

#[test]
fn other_failures_are_unknown() {
    assert_eq!(report_of(&SolveOutcome::Unknown), (2, String::new()));
    assert_eq!(
        report_of(&SolveOutcome::SolverError("lost".into())),
        (2, "solver error: lost".to_string())
    );
}

#[test]
fn vectors_of_any_width_are_halved() {
    let wide = Decl { name: "x".into(), sort: VarSort::BitVec(129) };
    let split = make_split_assertions(&wide);
    assert_eq!(
        split.pos,
        "(assert (bvult x (_ bv340282366920938463463374607431768211456 129)))"
    );
    assert_eq!(
        split.neg,
        "(assert (not (bvult x (_ bv340282366920938463463374607431768211456 129))))"
    );
    assert_eq!(pick_by_frequency("x", vec![wide]).unwrap().pos, split.pos);
    let most = Decl { name: "m".into(), sort: VarSort::BitVec(128) };
    assert_eq!(
        make_split_assertions(&most).pos,
        "(assert (bvult m (_ bv170141183460469231731687303715884105728 128)))"
    );
    let one = Decl { name: "b".into(), sort: VarSort::BitVec(1) };
    assert_eq!(make_split_assertions(&one).pos, "(assert (bvult b (_ bv1 1)))");
}

#[test]
fn candidates_are_the_most_frequent() {
    let script = "(declare-const a Bool) (declare-const b Bool) (declare-const c Bool)\n\
        (declare-const d Bool) (declare-const e Bool) (assert (and e e b))";
    let names: Vec<String> = candidates(script, parse_declarations(&read(script)))
        .into_iter()
        .map(|d| d.name)
        .collect();
    assert_eq!(names, vec!["e", "b", "a", "c"]);
}

#[test]
fn elimination_beats_everything() {
    let probes = [
        (ProbeOutcome::Sat, ProbeOutcome::Sat),
        (ProbeOutcome::Unknown, ProbeOutcome::Unsat),
        (ProbeOutcome::Unsat, ProbeOutcome::Unknown),
    ];
    assert_eq!(pick_probed(&probes), Some(1));
    assert_eq!(pick_probed(&[]), None);
    assert_eq!(score(ProbeOutcome::Unknown), 5);
}

#[test]
fn unknown_sorts_are_skipped() {
    assert_eq!(sort_of(&SExpr::Symbol("Real".into())), None);
    assert!(parse_declarations(&read("(declare-const r Real)")).is_empty());
}

#[test]
fn worker_steps() {
    assert_eq!(after_poll(PollOutcome::Unreachable), NextStep::BackOff);
    assert_eq!(after_poll(PollOutcome::Status(204)), NextStep::PollAgain);
    assert_eq!(after_poll(PollOutcome::Status(200)), NextStep::TakeTask);
    assert_eq!(after_poll(PollOutcome::Status(503)), NextStep::BackOff);
    assert_eq!(renewal_interval_ms(60_000), 30_000);
    assert_eq!(renewal_interval_ms(4_000), 5_000);
}
