//! Solving a DIMACS instance: the clauses become literals of a solver, and a
//! model is checked against the clauses as they were given.

use vstd::prelude::*;

use crate::akx::literal::{Literal, MAX_VAR};
#[allow(unused_imports)]
use crate::akx::logic;
#[allow(unused_imports)]
use crate::akx::stop;
use crate::akx::stop::Stop;
use crate::certify::model::{check_dimacs_model, var_of};
#[allow(unused_imports)]
use crate::certify::model::{good_before, model_valuation, stops_at};
#[allow(unused_imports)]
use crate::sat::cdcl;
use crate::sat::cdcl::{CdclSolver, SolveResult};
use crate::sat::clause::FIRST_SENTINEL;
use crate::sat::dimacs::DimacsCnf;
use crate::sat::model::Model;
#[allow(unused_imports)]
use crate::sat::state;
#[allow(unused_imports)]
use crate::sat::trace;
use std::time::Instant;

verus! {

/// The literal that a DIMACS literal stands for.
pub open spec fn lit_of(l: i32) -> Literal {
    if l > 0 {
        Literal((l * 2) as u32)
    } else {
        Literal((-l * 2 + 1) as u32)
    }
}

pub fn dimacs_lit(l: i32) -> (r: Literal)
    requires
        l != 0,
        l != i32::MIN,
    ensures
        r == lit_of(l),
        r.var() == logic::dimacs_var(l),
        r.is_positive() == (l > 0),
{
    if l > 0 {
        Literal::positive(l as u32)
    } else {
        Literal::negative((-l) as u32)
    }
}

/// The literals of a DIMACS clause.
pub open spec fn lits_of(clause: Seq<i32>) -> Seq<Literal> {
    clause.map_values(|l: i32| lit_of(l))
}

/// The literals of the clauses of a DIMACS formula.
pub open spec fn formula_of(clauses: Seq<Seq<i32>>) -> Seq<Seq<Literal>> {
    clauses.map_values(|c: Seq<i32>| lits_of(c))
}

/// Every literal is nonzero and within the declared variables.
pub open spec fn clause_ok(num_vars: u32, clause: Seq<i32>) -> bool {
    forall|j: int|
        0 <= j < clause.len() ==> #[trigger] clause[j] != 0 && logic::dimacs_var(clause[j])
            <= num_vars
}

/// The instance is within what a solver can hold, and its literals are within
/// its variables.
pub open spec fn loadable(num_vars: u32, clauses: Seq<Seq<i32>>) -> bool {
    &&& num_vars < MAX_VAR
    &&& clauses.len() < FIRST_SENTINEL
    &&& forall|i: int| 0 <= i < clauses.len() ==> clause_ok(num_vars, #[trigger] clauses[i])
}

/// Whether a solver can hold the instance.
pub fn is_loadable(cnf: &DimacsCnf) -> (b: bool)
    ensures
        b == loadable(cnf.num_vars, logic::clause_views(cnf.clauses@)),
{
    let ghost all = logic::clause_views(cnf.clauses@);
    if cnf.num_vars >= MAX_VAR || cnf.clauses.len() >= FIRST_SENTINEL as usize {
        return false;
    }
    let mut i: usize = 0;
    while i < cnf.clauses.len()
        invariant
            i <= cnf.clauses@.len(),
            all == logic::clause_views(cnf.clauses@),
            forall|k: int| 0 <= k < i ==> clause_ok(cnf.num_vars, #[trigger] all[k]),
        decreases cnf.clauses@.len() - i,
    {
        let clause: &Vec<i32> = &cnf.clauses[i];
        assert(all[i as int] == clause@);
        let mut j: usize = 0;
        while j < clause.len()
            invariant
                i < cnf.clauses@.len(),
                all == logic::clause_views(cnf.clauses@),
                clause@ == all[i as int],
                j <= clause@.len(),
                forall|k: int|
                    0 <= k < j ==> #[trigger] clause@[k] != 0 && logic::dimacs_var(clause@[k])
                        <= cnf.num_vars,
            decreases clause@.len() - j,
        {
            if clause[j] == 0 || var_of(clause[j]) > cnf.num_vars {
                assert(!clause_ok(cnf.num_vars, all[i as int]));
                return false;
            }
            j += 1;
        }
        i += 1;
    }
    true
}

proof fn lit_agrees(val: logic::Valuation, l: i32)
    requires
        l != 0,
        logic::dimacs_var(l) < MAX_VAR,
    ensures
        logic::lit_holds(val, lit_of(l)) == logic::dimacs_holds(val, l),
        lit_of(l).var() == logic::dimacs_var(l),
{
    let raw = lit_of(l).0;
    if l > 0 {
        assert(raw == l * 2);
    } else {
        assert(raw == -l * 2 + 1);
    }
}

/// A clause and its literals hold under the same valuations.
pub proof fn clause_agrees(val: logic::Valuation, num_vars: u32, clause: Seq<i32>)
    requires
        num_vars < MAX_VAR,
        clause_ok(num_vars, clause),
    ensures
        logic::clause_holds(val, lits_of(clause)) == logic::dimacs_clause_holds(val, clause),
{
    let lits = lits_of(clause);
    assert forall|j: int| 0 <= j < clause.len() implies #[trigger] logic::lit_holds(val, lits[j])
        == logic::dimacs_holds(val, clause[j]) by {
        assert(clause[j] != 0);
        lit_agrees(val, clause[j]);
    }
    if logic::clause_holds(val, lits) {
        let j = choose|j: int| 0 <= j < lits.len() && logic::lit_holds(val, #[trigger] lits[j]);
        assert(logic::dimacs_holds(val, clause[j]));
    }
    if logic::dimacs_clause_holds(val, clause) {
        let j = choose|j: int|
            0 <= j < clause.len() && logic::dimacs_holds(val, #[trigger] clause[j]);
        assert(logic::lit_holds(val, lits[j]));
    }
}

/// An instance and its literals hold under the same valuations.
pub proof fn formula_agrees(val: logic::Valuation, num_vars: u32, clauses: Seq<Seq<i32>>)
    requires
        loadable(num_vars, clauses),
    ensures
        logic::formula_holds(val, formula_of(clauses)) == logic::dimacs_formula_holds(
            val,
            clauses,
        ),
{
    let f = formula_of(clauses);
    assert forall|i: int| 0 <= i < clauses.len() implies logic::clause_holds(
        val,
        #[trigger] f[i],
    ) == logic::dimacs_clause_holds(val, clauses[i]) by {
        clause_agrees(val, num_vars, clauses[i]);
    }
    if logic::dimacs_formula_holds(val, clauses) {
        assert forall|i: int| 0 <= i < f.len() implies logic::clause_holds(
            val,
            #[trigger] f[i],
        ) by {
            assert(logic::dimacs_clause_holds(val, clauses[i]));
        }
    }
    if logic::formula_holds(val, f) {
        assert forall|i: int| 0 <= i < clauses.len() implies logic::dimacs_clause_holds(
            val,
            #[trigger] clauses[i],
        ) by {
            assert(logic::clause_holds(val, f[i]));
        }
    }
}

fn literals(num_vars: u32, clause: &Vec<i32>) -> (v: Vec<Literal>)
    requires
        num_vars < MAX_VAR,
        clause_ok(num_vars, clause@),
    ensures
        v@ == lits_of(clause@),
        state::lits_ok(num_vars, v@),
{
    let mut v: Vec<Literal> = Vec::new();
    let mut j: usize = 0;
    while j < clause.len()
        invariant
            j <= clause@.len(),
            num_vars < MAX_VAR,
            clause_ok(num_vars, clause@),
            v@ == lits_of(clause@).take(j as int),
            state::lits_ok(num_vars, v@),
        decreases clause@.len() - j,
    {
        assert(clause@[j as int] != 0);
        v.push(dimacs_lit(clause[j]));
        assert(v@ =~= lits_of(clause@).take(j + 1));
        j += 1;
    }
    assert(v@ =~= lits_of(clause@));
    v
}

/// A solver that holds the clauses of an instance.
pub fn build_cdcl_solver(cnf: &DimacsCnf, log: bool) -> (s: CdclSolver)
    requires
        loadable(cnf.num_vars, logic::clause_views(cnf.clauses@)),
    ensures
        s.well_formed(),
        s.vars() == cnf.num_vars,
        s.formula() == formula_of(logic::clause_views(cnf.clauses@)),
        s.log() == (if log {
            Some(Seq::<Vec<i32>>::empty())
        } else {
            None
        }),
        s.counters() == (0u64, 0u64, 0u64, 0u64),
        s.learned_clauses().len() == 0,
        log ==> s.mirrored(),
{
    let ghost all = logic::clause_views(cnf.clauses@);
    let mut s = CdclSolver::new(cnf.num_vars);
    if log {
        s.enable_proof_logging();
    }
    let mut i: usize = 0;
    assert(s.formula() =~= formula_of(all).take(0));
    while i < cnf.clauses.len()
        invariant
            i <= cnf.clauses@.len(),
            all == logic::clause_views(cnf.clauses@),
            loadable(cnf.num_vars, all),
            s.well_formed(),
            s.vars() == cnf.num_vars,
            s.stored() <= i,
            s.formula() == formula_of(all).take(i as int),
            s.log() == (if log {
                Some(Seq::<Vec<i32>>::empty())
            } else {
                None
            }),
            s.counters() == (0u64, 0u64, 0u64, 0u64),
            s.learned_clauses().len() == 0,
            log ==> s.mirrored(),
        decreases cnf.clauses@.len() - i,
    {
        assert(all[i as int] == cnf.clauses@[i as int]@);
        let lits: Vec<Literal> = literals(cnf.num_vars, &cnf.clauses[i]);
        s.add_clause(lits.as_slice());
        assert(s.formula() =~= formula_of(all).take(i + 1));
        i += 1;
    }
    assert(s.formula() =~= formula_of(all));
    s
}

/// The values of a model by variable; the one at 0 is unused.
pub fn raw_values(m: &Model, num_vars: u32) -> (raw: Vec<bool>)
    requires
        m.values().len() == num_vars + 1,
    ensures
        raw@.len() == num_vars + 1,
        !raw@[0],
        forall|v: int| 1 <= v <= num_vars ==> #[trigger] raw@[v] == m.values()[v],
{
    let mut raw: Vec<bool> = Vec::new();
    raw.push(false);
    let mut v: u32 = 0;
    while v < num_vars
        invariant
            v <= num_vars,
            m.values().len() == num_vars + 1,
            raw@.len() == v + 1,
            !raw@[0],
            forall|k: int| 1 <= k <= v ==> #[trigger] raw@[k] == m.values()[k],
        decreases num_vars - v,
    {
        v += 1;
        raw.push(m.value_of(v));
    }
    raw
}

/// A clause within the variables holds under values that agree on those.
pub proof fn clause_frame(num_vars: u32, clause: Seq<i32>, a: Seq<bool>, b: Seq<bool>)
    requires
        clause_ok(num_vars, clause),
        a.len() == num_vars + 1,
        b.len() == num_vars + 1,
        forall|v: int| 1 <= v <= num_vars ==> #[trigger] a[v] == b[v],
        logic::dimacs_clause_holds(model_valuation(a), clause),
    ensures
        logic::dimacs_clause_holds(model_valuation(b), clause),
{
    let j = choose|j: int|
        0 <= j < clause.len() && logic::dimacs_holds(model_valuation(a), #[trigger] clause[j]);
    assert(clause[j] != 0);
    let v = logic::dimacs_var(clause[j]);
    assert(a[v] == b[v]);
    assert(logic::dimacs_holds(model_valuation(b), clause[j]));
}

/// What became of one run.
#[derive(Clone, Copy, Debug, PartialEq, Eq, Structural)]
pub enum Outcome {
    Sat,
    Unsat,
    Unknown,
}

/// Aggregate search counters reported by a run (single solver or a pool).
#[derive(Clone, Copy, Debug, PartialEq, Eq, Structural)]
pub struct RunCounters {
    pub conflicts: u64,
    pub decisions: u64,
    pub propagations: u64,
    pub restarts: u64,
}

/// The result of a run of a single solver.
pub struct SingleRun {
    pub outcome: Outcome,
    /// The values of the variables by number, if satisfiable.
    pub model: Option<Vec<bool>>,
    pub counters: RunCounters,
    /// The proof log, if one was asked for.
    pub log: Option<Vec<Vec<i32>>>,
    /// The solver has no references to clauses left.
    pub full: bool,
}

/// A model that does not satisfy the clauses.
#[derive(Clone, Copy, Debug, PartialEq, Eq, Structural)]
pub struct InvalidModel;

/// A model has a value for every variable and satisfies the clauses.
pub open spec fn model_ok(num_vars: u32, clauses: Seq<Seq<i32>>, model: Seq<bool>) -> bool {
    model.len() == num_vars + 1 && logic::dimacs_formula_holds(model_valuation(model), clauses)
}

/// Whether a model holds up against the clauses.
pub fn check_model(cnf: &DimacsCnf, raw: &[bool]) -> (r: Result<(), InvalidModel>)
    requires
        loadable(cnf.num_vars, logic::clause_views(cnf.clauses@)),
        raw@.len() == cnf.num_vars + 1,
    ensures
        r is Ok <==> model_ok(cnf.num_vars, logic::clause_views(cnf.clauses@), raw@),
{
    let ghost all = logic::clause_views(cnf.clauses@);
    let verdict = check_dimacs_model(cnf.num_vars, cnf.clauses.as_slice(), raw);
    proof {
        if logic::dimacs_formula_holds(model_valuation(raw@), all) {
            assert forall|k: int| 0 <= k < all.len() implies crate::certify::model::in_range(
                cnf.num_vars,
                #[trigger] all[k],
            ) && logic::dimacs_clause_holds(model_valuation(raw@), all[k]) by {
                assert(clause_ok(cnf.num_vars, all[k]));
            }
        }
        if good_before(cnf.num_vars, all, raw@, all.len() as int) {
            crate::certify::model::accepted_model_satisfies(cnf.num_vars, all, raw@);
        }
    }
    match verdict {
        Ok(true) => Ok(()),
        _ => Err(InvalidModel),
    }
}

/// What a run claims of the instance.
pub open spec fn run_ok(
    r: SingleRun,
    num_vars: u32,
    clauses: Seq<Seq<i32>>,
    log: bool,
) -> bool {
    &&& r.outcome == Outcome::Sat <==> r.model is Some
    &&& r.model matches Some(m) ==> model_ok(num_vars, clauses, m@)
    &&& r.outcome == Outcome::Unsat ==> logic::dimacs_unsatisfiable(clauses)
    &&& r.log is Some <==> log
    &&& r.log matches Some(l) ==> cdcl::log_ok(formula_of(clauses), l@)
    &&& r.outcome == Outcome::Unsat ==> (r.log matches Some(l) ==> cdcl::certified(
        formula_of(clauses),
        num_vars,
        l@,
    ))
}

/// What an outcome shows of the conflicts met, given a budget of them.
///
/// A conclusion is within the budget. An instance refuted without a conflict
/// above level 0 is one that unit propagation refutes, and the other way
/// round (unless a clause has a literal twice).
pub open spec fn budget_kept(
    outcome: Outcome,
    conflicts: u64,
    clauses: Seq<Seq<i32>>,
    budget: u64,
) -> bool {
    let f = formula_of(clauses);
    &&& outcome != Outcome::Unknown ==> conflicts <= budget
    &&& outcome == Outcome::Unsat && conflicts == 0 ==> trace::dead(f)
    &&& trace::plain(f) && trace::dead(f) ==> outcome == Outcome::Unsat && conflicts == 0
}

/// Whether a clause has two different literals.
pub open spec fn two_literals(c: Seq<i32>) -> bool {
    exists|i: int, j: int|
        0 <= i < c.len() && 0 <= j < c.len() && #[trigger] c[i] != #[trigger] c[j]
}

proof fn literals_differ(num_vars: u32, c: Seq<i32>, i: int, j: int)
    requires
        num_vars < MAX_VAR,
        clause_ok(num_vars, c),
        0 <= i < c.len(),
        0 <= j < c.len(),
        c[i] != c[j],
    ensures
        lits_of(c)[i] != lits_of(c)[j],
        lits_of(c).contains(lits_of(c)[i]),
        lits_of(c).contains(lits_of(c)[j]),
{
    let x = c[i];
    let y = c[j];
    assert(x != 0 && y != 0);
    assert(lits_of(c)[i] == lit_of(x) && lits_of(c)[j] == lit_of(y));
    assert(lits_of(c).len() == c.len());
}

/// Without a budget nothing is concluded where a conflict is needed: an
/// unsatisfiable instance whose clauses all have two different literals stays
/// unknown.
pub proof fn no_budget_no_refutation(
    outcome: Outcome,
    conflicts: u64,
    num_vars: u32,
    clauses: Seq<Seq<i32>>,
)
    requires
        loadable(num_vars, clauses),
        forall|k: int| 0 <= k < clauses.len() ==> two_literals(#[trigger] clauses[k]),
        budget_kept(outcome, conflicts, clauses, 0),
    ensures
        outcome != Outcome::Unsat,
{
    let f = formula_of(clauses);
    let m: trace::World = Map::empty();
    assert forall|k: int| 0 <= k < f.len() implies trace::stable(m, #[trigger] f[k]) by {
        let c = clauses[k];
        assert(two_literals(c));
        assert(clause_ok(num_vars, c));
        let (i, j) = choose|i: int, j: int|
            0 <= i < c.len() && 0 <= j < c.len() && #[trigger] c[i] != #[trigger] c[j];
        literals_differ(num_vars, c, i, j);
        trace::two_left_is_stable(m, f[k], f[k][i], f[k][j]);
    }
    assert(trace::all_stable(m, f));
}

/// How a run has heeded its time limit, given what was read of it. The outcome
/// is unknown as soon as the limit is read to be over, for which it is read
/// after every conflict; if that never was so, it is unknown only if the budget
/// of conflicts is exceeded, or the solver has no numbers left for conflicts or
/// clauses.
pub open spec fn timely(
    r: SingleRun,
    budget: u64,
    before_readings: Seq<bool>,
    after_readings: Seq<bool>,
) -> bool {
    &&& r.counters.conflicts <= after_readings.len() - before_readings.len() + 1
    &&& {
        ||| stop::got_tripped(before_readings, after_readings) && r.outcome == Outcome::Unknown
        ||| {
            &&& stop::stayed_clear(before_readings, after_readings)
            &&& r.outcome == Outcome::Unknown ==> {
                ||| r.counters.conflicts > budget
                ||| r.counters.conflicts == u64::MAX
                ||| r.full
            }
        }
    }
}

/// Solve an instance with a single solver. A model is checked against the
/// clauses, independently of the solver, before it is reported; that check
/// never fails. The clock is watched for the deadline, if there is one.
pub fn solve_single(
    cnf: &DimacsCnf,
    budget: u64,
    deadline: Option<Instant>,
    log: bool,
) -> (r: Result<SingleRun, InvalidModel>)
    requires
        loadable(cnf.num_vars, logic::clause_views(cnf.clauses@)),
    ensures
        r is Ok,
        run_ok(r->Ok_0, cnf.num_vars, logic::clause_views(cnf.clauses@), log),
        exists|limit: Stop|
            {
                &&& limit.well_formed()
                &&& limit.source() == stop::until(deadline)
                &&& timely(r->Ok_0, budget, Seq::empty(), #[trigger] limit.readings())
            },
        budget_kept(
            r->Ok_0.outcome,
            r->Ok_0.counters.conflicts,
            logic::clause_views(cnf.clauses@),
            budget,
        ),
        r->Ok_0.log matches Some(l) ==> l@.len() <= r->Ok_0.counters.conflicts + (if r->Ok_0.outcome
            == Outcome::Unsat {
            1int
        } else {
            0
        }),
{
    let mut limit = Stop::at(deadline);
    assert(limit.readings() =~= Seq::empty());
    solve_single_with(cnf, budget, &mut limit, log)
}

/// As [`solve_single`], with a given watch of the time limit.
pub fn solve_single_with(cnf: &DimacsCnf, budget: u64, limit: &mut Stop, log: bool) -> (r: Result<
    SingleRun,
    InvalidModel,
>)
    requires
        loadable(cnf.num_vars, logic::clause_views(cnf.clauses@)),
        old(limit).well_formed(),
    ensures
        final(limit).well_formed(),
        final(limit).source() == old(limit).source(),
        r is Ok,
        run_ok(r->Ok_0, cnf.num_vars, logic::clause_views(cnf.clauses@), log),
        timely(r->Ok_0, budget, old(limit).readings(), final(limit).readings()),
        budget_kept(
            r->Ok_0.outcome,
            r->Ok_0.counters.conflicts,
            logic::clause_views(cnf.clauses@),
            budget,
        ),
        r->Ok_0.log matches Some(l) ==> l@.len() <= r->Ok_0.counters.conflicts + (if r->Ok_0.outcome
            == Outcome::Unsat {
            1int
        } else {
            0
        }),
{
    let ghost all = logic::clause_views(cnf.clauses@);
    let mut solver = build_cdcl_solver(cnf, log);
    let mut stop = Stop::never();
    let result = match solver.solve_until(&[], budget, limit, &mut stop) {
        Some(r) => r,
        None => {
            proof {
                stop.readings_are();
                assert(stop.readings()[stop.readings().len() - 1]);
            }
            SolveResult::Unknown
        },
    };
    proof {
        let learned = solver.learned_clauses();
        if learned.len() == 0 {
            assert(solver.formula() + learned =~= solver.formula());
        }
    }
    let (conflicts, propagations, restarts, decisions) = solver.search_counters();
    let counters = RunCounters { conflicts, decisions, propagations, restarts };
    let full = solver.stored_clauses() >= FIRST_SENTINEL as usize;
    let proof_log = solver.take_proof_log();
    match result {
        SolveResult::Sat(m) => {
            let raw: Vec<bool> = raw_values(&m, cnf.num_vars);
            proof {
                formula_agrees(m.valuation(), cnf.num_vars, all);
                assert forall|i: int| 0 <= i < all.len() implies logic::dimacs_clause_holds(
                    model_valuation(raw@),
                    #[trigger] all[i],
                ) by {
                    assert(clause_ok(cnf.num_vars, all[i]));
                    assert(logic::dimacs_clause_holds(m.valuation(), all[i]));
                    assert(m.valuation() =~= model_valuation(m.values()));
                    clause_frame(cnf.num_vars, all[i], m.values(), raw@);
                }
            }
            match check_model(cnf, raw.as_slice()) {
                Ok(()) => Ok(
                    SingleRun {
                        outcome: Outcome::Sat,
                        model: Some(raw),
                        counters,
                        log: proof_log,
                        full,
                    },
                ),
                Err(e) => Err(e),
            }
        },
        SolveResult::Unsat => {
            proof {
                assert forall|val: logic::Valuation| !(#[trigger] logic::dimacs_formula_holds(
                    val,
                    all,
                )) by {
                    formula_agrees(val, cnf.num_vars, all);
                    assert(logic::all_hold(val, Seq::<Literal>::empty()));
                }
            }
            Ok(SingleRun { outcome: Outcome::Unsat, model: None, counters, log: proof_log, full })
        },
        SolveResult::Unknown => {
            Ok(SingleRun { outcome: Outcome::Unknown, model: None, counters, log: proof_log, full })
        },
    }
}

} // verus!
