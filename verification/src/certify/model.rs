//! Independent SAT model evaluator.
//!
//! A SAT result must be validated independently of the solver before it is
//! trusted. The evaluator consumes raw truth values plus DIMACS clauses and
//! decides satisfaction directly. It is pure and total: given any input it
//! either returns a definite verdict or an explicit error.

use vstd::prelude::*;

#[allow(unused_imports)]
use crate::akx::logic;

verus! {

/// Error evaluating a candidate model. Any error is treated as an invalid
/// model.
#[derive(Clone, Copy, Debug, PartialEq, Eq, Structural)]
pub enum ModelCheckError {
    SizeMismatch { model_vars: usize, num_vars: u32 },
    ClauseOutOfRange { ref_var: u32, num_vars: u32 },
}

/// The variable of a DIMACS literal.
pub fn var_of(lit: i32) -> (v: u32)
    ensures
        v == logic::dimacs_var(lit),
{
    if lit < 0 {
        (-(lit as i64)) as u32
    } else {
        lit as u32
    }
}

/// The values of a model as a valuation.
pub open spec fn model_valuation(model: Seq<bool>) -> logic::Valuation {
    |v: u32| (v as int) < model.len() && model[v as int]
}

/// Every literal refers to a declared variable.
pub open spec fn in_range(num_vars: u32, clause: Seq<i32>) -> bool {
    forall|j: int|
        0 <= j < clause.len() ==> logic::dimacs_var(#[trigger] clause[j]) <= num_vars
}

/// The clauses before `i` are in range and satisfied.
pub open spec fn good_before(
    num_vars: u32,
    clauses: Seq<Seq<i32>>,
    model: Seq<bool>,
    i: int,
) -> bool {
    forall|k: int|
        0 <= k < i ==> in_range(num_vars, #[trigger] clauses[k]) && logic::dimacs_clause_holds(
            model_valuation(model),
            clauses[k],
        )
}

/// Position `j` holds the first literal of the clause that is out of range.
pub open spec fn first_out_of_range(num_vars: u32, clause: Seq<i32>, j: int) -> bool {
    &&& 0 <= j < clause.len()
    &&& logic::dimacs_var(clause[j]) > num_vars
    &&& forall|k: int| 0 <= k < j ==> logic::dimacs_var(#[trigger] clause[k]) <= num_vars
}

/// Clause `i` is the first one that stops the evaluation, with this verdict.
pub open spec fn stops_at(
    num_vars: u32,
    clauses: Seq<Seq<i32>>,
    model: Seq<bool>,
    i: int,
    r: Result<bool, ModelCheckError>,
) -> bool {
    &&& 0 <= i < clauses.len()
    &&& good_before(num_vars, clauses, model, i)
    &&& match r {
        Ok(b) => {
            &&& !b
            &&& in_range(num_vars, clauses[i])
            &&& !logic::dimacs_clause_holds(model_valuation(model), clauses[i])
        },
        Err(ModelCheckError::ClauseOutOfRange { ref_var, num_vars: n }) => {
            &&& n == num_vars
            &&& exists|j: int| #[trigger]
                first_out_of_range(num_vars, clauses[i], j) && ref_var == logic::dimacs_var(
                    clauses[i][j],
                )
        },
        _ => false,
    }
}

/// Verify a candidate model against a DIMACS instance.
///
/// `model` is indexed by variable: `model[v]` holds the truth value of
/// variable `v` for `1 <= v <= num_vars`; index 0 is ignored.
///
/// Returns `Ok(true)` if every clause has at least one satisfied literal,
/// `Ok(false)` if any clause is falsified, or `Err` if the model or problem is
/// malformed. The clauses are taken in order, and the first one that is out of
/// range or falsified decides.
pub fn check_dimacs_model(
    num_vars: u32,
    clauses: &[Vec<i32>],
    model: &[bool],
) -> (r: Result<bool, ModelCheckError>)
    ensures
        model@.len() <= num_vars <==> r == Err::<bool, ModelCheckError>(
            ModelCheckError::SizeMismatch { model_vars: model@.len() as usize, num_vars },
        ),
        model@.len() > num_vars ==> (r == Ok::<bool, ModelCheckError>(true) <==> good_before(
            num_vars,
            logic::clause_views(clauses@),
            model@,
            clauses@.len() as int,
        )),
        model@.len() > num_vars && r != Ok::<bool, ModelCheckError>(true) ==> exists|i: int|
            #[trigger] stops_at(num_vars, logic::clause_views(clauses@), model@, i, r),
{
    if model.len() <= num_vars as usize {
        return Err(ModelCheckError::SizeMismatch { model_vars: model.len(), num_vars });
    }
    let ghost all = logic::clause_views(clauses@);
    let ghost val = model_valuation(model@);
    let mut i: usize = 0;
    while i < clauses.len()
        invariant
            i <= clauses@.len(),
            all == logic::clause_views(clauses@),
            val == model_valuation(model@),
            model@.len() > num_vars,
            good_before(num_vars, all, model@, i as int),
        decreases clauses@.len() - i,
    {
        let clause: &Vec<i32> = &clauses[i];
        assert(all[i as int] == clause@);
        let mut j: usize = 0;
        while j < clause.len()
            invariant
                i < clauses@.len(),
                clause@ == all[i as int],
                j <= clause@.len(),
                all.len() == clauses@.len(),
                model@.len() > num_vars,
                good_before(num_vars, all, model@, i as int),
                all == logic::clause_views(clauses@),
                forall|k: int|
                    0 <= k < j ==> logic::dimacs_var(#[trigger] clause@[k]) <= num_vars,
            decreases clause@.len() - j,
        {
            let var: u32 = var_of(clause[j]);
            if var > num_vars {
                assert(first_out_of_range(num_vars, all[i as int], j as int));
                assert(!in_range(num_vars, all[i as int]));
                let r = Err(ModelCheckError::ClauseOutOfRange { ref_var: var, num_vars });
                assert(stops_at(num_vars, all, model@, i as int, r));
                return r;
            }
            j += 1;
        }
        let mut satisfied: bool = false;
        j = 0;
        while j < clause.len() && !satisfied
            invariant
                j <= clause@.len(),
                model@.len() > num_vars,
                val == model_valuation(model@),
                in_range(num_vars, clause@),
                satisfied ==> logic::dimacs_clause_holds(val, clause@),
                !satisfied ==> forall|k: int|
                    0 <= k < j ==> !logic::dimacs_holds(val, #[trigger] clause@[k]),
            decreases clause@.len() - j,
        {
            let lit: i32 = clause[j];
            assert(logic::dimacs_var(clause@[j as int]) <= num_vars);
            let value: bool = model[var_of(lit) as usize];
            if value == (lit > 0) {
                assert(logic::dimacs_holds(val, clause@[j as int]));
                satisfied = true;
            }
            j += 1;
        }
        if !satisfied {
            assert(!logic::dimacs_clause_holds(val, all[i as int]));
            assert(stops_at(num_vars, all, model@, i as int, Ok(false)));
            return Ok(false);
        }
        i += 1;
    }
    Ok(true)
}

/// A model that is accepted satisfies every clause of the instance.
pub proof fn accepted_model_satisfies(num_vars: u32, clauses: Seq<Seq<i32>>, model: Seq<bool>)
    requires
        good_before(num_vars, clauses, model, clauses.len() as int),
    ensures
        logic::dimacs_formula_holds(model_valuation(model), clauses),
{
}

} // verus!
