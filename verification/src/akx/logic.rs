//! What it means for a truth assignment to satisfy literals, clauses and
//! formulas, and for a clause to follow from a formula.

use vstd::prelude::*;

#[allow(unused_imports)]
use crate::akx::literal::Literal;

verus! {

/// A total truth assignment to the variables.
pub type Valuation = spec_fn(u32) -> bool;

/// Whether a valuation makes a literal true.
pub open spec fn lit_holds(val: Valuation, l: Literal) -> bool {
    val(l.var()) == l.is_positive()
}

/// Whether a valuation makes some literal of a clause true.
pub open spec fn clause_holds(val: Valuation, clause: Seq<Literal>) -> bool {
    exists|i: int| 0 <= i < clause.len() && lit_holds(val, #[trigger] clause[i])
}

/// Whether a valuation makes every literal of a cube true.
pub open spec fn all_hold(val: Valuation, lits: Seq<Literal>) -> bool {
    forall|i: int| 0 <= i < lits.len() ==> lit_holds(val, #[trigger] lits[i])
}

/// Whether a valuation satisfies every clause of a formula.
pub open spec fn formula_holds(val: Valuation, formula: Seq<Seq<Literal>>) -> bool {
    forall|i: int| 0 <= i < formula.len() ==> clause_holds(val, #[trigger] formula[i])
}

/// Whether a clause follows from a formula.
pub open spec fn entails(formula: Seq<Seq<Literal>>, clause: Seq<Literal>) -> bool {
    forall|val: Valuation| #[trigger] formula_holds(val, formula) ==> clause_holds(val, clause)
}

/// Whether no valuation satisfies a formula together with assumptions.
pub open spec fn unsatisfiable(formula: Seq<Seq<Literal>>, assumptions: Seq<Literal>) -> bool {
    forall|val: Valuation|
        #[trigger] formula_holds(val, formula) ==> !all_hold(val, assumptions)
}

/// What follows from a formula follows from every extension of it.
pub proof fn entails_push(formula: Seq<Seq<Literal>>, added: Seq<Literal>, clause: Seq<Literal>)
    requires
        entails(formula, clause),
    ensures
        entails(formula.push(added), clause),
{
    assert forall|val: Valuation| #[trigger] formula_holds(val, formula.push(added)) implies
        clause_holds(val, clause) by {
        assert forall|i: int| 0 <= i < formula.len() implies clause_holds(
            val,
            #[trigger] formula[i],
        ) by {
            assert(formula.push(added)[i] == formula[i]);
        }
        assert(formula_holds(val, formula));
    }
}

/// Every clause of a formula follows from it.
pub proof fn entails_member(formula: Seq<Seq<Literal>>, i: int)
    requires
        0 <= i < formula.len(),
    ensures
        entails(formula, formula[i]),
{
}

/// A clause whose every literal occurs in another is the stronger of the two.
pub proof fn clause_holds_subset(val: Valuation, small: Seq<Literal>, large: Seq<Literal>)
    requires
        clause_holds(val, small),
        forall|i: int| 0 <= i < small.len() ==> large.contains(#[trigger] small[i]),
    ensures
        clause_holds(val, large),
{
    let i = choose|i: int| 0 <= i < small.len() && lit_holds(val, #[trigger] small[i]);
    assert(large.contains(small[i]));
    let j = choose|j: int| 0 <= j < large.len() && large[j] == small[i];
    assert(lit_holds(val, large[j]));
}

/// The variable of a DIMACS literal.
pub open spec fn dimacs_var(lit: i32) -> int {
    if lit < 0 {
        -lit
    } else {
        lit as int
    }
}

/// Whether a valuation makes a DIMACS literal true. A literal that is not
/// positive is true when its variable is false.
pub open spec fn dimacs_holds(val: Valuation, lit: i32) -> bool {
    val(dimacs_var(lit) as u32) == (lit > 0)
}

/// Whether a valuation makes some literal of a DIMACS clause true.
pub open spec fn dimacs_clause_holds(val: Valuation, clause: Seq<i32>) -> bool {
    exists|i: int| 0 <= i < clause.len() && dimacs_holds(val, #[trigger] clause[i])
}

/// The DIMACS form of a literal.
pub open spec fn to_dimacs(l: Literal) -> int {
    if l.is_positive() {
        l.var() as int
    } else {
        -(l.var() as int)
    }
}

/// The clauses as sequences.
pub open spec fn clause_views(clauses: Seq<Vec<i32>>) -> Seq<Seq<i32>> {
    clauses.map_values(|c: Vec<i32>| c@)
}

/// Whether a valuation satisfies every clause of a DIMACS formula.
pub open spec fn dimacs_formula_holds(val: Valuation, clauses: Seq<Seq<i32>>) -> bool {
    forall|i: int| 0 <= i < clauses.len() ==> dimacs_clause_holds(val, #[trigger] clauses[i])
}

/// Whether no valuation satisfies a DIMACS formula.
pub open spec fn dimacs_unsatisfiable(clauses: Seq<Seq<i32>>) -> bool {
    forall|val: Valuation| !(#[trigger] dimacs_formula_holds(val, clauses))
}

} // verus!
