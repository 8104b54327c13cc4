use vstd::prelude::*;

use crate::akx::literal::{Literal, Var};
#[allow(unused_imports)]
use crate::akx::logic;

verus! {

/// A complete satisfying assignment returned when the solver finds SAT.
#[derive(Debug, Clone)]
pub struct Model {
    /// `values[var]` = true/false for each variable. Index 0 unused (vars start at 1).
    values: Vec<bool>,
}

impl Model {
    /// The truth values, indexed by variable.
    pub closed spec fn values(&self) -> Seq<bool> {
        self.values@
    }

    /// The model as a total truth assignment.
    pub open spec fn valuation(&self) -> logic::Valuation {
        |v: u32| (v as int) < self.values().len() && self.values()[v as int]
    }

    pub(crate) fn new(values: Vec<bool>) -> (m: Self)
        ensures
            m.values() == values@,
    {
        Model { values }
    }

    pub fn num_vars(&self) -> (n: u32)
        requires
            self.values().len() <= u32::MAX,
        ensures
            self.values().len() == 0 ==> n == 0,
            self.values().len() > 0 ==> n == self.values().len() - 1,
    {
        if self.values.len() == 0 {
            0
        } else {
            (self.values.len() - 1) as u32
        }
    }

    /// Value of variable `var` in this model.
    pub fn value_of(&self, var: Var) -> (b: bool)
        requires
            var < self.values().len(),
        ensures
            b == self.values()[var as int],
    {
        self.values[var as usize]
    }

    /// Whether literal `lit` is satisfied by this model.
    pub fn satisfies(&self, lit: Literal) -> (b: bool)
        requires
            lit.var() < self.values().len(),
        ensures
            b == logic::lit_holds(self.valuation(), lit),
    {
        let val: bool = self.values[lit.var() as usize];
        if lit.is_positive() {
            val
        } else {
            !val
        }
    }

    /// Verify this model against a set of clauses (each clause is a list of DIMACS literals).
    /// Returns true iff every clause has at least one satisfied literal.
    pub fn verify_dimacs(&self, clauses: &[Vec<i32>]) -> (b: bool)
        requires
            forall|i: int, j: int|
                0 <= i < clauses@.len() && 0 <= j < clauses@[i]@.len() ==> logic::dimacs_var(
                    #[trigger] clauses@[i]@[j],
                ) < self.values().len(),
        ensures
            b == forall|i: int|
                0 <= i < clauses@.len() ==> logic::dimacs_clause_holds(
                    self.valuation(),
                    (#[trigger] clauses@[i])@,
                ),
    {
        let mut i: usize = 0;
        while i < clauses.len()
            invariant
                i <= clauses@.len(),
                forall|i: int, j: int|
                    0 <= i < clauses@.len() && 0 <= j < clauses@[i]@.len()
                        ==> logic::dimacs_var(#[trigger] clauses@[i]@[j]) < self.values().len(),
                forall|k: int|
                    0 <= k < i ==> logic::dimacs_clause_holds(
                        self.valuation(),
                        (#[trigger] clauses@[k])@,
                    ),
            decreases clauses@.len() - i,
        {
            let clause: &Vec<i32> = &clauses[i];
            let mut found: bool = false;
            let mut j: usize = 0;
            while j < clause.len() && !found
                invariant
                    i < clauses@.len(),
                    clause@ == clauses@[i as int]@,
                    j <= clause@.len(),
                    forall|i: int, j: int|
                        0 <= i < clauses@.len() && 0 <= j < clauses@[i]@.len()
                            ==> logic::dimacs_var(#[trigger] clauses@[i]@[j])
                            < self.values().len(),
                    found ==> logic::dimacs_clause_holds(self.valuation(), clause@),
                    !found ==> forall|k: int|
                        0 <= k < j ==> !logic::dimacs_holds(
                            self.valuation(),
                            #[trigger] clause@[k],
                        ),
                decreases clause@.len() - j,
            {
                let lit: i32 = clause[j];
                assert(clauses@[i as int]@[j as int] == lit);
                let var: usize = if lit < 0 {
                    (-(lit as i64)) as usize
                } else {
                    lit as usize
                };
                let val: bool = self.values[var];
                if (lit > 0 && val) || (lit <= 0 && !val) {
                    assert(logic::dimacs_holds(self.valuation(), clause@[j as int]));
                    found = true;
                }
                j += 1;
            }
            if !found {
                assert(!logic::dimacs_clause_holds(self.valuation(), clauses@[i as int]@));
                return false;
            }
            i += 1;
        }
        true
    }
}

} // verus!
