//! Cube-splitting coverage certificates.
//!
//! When a partition node with a given cube is split into children
//! `cube ∪ {l_i}`, the split is sound only if the literals cover every
//! satisfying extension of the cube: `l_1 ∨ l_2 ∨ … ∨ l_k` must hold there.
//! The certificates here are the syntactic ones of cube-and-conquer: the
//! disjunction contains a variable in both polarities.

use vstd::prelude::*;

use crate::akx::literal::Literal;
use crate::akx::litvec::{slice_contains, slice_eq};
#[allow(unused_imports)]
use crate::akx::logic;

verus! {

/// Errors from certificate construction/verification.
#[derive(Debug, Clone, Copy, PartialEq, Eq, Structural)]
pub enum CoverageError {
    /// The split literals do not cover the parent search region.
    NotCovering,
    /// A split literal occurs twice.
    DuplicateLiteral,
    /// There is no split literal.
    EmptySplit,
}

/// A certificate that a set of child cubes covers the parent region.
///
/// `literals` is the covering set `{l_1, …, l_k}`; the children are
/// `cube ∪ {l_i}`.
#[derive(Debug, Clone, PartialEq, Eq)]
pub struct CoverageCertificate {
    pub literals: Vec<Literal>,
}

/// No literal occurs twice.
pub open spec fn distinct(lits: Seq<Literal>) -> bool {
    forall|i: int, j: int| 0 <= i < j < lits.len() ==> #[trigger] lits[i] != #[trigger] lits[j]
}

/// Some variable occurs in both polarities.
pub open spec fn both_polarities(lits: Seq<Literal>) -> bool {
    exists|k: int| 0 <= k < lits.len() && lits.contains((#[trigger] lits[k]).negate())
}

/// Whether literals cover every search region.
pub open spec fn covers(lits: Seq<Literal>) -> bool {
    lits.len() > 0 && distinct(lits) && both_polarities(lits)
}

/// What is wrong with a set of split literals, if anything.
pub open spec fn coverage_of(lits: Seq<Literal>) -> Result<(), CoverageError> {
    if lits.len() == 0 {
        Err(CoverageError::EmptySplit)
    } else if !distinct(lits) {
        Err(CoverageError::DuplicateLiteral)
    } else if !both_polarities(lits) {
        Err(CoverageError::NotCovering)
    } else {
        Ok(())
    }
}

/// What is wrong with using a certificate for given split literals.
pub open spec fn certified(certificate: Seq<Literal>, lits: Seq<Literal>) -> Result<
    (),
    CoverageError,
> {
    if certificate != lits {
        Err(CoverageError::NotCovering)
    } else {
        coverage_of(lits)
    }
}

/// Covering literals cover: every valuation makes one of them true.
pub proof fn covering_is_tautology(lits: Seq<Literal>, val: logic::Valuation)
    requires
        covers(lits),
    ensures
        logic::clause_holds(val, lits),
{
    let k = choose|k: int| 0 <= k < lits.len() && lits.contains((#[trigger] lits[k]).negate());
    let l = lits[k];
    if logic::lit_holds(val, l) {
    } else {
        assert(lits.contains(l.negate()));
        let j = choose|j: int| 0 <= j < lits.len() && lits[j] == l.negate();
        crate::akx::literal::negation_laws(l);
        assert(logic::lit_holds(val, lits[j]));
    }
}

fn check(lits: &[Literal]) -> (r: Result<(), CoverageError>)
    ensures
        r == coverage_of(lits@),
{
    if lits.len() == 0 {
        return Err(CoverageError::EmptySplit);
    }
    let mut i: usize = 0;
    while i < lits.len()
        invariant
            i <= lits@.len(),
            forall|a: int, b: int|
                0 <= a < b < i ==> #[trigger] lits@[a] != #[trigger] lits@[b],
        decreases lits@.len() - i,
    {
        let earlier: &[Literal] = vstd::slice::slice_subrange(lits, 0, i);
        if slice_contains(earlier, lits[i]) {
            proof {
                let k = choose|k: int| 0 <= k < earlier@.len() && earlier@[k] == lits@[i as int];
                assert(lits@[k] == lits@[i as int]);
                assert(!distinct(lits@));
            }
            return Err(CoverageError::DuplicateLiteral);
        }
        assert forall|a: int, b: int| 0 <= a < b < i + 1 implies #[trigger] lits@[a]
            != #[trigger] lits@[b] by {
            if b == i {
                assert(earlier@[a] == lits@[a]);
            }
        }
        i += 1;
    }
    assert(distinct(lits@));
    let mut k: usize = 0;
    while k < lits.len()
        invariant
            k <= lits@.len(),
            lits@.len() > 0,
            distinct(lits@),
            forall|a: int| 0 <= a < k ==> !lits@.contains((#[trigger] lits@[a]).negate()),
        decreases lits@.len() - k,
    {
        if slice_contains(lits, lits[k].negate()) {
            assert(lits@.contains(lits@[k as int].negate()));
            return Ok(());
        }
        k += 1;
    }
    Err(CoverageError::NotCovering)
}

impl CoverageCertificate {
    /// Construct a certificate from a covering literal set, verifying the
    /// syntactic tautology condition `l_1 ∨ … ∨ l_k`. Returns an error if the
    /// literals do not cover the space (no variable appears in both
    /// polarities, or duplicates/empty).
    pub fn tautology(literals: Vec<Literal>) -> (r: Result<Self, CoverageError>)
        ensures
            match r {
                Ok(c) => c.literals@ == literals@ && coverage_of(literals@) == Ok::<
                    (),
                    CoverageError,
                >(()),
                Err(e) => coverage_of(literals@) == Err::<(), CoverageError>(e),
            },
    {
        match check(literals.as_slice()) {
            Ok(()) => Ok(CoverageCertificate { literals }),
            Err(e) => Err(e),
        }
    }

    /// Verify that the certificate covers the region of a cube when it is
    /// split on `literals`. The check is purely syntactic, so the cube does
    /// not matter; a certificate for other literals is refused.
    pub fn verify(&self, _asmpts: &[Literal], literals: &[Literal]) -> (r: Result<
        (),
        CoverageError,
    >)
        ensures
            r == certified(self.literals@, literals@),
    {
        if !slice_eq(self.literals.as_slice(), literals) {
            return Err(CoverageError::NotCovering);
        }
        check(literals)
    }
}

} // verus!
