use vstd::prelude::*;

use crate::akx::literal::Literal;
use crate::akx::litvec::LitVec;
use crate::shared::share;
use std::sync::atomic::{AtomicBool, Ordering};
use std::sync::Arc;

verus! {

#[derive(Clone, Copy, PartialEq, Eq, Hash, Debug, Structural)]
pub struct ProblemId(pub u64);

/// Describes how much work a worker is allowed to perform in one `step` call.
#[derive(Clone, Copy, Debug, PartialEq, Eq, Structural)]
pub struct WorkBudget {
    /// Maximum number of CDCL conflicts (or equivalent work units).
    pub max_conflicts: u64,
    /// Maximum wall-clock milliseconds. Workers should look at this periodically.
    pub max_ms: u64,
}

impl Default for WorkBudget {
    fn default() -> (b: Self)
        ensures
            b == (WorkBudget { max_conflicts: 5_000, max_ms: 500 }),
    {
        WorkBudget { max_conflicts: 5_000, max_ms: 500 }
    }
}

#[derive(Clone, Copy, PartialEq, Eq, PartialOrd, Ord, Debug, Structural)]
pub struct Priority(pub u32);

impl Priority {
    pub const LOW: u32 = 0;

    pub const NORMAL: u32 = 100;

    pub const HIGH: u32 = 200;
}

/// Records the sequence of splits that produced this work unit from the root.
/// Used for duplication detection and partition tree maintenance.
#[derive(Debug)]
pub struct CubePath {
    /// Each entry is the assumption literal added at that split level.
    pub steps: LitVec,
}

impl CubePath {
    pub fn depth(&self) -> (n: usize)
        ensures
            n == self.steps@.len(),
    {
        self.steps.len()
    }

    pub fn extend(&self, lit: Literal) -> (child: Self)
        ensures
            child.steps@ == self.steps@.push(lit),
    {
        let mut child = self.clone();
        child.steps.push(lit);
        child
    }
}

impl Clone for CubePath {
    fn clone(&self) -> (c: Self)
        ensures
            c.steps@ == self.steps@,
    {
        CubePath { steps: self.steps.clone() }
    }
}

impl Default for CubePath {
    fn default() -> (c: Self)
        ensures
            c.steps@ == Seq::<Literal>::empty(),
    {
        CubePath { steps: LitVec::from_slice(&[]) }
    }
}

/// Extending a path adds one to its depth and keeps the steps before.
pub proof fn extend_deepens(steps: Seq<Literal>, lit: Literal)
    ensures
        steps.push(lit).len() == steps.len() + 1,
        steps.is_prefix_of(steps.push(lit)),
        steps.push(lit).last() == lit,
{
    assert(steps.push(lit).take(steps.len() as int) =~= steps);
}

/// A unit of work dispatched to a reasoner.
///
/// Represents "solve the original problem restricted to `assumptions`."
/// A worker may either close the unit (SAT/UNSAT) or split it into children.
#[derive(Debug)]
pub struct WorkUnit {
    pub problem: ProblemId,
    /// Assumption literals that restrict the search space for this unit.
    /// `ctx_W` in the import predicate is exactly these literals.
    pub assumptions: Vec<Literal>,
    pub ancestry: CubePath,
    pub priority: Priority,
    pub budget: WorkBudget,
    /// Random seed for this worker's heuristics. Changing this seed is the
    /// primary diversification mechanism in a portfolio.
    pub seed: u64,
    /// Set to `true` by the orchestrator when this unit should be abandoned
    /// (SAT found elsewhere, orchestrator shutdown, lease expired).
    /// Workers MUST poll this at least once per conflict and return
    /// `ReasonerEvent::Cancelled` promptly when it fires.
    pub shutdown: Arc<AtomicBool>,
}

/// What a work unit asks for. The shutdown token is shared with other threads
/// and not part of it.
#[verifier::ext_equal]
pub struct UnitView {
    pub problem: ProblemId,
    pub assumptions: Seq<Literal>,
    pub ancestry: Seq<Literal>,
    pub priority: Priority,
    pub budget: WorkBudget,
    pub seed: u64,
}

impl View for WorkUnit {
    type V = UnitView;

    open spec fn view(&self) -> UnitView {
        UnitView {
            problem: self.problem,
            assumptions: self.assumptions@,
            ancestry: self.ancestry.steps@,
            priority: self.priority,
            budget: self.budget,
            seed: self.seed,
        }
    }
}

/// The current reading of a shutdown token.
pub fn is_tripped(token: &AtomicBool) -> bool {
    token.load(Ordering::Relaxed)
}

impl WorkUnit {
    /// The current reading of the shutdown token, which any thread may set.
    pub fn is_cancelled(&self) -> bool {
        is_tripped(&self.shutdown)
    }

    /// Trip the shutdown token.
    pub fn cancel(&self) {
        self.shutdown.store(true, Ordering::Release);
    }

    pub fn assumption_slice(&self) -> (lits: &[Literal])
        ensures
            lits@ == self@.assumptions,
    {
        self.assumptions.as_slice()
    }
}

impl Clone for WorkUnit {
    /// A copy that shares the shutdown token.
    fn clone(&self) -> (u: Self)
        ensures
            u@ == self@,
            u.shutdown == self.shutdown,
    {
        WorkUnit {
            problem: self.problem,
            assumptions: vstd::slice::slice_to_vec(self.assumptions.as_slice()),
            ancestry: self.ancestry.clone(),
            priority: self.priority,
            budget: self.budget,
            seed: self.seed,
            shutdown: share(&self.shutdown),
        }
    }
}

/// A (possibly partial) variable assignment, proposed by a worker.
/// Must be independently validated before SAT is declared.
#[derive(Clone, Debug)]
pub struct PartialModel {
    /// `assignments[i] = Some(true/false)` if variable `i` is assigned.
    pub assignments: Vec<Option<bool>>,
    /// The work unit this model was found under.
    pub work_unit_ancestry: CubePath,
}

impl PartialModel {
    pub fn get(&self, var: u32) -> (v: Option<bool>)
        ensures
            v == (if var < self.assignments@.len() {
                self.assignments@[var as int]
            } else {
                None
            }),
    {
        if (var as usize) < self.assignments.len() {
            self.assignments[var as usize]
        } else {
            None
        }
    }

    pub fn is_complete(&self) -> (b: bool)
        ensures
            b == forall|i: int|
                0 <= i < self.assignments@.len() ==> #[trigger] self.assignments@[i] is Some,
    {
        let mut i: usize = 0;
        while i < self.assignments.len()
            invariant
                i <= self.assignments@.len(),
                forall|k: int| 0 <= k < i ==> #[trigger] self.assignments@[k] is Some,
            decreases self.assignments@.len() - i,
        {
            if self.assignments[i].is_none() {
                assert(self.assignments@[i as int] is None);
                return false;
            }
            i += 1;
        }
        true
    }
}

} // verus!
