//! Production CDCL solver.
//!
//! Implements:
//! - Two-watched-literal BCP (MiniSAT watch convention)
//! - 1-UIP conflict analysis with non-chronological backjumping
//! - VSIDS branching with exponential decay
//! - Luby restart schedule
//! - Basic learned-clause deletion by LBD
//! - Model extraction on SAT

use vstd::prelude::*;

use crate::akx::literal::{Literal, MAX_VAR};
#[allow(unused_imports)]
use crate::akx::literal::Var;
use crate::akx::litvec::LitVec;
#[allow(unused_imports)]
use crate::akx::stop;
use crate::akx::stop::Stop;
use crate::sat::analyze;
use crate::sat::assignment::{Assignment, Value};
use crate::sat::bcp;
use crate::sat::clause::{Clause, ClauseDb, ClauseRef, FIRST_SENTINEL};
use crate::sat::luby;
use crate::sat::model::Model;
use crate::sat::vsids::Activities;
#[allow(unused_imports)]
use crate::sat::vsids;
use crate::sat::watched::WatchList;
use std::time::Instant;
#[allow(unused_imports)]
use crate::akx::logic;
#[allow(unused_imports)]
use crate::sat::state;
#[allow(unused_imports)]
use crate::sat::trace;
#[allow(unused_imports)]
use crate::sat::trace::Basis;
#[allow(unused_imports)]
use crate::sat::watched;

verus! {

#[derive(Debug)]
pub enum SolveResult {
    Sat(Model),
    Unsat,
    Unknown,
}

/// Two conclusions without a model are equal if they are the same; models are
/// not compared.
impl PartialEq for SolveResult {
    fn eq(&self, other: &Self) -> (b: bool) {
        match (self, other) {
            (SolveResult::Unsat, SolveResult::Unsat) => true,
            (SolveResult::Unknown, SolveResult::Unknown) => true,
            _ => false,
        }
    }
}

impl vstd::std_specs::cmp::PartialEqSpecImpl for SolveResult {
    open spec fn obeys_eq_spec() -> bool {
        true
    }

    open spec fn eq_spec(&self, other: &Self) -> bool {
        (self is Unsat && other is Unsat) || (self is Unknown && other is Unknown)
    }
}

impl SolveResult {
    pub fn is_unsat(&self) -> (b: bool)
        ensures
            b == (self is Unsat),
    {
        match self {
            SolveResult::Unsat => true,
            _ => false,
        }
    }

    pub fn is_unknown(&self) -> (b: bool)
        ensures
            b == (self is Unknown),
    {
        match self {
            SolveResult::Unknown => true,
            _ => false,
        }
    }
}

pub struct CdclSolver {
    num_vars: u32,
    assignment: Assignment,
    db: ClauseDb,
    watches: WatchList,
    activity: Activities,
    // Luby restart schedule
    luby_u: u64,
    luby_v: u64,
    luby_scale: u64,
    next_restart_conflicts: u64,
    /// Learned clauses beyond this number are candidates for deletion.
    pub learnt_limit: usize,
    // Statistics
    pub conflicts: u64,
    pub propagations: u64,
    pub restarts: u64,
    pub decisions: u64,
    /// Decision level below the first assumption of the current `solve` call.
    base_level: u32,
    /// Highest decision level that belongs to the assumptions of the current
    /// `solve` call. Backjumps and restarts never go below this, preserving
    /// every assumption literal on the trail.
    assumption_floor: u32,
    /// Learned clauses produced since the last `drain_learned`.
    learned_outbox: Vec<(Vec<Literal>, u32)>,
    /// DRUP proof log: each entry is one learned clause in DIMACS literal
    /// encoding. Populated only when proof logging is enabled. The final entry
    /// is the empty clause `[]` on UNSAT.
    proof_log: Option<Vec<Vec<i32>>>,
    /// The clauses added and learned so far.
    basis: Ghost<Basis>,
}

/// Whether a DIMACS clause follows from a formula.
pub open spec fn dimacs_entailed(f: state::Formula, clause: Seq<i32>) -> bool {
    forall|val: logic::Valuation| #[trigger]
        logic::formula_holds(val, f) ==> logic::dimacs_clause_holds(val, clause)
}

/// Every clause of a proof log is empty or follows from the formula.
pub open spec fn log_ok(f: state::Formula, log: Seq<Vec<i32>>) -> bool {
    forall|i: int|
        0 <= i < log.len() ==> (#[trigger] log[i])@.len() == 0 || dimacs_entailed(f, log[i]@)
}

/// Every staged clause follows from the formula.
pub open spec fn outbox_ok(f: state::Formula, n: u32, outbox: Seq<(Vec<Literal>, u32)>) -> bool {
    forall|i: int|
        0 <= i < outbox.len() ==> {
            &&& logic::entails(f, (#[trigger] outbox[i]).0@)
            &&& state::lits_ok(n, outbox[i].0@)
            &&& outbox[i].0@.len() >= 1
        }
}

proof fn log_ok_push(f: state::Formula, log: Seq<Vec<i32>>, added: Seq<Literal>)
    requires
        log_ok(f, log),
    ensures
        log_ok(f.push(added), log),
{
    assert forall|i: int| 0 <= i < log.len() && (#[trigger] log[i])@.len() > 0 implies
        dimacs_entailed(f.push(added), log[i]@) by {
        assert forall|val: logic::Valuation| #[trigger]
            logic::formula_holds(val, f.push(added)) implies logic::dimacs_clause_holds(
            val,
            log[i]@,
        ) by {
            assert forall|j: int| 0 <= j < f.len() implies logic::clause_holds(
                val,
                #[trigger] f[j],
            ) by {
                assert(f.push(added)[j] == f[j]);
            }
            assert(logic::formula_holds(val, f));
        }
    }
}

/// Convert a slice of `Literal`s to DIMACS integer representation.
pub fn lits_to_dimacs(lits: &[Literal]) -> (v: Vec<i32>)
    requires
        forall|k: int| 0 <= k < lits@.len() ==> (#[trigger] lits@[k]).var() <= MAX_VAR,
    ensures
        v@.len() == lits@.len(),
        forall|k: int| 0 <= k < lits@.len() ==> #[trigger] v@[k] == logic::to_dimacs(lits@[k]),
{
    let mut v: Vec<i32> = Vec::new();
    let mut i: usize = 0;
    while i < lits.len()
        invariant
            i <= lits@.len(),
            v@.len() == i,
            forall|k: int| 0 <= k < lits@.len() ==> (#[trigger] lits@[k]).var() <= MAX_VAR,
            forall|k: int| 0 <= k < i ==> #[trigger] v@[k] == logic::to_dimacs(lits@[k]),
        decreases lits@.len() - i,
    {
        let l: Literal = lits[i];
        assert(lits@[i as int].var() <= MAX_VAR);
        let x: i32 = l.var() as i32;
        if l.is_positive() {
            v.push(x);
        } else {
            v.push(-x);
        }
        i += 1;
    }
    v
}

proof fn dimacs_of_entailed(f: state::Formula, n: u32, lits: Seq<Literal>, v: Seq<i32>)
    requires
        logic::entails(f, lits),
        state::lits_ok(n, lits),
        v.len() == lits.len(),
        forall|k: int| 0 <= k < lits.len() ==> #[trigger] v[k] == logic::to_dimacs(lits[k]),
    ensures
        dimacs_entailed(f, v),
{
    assert forall|val: logic::Valuation| #[trigger] logic::formula_holds(val, f) implies
        logic::dimacs_clause_holds(val, v) by {
        assert(logic::clause_holds(val, lits));
        let k = choose|k: int| 0 <= k < lits.len() && logic::lit_holds(val, #[trigger] lits[k]);
        assert(v[k] == logic::to_dimacs(lits[k]));
        assert(1 <= lits[k].var());
        assert(logic::dimacs_holds(val, v[k]));
    }
}

impl CdclSolver {
    /// The clauses added so far, in order.
    pub closed spec fn formula(&self) -> Seq<Seq<Literal>> {
        self.basis@.clauses
    }

    /// The clauses learned so far, in order.
    pub closed spec fn learned_clauses(&self) -> Seq<Seq<Literal>> {
        self.basis@.learned
    }

    /// What a call that led from `self` to `after` has spent and shown.
    ///
    /// A call that comes to a conclusion has met no more conflicts than its
    /// budget allows. It learns at most one clause per conflict, and the proof
    /// log (if there is one) grows by those, and by the empty clause on `Unsat`.
    /// Without assumptions, `Unsat` means that unit propagation refutes the
    /// formula with the clauses learned.
    ///
    /// What unit propagation alone refutes is found `Unsat`: the formula
    /// without any conflict above level 0, so that nothing is learned; the
    /// formula with the assumptions by the first conflict, if the budget and
    /// the counter allow for one. (A clause with the same literal twice is not
    /// propagated like the clause without the repetition.)
    pub open spec fn accounted(
        &self,
        after: &CdclSolver,
        r: Option<SolveResult>,
        assumptions: Seq<Literal>,
        max_conflicts: u64,
    ) -> bool {
        let spent = after.conflict_count() - self.conflict_count();
        let gained = after.learned_clauses().len() - self.learned_clauses().len();
        &&& r != Some(SolveResult::Unknown) ==> spent <= max_conflicts
        &&& 0 <= gained <= spent
        &&& self.log() is Some ==> log_len(after.log()) == log_len(self.log()) + gained + (if r
            == Some(SolveResult::Unsat) {
            1int
        } else {
            0
        })
        &&& r == Some(SolveResult::Unsat) && assumptions.len() == 0 ==> trace::dead(
            after.formula() + after.learned_clauses(),
        )
        &&& trace::plain(self.formula()) && trace::dead(self.formula()) ==> r == Some(
            SolveResult::Unsat,
        ) && spent == 0
        &&& trace::plain(self.formula()) && trace::dead(
            self.formula() + trace::units(assumptions),
        ) && max_conflicts >= 1 && self.conflict_count() < u64::MAX ==> r == Some(
            SolveResult::Unsat,
        )
    }

    /// How a call that led from `self` to `after` has heeded its time limit,
    /// given what was read of it. The result is `Unknown` as soon as the limit
    /// is read to be over; if that never was so, it is `Unknown` only if the
    /// conflict budget is spent, or if the conflict counter or the clause
    /// references have run out.
    pub open spec fn timed(
        &self,
        after: &CdclSolver,
        r: Option<SolveResult>,
        max_conflicts: u64,
        before_readings: Seq<bool>,
        after_readings: Seq<bool>,
    ) -> bool {
        ||| stop::got_tripped(before_readings, after_readings) && r == Some(SolveResult::Unknown)
        ||| {
            &&& stop::stayed_clear(before_readings, after_readings)
            &&& r == Some(SolveResult::Unknown) ==> {
                ||| after.conflict_count() - self.conflict_count() > max_conflicts
                ||| after.conflict_count() == u64::MAX
                ||| after.stored() >= FIRST_SENTINEL
            }
        }
    }

    /// A watch was read after every conflict and every decision of a call that
    /// led from `self` to `after`, except for the assumptions, which are decided
    /// first, and for the conflict with which the call may have ended.
    pub open spec fn attended(
        &self,
        after: &CdclSolver,
        assumptions: Seq<Literal>,
        before_readings: Seq<bool>,
        after_readings: Seq<bool>,
    ) -> bool {
        let conflicts = after.counters().0 - self.counters().0;
        let decisions = after.counters().3 - self.counters().3;
        let gained = after_readings.len() - before_readings.len();
        &&& decisions >= 0
        &&& conflicts <= gained + 1
        &&& conflicts + decisions <= gained + assumptions.len() + 1
    }

    /// Nothing has been learned yet.
    pub closed spec fn unlearned(&self) -> bool {
        self.basis@.learned.len() == 0
    }

    /// The proof log lists exactly what has been learned.
    pub closed spec fn mirrored(&self) -> bool {
        self.proof_log matches Some(log) && mirrors(log@, self.basis@.learned)
    }

    /// The proof log lists what has been learned and then the empty clause,
    /// which unit propagation derives.
    pub closed spec fn sealed(&self) -> bool {
        self.proof_log matches Some(log) && seals(
            self.basis@.clauses,
            self.num_vars,
            log@,
            self.basis@.learned,
        )
    }

    /// The number of variables.
    pub closed spec fn vars(&self) -> u32 {
        self.num_vars
    }

    /// How many clause references have been handed out.
    pub closed spec fn stored(&self) -> nat {
        self.db.clauses@.len()
    }

    /// The proof log, if logging is enabled.
    pub closed spec fn log(&self) -> Option<Seq<Vec<i32>>> {
        match self.proof_log {
            Some(log) => Some(log@),
            None => None,
        }
    }

    /// The learned clauses (with their LBD scores) not drained yet.
    pub closed spec fn outbox(&self) -> Seq<(Vec<Literal>, u32)> {
        self.learned_outbox@
    }

    /// The numbers of conflicts, propagations, restarts and decisions so far.
    pub closed spec fn counters(&self) -> (u64, u64, u64, u64) {
        (self.conflicts, self.propagations, self.restarts, self.decisions)
    }

    /// The number of conflicts so far.
    pub open spec fn conflict_count(&self) -> u64 {
        self.counters().0
    }

    /// How many learned clauses are kept before some are deleted.
    pub closed spec fn deletion_limit(&self) -> usize {
        self.learnt_limit
    }

    spec fn aux_ok(&self) -> bool {
        &&& self.num_vars < MAX_VAR
        &&& self.activity.well_formed()
        &&& self.activity.score@.len() == self.num_vars + 1
        &&& outbox_ok(self.basis@.clauses, self.num_vars, self.learned_outbox@)
        &&& self.proof_log matches Some(log) ==> log_ok(self.basis@.clauses, log@)
        &&& trace::learned_ok(self.basis@, self.num_vars)
        &&& self.base_level == 0
    }

    spec fn resting(&self) -> bool {
        &&& self.aux_ok()
        &&& state::resting_ok(
            self.basis@,
            self.num_vars,
            self.db,
            self.watches,
            self.assignment,
            self.assumption_floor,
        )
    }

    /// The solver is between two calls: at level 0, with all its internal
    /// tables in order.
    pub closed spec fn well_formed(&self) -> bool {
        self.resting() && self.assignment.trail_lim@.len() == 0
    }

    /// The numbers of conflicts, propagations, restarts and decisions so far.
    pub fn search_counters(&self) -> (c: (u64, u64, u64, u64))
        ensures
            c == self.counters(),
    {
        (self.conflicts, self.propagations, self.restarts, self.decisions)
    }

    /// A solver's variables can all be written as literals.
    pub proof fn vars_bounded(&self)
        requires
            self.well_formed(),
        ensures
            self.vars() < MAX_VAR,
    {
    }

    pub fn new(num_vars: u32) -> (s: Self)
        requires
            num_vars < MAX_VAR,
        ensures
            s.well_formed(),
            s.vars() == num_vars,
            s.formula() == Seq::<Seq<Literal>>::empty(),
            s.stored() == 0,
            s.log() is None,
            s.outbox().len() == 0,
            s.deletion_limit() == 2000,
            s.counters() == (0u64, 0u64, 0u64, 0u64),
            s.unlearned(),
            s.learned_clauses().len() == 0,
    {
        let s = CdclSolver {
            num_vars,
            assignment: Assignment::new(num_vars),
            db: ClauseDb::new(),
            watches: WatchList::new(num_vars),
            activity: Activities::new(num_vars),
            luby_u: 1,
            luby_v: 1,
            luby_scale: 100,
            next_restart_conflicts: 100,
            learnt_limit: 2000,
            conflicts: 0,
            propagations: 0,
            restarts: 0,
            decisions: 0,
            base_level: 0,
            assumption_floor: 0,
            learned_outbox: Vec::new(),
            proof_log: None,
            basis: Ghost(Basis { clauses: Seq::empty(), learned: Seq::empty() }),
        };
        assert(state::watch_ok(num_vars, s.db, s.watches)) by {
            assert forall|l: Literal, r: ClauseRef| l.0 < s.watches.size() implies
                #[trigger] watched::occurrences(s.watches.under(l), r) == s.db.watch_count(
                l,
                r,
            ) by {
                assert(s.watches.under(l).len() == 0);
            }
        }
        s
    }

    /// Number of variables in the formula (index 0 is unused).
    pub fn num_vars(&self) -> (n: u32)
        ensures
            n == self.vars(),
    {
        self.num_vars
    }

    /// How many clause references have been handed out.
    pub fn stored_clauses(&self) -> (n: usize)
        ensures
            n == self.stored(),
    {
        self.db.clauses.len()
    }

    /// Enable DRUP proof logging. Must be called before `solve()`.
    /// Each learned clause, and the final empty clause on UNSAT, will be
    /// appended to the internal log.
    pub fn enable_proof_logging(&mut self)
        requires
            old(self).well_formed(),
        ensures
            final(self).well_formed(),
            final(self).log() == Some(Seq::<Vec<i32>>::empty()),
            old(self).unlearned() ==> final(self).mirrored(),
            final(self).unlearned() == old(self).unlearned(),
            final(self).learned_clauses() == old(self).learned_clauses(),
            final(self).formula() == old(self).formula(),
            final(self).vars() == old(self).vars(),
            final(self).stored() == old(self).stored(),
            final(self).outbox() == old(self).outbox(),
            final(self).counters() == old(self).counters(),
            final(self).deletion_limit() == old(self).deletion_limit(),
    {
        self.proof_log = Some(Vec::new());
    }

    /// Consume and return the proof log (DRUP format): each inner `Vec<i32>`
    /// is one clause in DIMACS literal encoding. The last entry is `[]` (the
    /// empty clause) if the result was UNSAT. Returns `None` if logging was
    /// not enabled.
    pub fn take_proof_log(&mut self) -> (log: Option<Vec<Vec<i32>>>)
        requires
            old(self).well_formed(),
        ensures
            final(self).well_formed(),
            log is None <==> old(self).log() is None,
            log matches Some(l) ==> old(self).log() == Some(l@) && log_ok(
                old(self).formula(),
                l@,
            ),
            log matches Some(l) ==> (old(self).sealed() ==> certified(
                old(self).formula(),
                old(self).vars(),
                l@,
            )),
            final(self).unlearned() == old(self).unlearned(),
            final(self).learned_clauses() == old(self).learned_clauses(),
            final(self).log() is None,
            final(self).formula() == old(self).formula(),
            final(self).vars() == old(self).vars(),
            final(self).stored() == old(self).stored(),
            final(self).outbox() == old(self).outbox(),
            final(self).counters() == old(self).counters(),
            final(self).deletion_limit() == old(self).deletion_limit(),
    {
        proof {
            if self.sealed() {
                assert(seals(
                    self.basis@.clauses,
                    self.num_vars,
                    self.proof_log->0@,
                    self.basis@.learned,
                ));
            }
        }
        self.proof_log.take()
    }

    /// Drain the learned clauses (and their LBD scores) produced since the
    /// last call. Cleared by this method; used by the Reasoner to build
    /// exportable clause knowledge.
    pub fn drain_learned(&mut self) -> (out: Vec<(Vec<Literal>, u32)>)
        requires
            old(self).well_formed(),
        ensures
            final(self).well_formed(),
            out@ == old(self).outbox(),
            outbox_ok(old(self).formula(), old(self).vars(), out@),
            final(self).outbox().len() == 0,
            final(self).formula() == old(self).formula(),
            final(self).vars() == old(self).vars(),
            final(self).stored() == old(self).stored(),
            final(self).log() == old(self).log(),
            final(self).counters() == old(self).counters(),
            final(self).deletion_limit() == old(self).deletion_limit(),
    {
        let mut out: Vec<(Vec<Literal>, u32)> = Vec::new();
        std::mem::swap(&mut out, &mut self.learned_outbox);
        out
    }

    /// Append the empty clause to the proof log (signals UNSAT).
    fn log_proof_empty(&mut self)
        requires
            old(self).aux_ok(),
        ensures
            final(self).same_search(old(self)),
            final(self).learned_outbox == old(self).learned_outbox,
            final(self).aux_ok(),
            old(self).proof_log is None <==> final(self).proof_log is None,
            old(self).proof_log matches Some(log) ==> {
                &&& final(self).proof_log->0@.len() == log@.len() + 1
                &&& log@.is_prefix_of(final(self).proof_log->0@)
                &&& final(self).proof_log->0@.last()@.len() == 0
            },
    {
        if let Some(log) = &mut self.proof_log {
            log.push(Vec::new());
        }
    }

    /// Append a clause to the proof log (if logging is enabled).
    fn log_proof_clause(&mut self, lits: &[Literal])
        requires
            old(self).aux_ok(),
            logic::entails(old(self).basis@.clauses, lits@),
            state::lits_ok(old(self).num_vars, lits@),
        ensures
            final(self).same_search(old(self)),
            final(self).learned_outbox == old(self).learned_outbox,
            final(self).aux_ok(),
            old(self).proof_log is None <==> final(self).proof_log is None,
            old(self).proof_log matches Some(log) ==> {
                &&& final(self).proof_log->0@.len() == log@.len() + 1
                &&& log@.is_prefix_of(final(self).proof_log->0@)
                &&& dimacs_of(final(self).proof_log->0@.last()@, lits@)
            },
    {
        if let Some(log) = &mut self.proof_log {
            assert forall|k: int| 0 <= k < lits@.len() implies (#[trigger] lits@[k]).var()
                <= MAX_VAR by {}
            let v: Vec<i32> = lits_to_dimacs(lits);
            proof {
                dimacs_of_entailed(self.basis@.clauses, self.num_vars, lits@, v@);
            }
            log.push(v);
        }
    }

    /// Everything but the staged clauses and the proof log is the same.
    spec fn same_search(&self, o: &CdclSolver) -> bool {
        &&& self.num_vars == o.num_vars
        &&& self.assignment == o.assignment
        &&& self.db == o.db
        &&& self.watches == o.watches
        &&& self.activity == o.activity
        &&& self.luby_u == o.luby_u
        &&& self.luby_v == o.luby_v
        &&& self.luby_scale == o.luby_scale
        &&& self.next_restart_conflicts == o.next_restart_conflicts
        &&& self.learnt_limit == o.learnt_limit
        &&& self.conflicts == o.conflicts
        &&& self.propagations == o.propagations
        &&& self.restarts == o.restarts
        &&& self.decisions == o.decisions
        &&& self.base_level == o.base_level
        &&& self.assumption_floor == o.assumption_floor
        &&& self.basis == o.basis
    }

    /// Everything but the clauses, the assignment and the formula is the same.
    spec fn same_aux(&self, o: &CdclSolver) -> bool {
        &&& self.num_vars == o.num_vars
        &&& self.activity == o.activity
        &&& self.luby_u == o.luby_u
        &&& self.luby_v == o.luby_v
        &&& self.luby_scale == o.luby_scale
        &&& self.next_restart_conflicts == o.next_restart_conflicts
        &&& self.learnt_limit == o.learnt_limit
        &&& self.conflicts == o.conflicts
        &&& self.propagations == o.propagations
        &&& self.restarts == o.restarts
        &&& self.decisions == o.decisions
        &&& self.base_level == o.base_level
        &&& self.assumption_floor == o.assumption_floor
        &&& self.learned_outbox == o.learned_outbox
        &&& self.proof_log == o.proof_log
    }

    /// Add a problem clause. Unit clauses are enqueued immediately at level 0.
    pub fn add_clause(&mut self, lits: &[Literal])
        requires
            old(self).well_formed(),
            state::lits_ok(old(self).vars(), lits@),
            lits@.len() >= 2 ==> old(self).stored() < FIRST_SENTINEL,
        ensures
            final(self).well_formed(),
            final(self).formula() == old(self).formula().push(lits@),
            final(self).mirrored() == old(self).mirrored(),
            final(self).unlearned() == old(self).unlearned(),
            final(self).learned_clauses() == old(self).learned_clauses(),
            final(self).vars() == old(self).vars(),
            final(self).stored() == old(self).stored() + (if lits@.len() >= 2 { 1nat } else { 0 }),
            final(self).log() == old(self).log(),
            final(self).outbox() == old(self).outbox(),
            final(self).counters() == old(self).counters(),
            final(self).deletion_limit() == old(self).deletion_limit(),
    {
        let ghost before = *self;
        let ghost f1 = trace::with_clause(self.basis@, lits@);
        let ghost n = self.num_vars;
        let ghost floor = self.assumption_floor;
        let ghost a0 = self.assignment;
        proof {
            state::formula_grows(self.basis@, lits@, n, self.db, self.watches, a0);
            assert(f1.clauses[f1.clauses.len() - 1] == lits@);
        }
        if lits.len() == 0 {
            self.db.set_empty_clause();
            proof {
                false_unit(f1, n, before.db, self.watches, a0, lits@);
                state::flag_keeps(f1, n, before.db, self.db, self.watches, a0, floor);
            }
        } else if lits.len() == 1 {
            let lit: Literal = lits[0];
            assert(1 <= lits@[0].var() <= n);
            assert(lits@ =~= seq![lit]);
            match self.assignment.literal_value(lit) {
                Value::True => {
                    proof {
                        state::true_on_trail(a0, lit);
                        assert(state::settled_by(a0, a0.at(lit), lits@));
                        assert(state::clause_kept(self.db, a0, lits@));
                    }
                },
                Value::False => {
                    self.db.set_empty_clause();
                    proof {
                        false_unit(f1, n, before.db, self.watches, a0, lits@);
                        state::flag_keeps(f1, n, before.db, self.db, self.watches, a0, floor);
                    }
                },
                Value::Undef => {
                    self.assignment.assign(lit, 0, ClauseRef::DECISION);
                    proof {
                        assert(lits@.contains(lit));
                        state::assign_keeps(
                            f1,
                            n,
                            self.db,
                            self.watches,
                            a0,
                            self.assignment,
                            lit,
                            ClauseRef::DECISION,
                            floor,
                            a0.prop_head as int,
                        );
                    }
                },
            }
        } else {
            assert(1 <= lits@[0].var() <= n);
            assert(1 <= lits@[1].var() <= n);
            let cr: ClauseRef = self.db.add(Clause::new(LitVec::from_slice(lits), false));
            // A clause with watches w0, w1 is stored under the literals that
            // make w0 and w1 false.
            self.watches.watch(lits[0].negate(), cr);
            let ghost mid = self.watches;
            self.watches.watch(lits[1].negate(), cr);
            if self.assignment.literal_value(lits[0]) == Value::False
                || self.assignment.literal_value(lits[1]) == Value::False {
                // The level-0 facts have to wake the new clause too.
                self.assignment.prop_head = 0;
            }
            proof {
                state::store_keeps(
                    f1,
                    n,
                    before.db,
                    self.db,
                    before.watches,
                    mid,
                    self.watches,
                    a0,
                    lits@,
                    false,
                );
                bcp::cursor_free(f1, n, self.db, self.watches, a0, self.assignment);
                assert forall|r: int| #[trigger] self.db.live(r) implies state::clause_settled(
                    self.db,
                    self.assignment,
                    floor,
                    self.assignment.prop_head as int,
                    r,
                ) by {
                    if r < before.db.clauses@.len() {
                        assert(before.db.live(r));
                        assert(state::clause_settled(
                            before.db,
                            a0,
                            floor,
                            a0.prop_head as int,
                            r,
                        ));
                    }
                    let w0 = self.db.lits(r)[0];
                    let w1 = self.db.lits(r)[1];
                    assert(state::lits_ok(n, self.db.lits(r)));
                    assert(1 <= w0.var() <= n && 1 <= w1.var() <= n);
                    if self.assignment.val(w0) == Value::False {
                        state::false_on_trail(self.assignment, w0);
                    }
                    if self.assignment.val(w1) == Value::False {
                        state::false_on_trail(self.assignment, w1);
                    }
                }
            }
        }
        proof {
            self.basis@ = f1;
            aux_grows(before, *self, lits@);
            assert forall|j: int| 0 <= j < f1.clauses.len() implies state::clause_kept(
                self.db,
                self.assignment,
                #[trigger] f1.clauses[j],
            ) by {
                if j < f1.clauses.len() - 1 {
                    assert(state::clause_kept(before.db, a0, f1.clauses[j]));
                }
            }
            assert forall|i: int|
                self.assignment.prop_head <= i < self.assignment.trail@.len() implies
                #[trigger] state::pending_at(self.assignment, floor, i) by {
                assert(self.assignment.trail@[i].var() < self.assignment.cap());
                assert(self.assignment.in_segment(
                    i,
                    self.assignment.lvl(self.assignment.trail@[i]) as int,
                ));
            }
        }
    }

    /// Import a batch of learned clauses into the clause database.
    ///
    /// Imported clauses are integrated at decision level 0, which is where
    /// the solver is between two calls.
    ///
    /// Returns the number of clauses added.
    pub fn import_clauses(&mut self, clauses: &[Vec<Literal>]) -> (n: usize)
        requires
            old(self).well_formed(),
            forall|i: int|
                0 <= i < clauses@.len() ==> state::lits_ok(
                    old(self).vars(),
                    (#[trigger] clauses@[i])@,
                ),
            old(self).stored() + references(clauses@.map_values(|c: Vec<Literal>| c@))
                <= FIRST_SENTINEL,
        ensures
            final(self).well_formed(),
            n == clauses@.len(),
            final(self).formula() == old(self).formula() + clauses@.map_values(
                |c: Vec<Literal>| c@,
            ),
            final(self).mirrored() == old(self).mirrored(),
            final(self).unlearned() == old(self).unlearned(),
            final(self).learned_clauses() == old(self).learned_clauses(),
            final(self).vars() == old(self).vars(),
            final(self).stored() == old(self).stored() + references(
                clauses@.map_values(|c: Vec<Literal>| c@),
            ),
            final(self).log() == old(self).log(),
            final(self).outbox() == old(self).outbox(),
            final(self).counters() == old(self).counters(),
            final(self).deletion_limit() == old(self).deletion_limit(),
    {
        let ghost batch = clauses@.map_values(|c: Vec<Literal>| c@);
        let mut i: usize = 0;
        assert(self.formula() =~= self.formula() + batch.take(0));
        while i < clauses.len()
            invariant
                i <= clauses@.len(),
                batch == clauses@.map_values(|c: Vec<Literal>| c@),
                self.well_formed(),
                self.vars() == old(self).vars(),
                self.formula() == old(self).formula() + batch.take(i as int),
                self.mirrored() == old(self).mirrored(),
                self.unlearned() == old(self).unlearned(),
                self.learned_clauses() == old(self).learned_clauses(),
                self.stored() == old(self).stored() + references(batch.take(i as int)),
                old(self).stored() + references(batch) <= FIRST_SENTINEL,
                self.log() == old(self).log(),
                self.outbox() == old(self).outbox(),
                self.counters() == old(self).counters(),
                self.deletion_limit() == old(self).deletion_limit(),
                forall|i: int|
                    0 <= i < clauses@.len() ==> state::lits_ok(
                        old(self).vars(),
                        (#[trigger] clauses@[i])@,
                    ),
            decreases clauses@.len() - i,
        {
            assert(state::lits_ok(self.vars(), clauses@[i as int]@));
            proof {
                assert(batch.take(i + 1) =~= batch.take(i as int).push(batch[i as int]));
                references_push(batch.take(i as int), batch[i as int]);
                references_grow(batch, i + 1);
            }
            self.add_clause(clauses[i].as_slice());
            assert(self.formula() =~= old(self).formula() + batch.take(i + 1));
            i += 1;
        }
        assert(batch.take(clauses@.len() as int) =~= batch);
        clauses.len()
    }
}

impl CdclSolver {
    /// Everything but the trail, the restart schedule and the restart counter
    /// is the same.
    spec fn same_but_restart(&self, o: &CdclSolver) -> bool {
        &&& self.num_vars == o.num_vars
        &&& self.db == o.db
        &&& self.watches == o.watches
        &&& self.activity == o.activity
        &&& self.luby_scale == o.luby_scale
        &&& self.learnt_limit == o.learnt_limit
        &&& self.conflicts == o.conflicts
        &&& self.propagations == o.propagations
        &&& self.decisions == o.decisions
        &&& self.base_level == o.base_level
        &&& self.assumption_floor == o.assumption_floor
        &&& self.learned_outbox == o.learned_outbox
        &&& self.proof_log == o.proof_log
        &&& self.basis == o.basis
    }

    /// `self` is `o` after a restart: everything above the assumptions is
    /// undone, and the next element of the Luby sequence says after how many
    /// conflicts the next restart comes.
    spec fn restarted(&self, o: &CdclSolver) -> bool {
        &&& self.same_but_restart(o)
        &&& state::undone(o.assignment, self.assignment, o.assumption_floor)
        &&& self.restarts == at_most_u64(o.restarts + 1)
        &&& (self.luby_u, self.luby_v) == luby::advanced(o.luby_u, o.luby_v)
        &&& self.next_restart_conflicts == at_most_u64(
            o.conflicts + restart_gap(o.luby_v, o.luby_scale),
        )
    }

    /// `self` is `o` after a restart if one is due, else `o` itself.
    spec fn restarted_if_due(&self, o: &CdclSolver) -> bool {
        if o.conflicts >= o.next_restart_conflicts {
            self.restarted(o)
        } else {
            *self == *o
        }
    }

    /// `self` is `o` after learned clauses have been deleted, if there are more
    /// of them than the limit, else `o` itself. The expendable ones go; the
    /// limit grows by a tenth; the watch lists hold the clauses that are left.
    spec fn reduced_if_due(&self, o: &CdclSolver) -> bool {
        if o.db.learnt_count <= o.learnt_limit {
            *self == *o
        } else {
            &&& self.same_but_clauses(o)
            &&& self.db.has_empty == o.db.has_empty
            &&& self.db.clauses@.len() == o.db.clauses@.len()
            &&& forall|r: int|
                0 <= r < o.db.clauses@.len() ==> #[trigger] self.db.clauses@[r] == (if expendable(
                    o.assignment,
                    o.db.clauses@[r],
                    r,
                ) {
                    None
                } else {
                    o.db.clauses@[r]
                })
            &&& self.learnt_limit == (if o.learnt_limit + o.learnt_limit / 10 > usize::MAX {
                usize::MAX as int
            } else {
                o.learnt_limit + o.learnt_limit / 10
            })
            &&& state::watch_ok(self.num_vars, self.db, self.watches)
        }
    }

    /// Everything but the clauses, the watch lists and the deletion limit is the
    /// same.
    spec fn same_but_clauses(&self, o: &CdclSolver) -> bool {
        &&& self.num_vars == o.num_vars
        &&& self.assignment == o.assignment
        &&& self.activity == o.activity
        &&& self.luby_u == o.luby_u
        &&& self.luby_v == o.luby_v
        &&& self.luby_scale == o.luby_scale
        &&& self.next_restart_conflicts == o.next_restart_conflicts
        &&& self.conflicts == o.conflicts
        &&& self.propagations == o.propagations
        &&& self.restarts == o.restarts
        &&& self.decisions == o.decisions
        &&& self.base_level == o.base_level
        &&& self.assumption_floor == o.assumption_floor
        &&& self.learned_outbox == o.learned_outbox
        &&& self.proof_log == o.proof_log
        &&& self.basis == o.basis
    }

    /// `self` is `o` after a backjump to `level`, with the scores of `vars`
    /// raised and the increment grown.
    spec fn backjumped(&self, o: &CdclSolver, level: u32, vars: Seq<Var>) -> bool {
        &&& state::undone(o.assignment, self.assignment, level)
        &&& self.activity.standing() == vsids::decayed(
            vsids::bumped_all(o.activity.standing(), vars),
        )
        &&& self.num_vars == o.num_vars
        &&& self.db == o.db
        &&& self.watches == o.watches
        &&& self.luby_u == o.luby_u
        &&& self.luby_v == o.luby_v
        &&& self.luby_scale == o.luby_scale
        &&& self.next_restart_conflicts == o.next_restart_conflicts
        &&& self.learnt_limit == o.learnt_limit
        &&& self.conflicts == o.conflicts
        &&& self.propagations == o.propagations
        &&& self.restarts == o.restarts
        &&& self.decisions == o.decisions
        &&& self.base_level == o.base_level
        &&& self.assumption_floor == o.assumption_floor
        &&& self.learned_outbox == o.learned_outbox
        &&& self.proof_log == o.proof_log
        &&& self.basis == o.basis
    }

    /// `self` is `o` with one more learned clause: it is listed among those
    /// learned, appended to the proof log (if there is one) and staged for
    /// export with its LBD; unless it is a unit it is stored and watched; and
    /// its first literal is made true.
    spec fn learned(&self, o: &CdclSolver, c: Seq<Literal>) -> bool {
        let reason = if c.len() == 1 {
            ClauseRef::DECISION
        } else {
            o.db.clauses.len() as u32
        };
        let lbd = self.learned_outbox@.last().1;
        &&& self.basis@ == trace::with_learned(o.basis@, c)
        &&& log_extended(o.log(), self.log(), c)
        &&& self.learned_outbox@.len() == o.learned_outbox@.len() + 1
        &&& o.learned_outbox@.is_prefix_of(self.learned_outbox@)
        &&& self.learned_outbox@.last().0@ == c
        &&& if c.len() == 1 {
            &&& lbd == 1
            &&& self.db == o.db
            &&& self.watches == o.watches
        } else {
            &&& levels_counted(o.assignment, c, lbd)
            &&& state::db_extended(o.db, self.db, c, true)
            &&& self.db.clauses@.last()->0.lbd == lbd
            &&& state::watch_ok(self.num_vars, self.db, self.watches)
        }
        &&& assigned(o.assignment, self.assignment, c[0], reason)
        &&& self.num_vars == o.num_vars
        &&& self.activity == o.activity
        &&& self.luby_u == o.luby_u
        &&& self.luby_v == o.luby_v
        &&& self.luby_scale == o.luby_scale
        &&& self.next_restart_conflicts == o.next_restart_conflicts
        &&& self.learnt_limit == o.learnt_limit
        &&& self.conflicts == o.conflicts
        &&& self.propagations == o.propagations
        &&& self.restarts == o.restarts
        &&& self.decisions == o.decisions
        &&& self.base_level == o.base_level
        &&& self.assumption_floor == o.assumption_floor
    }

    /// What learning from a conflict in clause `r` does: the clause that
    /// remains when the conflict is resolved back to its implication point is
    /// learned, after a jump back to its second highest level, but not below
    /// the assumptions; a restart and a deletion follow when they are due.
    /// `jumped`, `taught` and `settled` are the states in between.
    spec fn learns(
        &self,
        r: int,
        clause: Seq<Literal>,
        backjump: u32,
        vars: Seq<Var>,
        jumped: CdclSolver,
        taught: CdclSolver,
        settled: CdclSolver,
        after: CdclSolver,
    ) -> bool {
        let level = if backjump < self.assumption_floor {
            self.assumption_floor
        } else {
            backjump
        };
        &&& analyze::learned_from(self.basis@, self.num_vars, self.assignment, clause, backjump)
        &&& analyze::explained(self.db, self.assignment, r, clause, vars)
        &&& jumped.backjumped(self, level, vars)
        &&& taught.learned(&jumped, clause)
        &&& settled.restarted_if_due(&taught)
        &&& after.reduced_if_due(&settled)
    }

    /// Undo everything above `level`, which is not below the assumptions unless
    /// it is 0.
    fn undo_to(&mut self, level: u32)
        requires
            old(self).resting(),
            level >= old(self).assumption_floor || level == 0,
        ensures
            final(self).resting(),
            final(self).same_but_restart(old(self)),
            final(self).luby_u == old(self).luby_u,
            final(self).luby_v == old(self).luby_v,
            final(self).next_restart_conflicts == old(self).next_restart_conflicts,
            final(self).restarts == old(self).restarts,
            state::undone(old(self).assignment, final(self).assignment, level),
            level < old(self).assignment.trail_lim@.len() && (old(self).assumption_floor
                < old(self).assignment.trail_lim@.len() || level == 0)
                ==> final(self).assignment.prop_head == final(self).assignment.trail@.len(),
    {
        self.assignment.backtrack_to(level);
        proof {
            state::undo_keeps(
                self.basis@,
                self.num_vars,
                self.db,
                self.watches,
                old(self).assignment,
                self.assignment,
                level,
                self.assumption_floor,
            );
        }
    }

    /// Undo everything above the assumptions and schedule the next restart.
    fn do_restart(&mut self)
        requires
            old(self).resting(),
            old(self).conflicts < u64::MAX,
        ensures
            final(self).resting(),
            final(self).restarted(old(self)),
            final(self).next_restart_conflicts > final(self).conflicts,
    {
        let floor: u32 = self.assumption_floor;
        self.undo_to(floor);
        self.restarts = self.restarts.saturating_add(1);
        let next: u64 = luby::luby_next(&mut self.luby_u, &mut self.luby_v);
        let step: u64 = match next.checked_mul(self.luby_scale) {
            Some(x) => if x == 0 {
                1
            } else {
                x
            },
            None => u64::MAX,
        };
        self.next_restart_conflicts = self.conflicts.saturating_add(step);
    }

    /// Restart if the schedule says so.
    fn maybe_restart(&mut self)
        requires
            old(self).resting(),
            old(self).conflicts < u64::MAX,
        ensures
            final(self).resting(),
            final(self).restarted_if_due(old(self)),
    {
        if self.conflicts >= self.next_restart_conflicts {
            self.do_restart();
        }
    }

    /// Delete learned clauses of high LBD once there are too many, except
    /// those that are the antecedent of their first literal.
    fn maybe_reduce_db(&mut self)
        requires
            old(self).resting(),
        ensures
            final(self).resting(),
            final(self).reduced_if_due(old(self)),
    {
        if self.db.learnt_count() <= self.learnt_limit {
            return ;
        }
        let ghost db0 = self.db;
        let ghost w0 = self.watches;
        let ghost n = self.num_vars;
        let a: &Assignment = &self.assignment;
        // The propagated literal of an antecedent is its first one, so such a
        // clause is recognised by its first literal's reason.
        let should_delete = |cr: ClauseRef, c: &Clause| -> (d: bool)
            requires
                c.lits@.len() >= 1,
                c.lits@[0].var() < a.reason@.len(),
            ensures
                d == (c.lbd > 2 && a.reason@[c.lits@[0].var() as int] != cr.0),
            {
                c.lbd > 2 && a.reason_of(c.lits.at(0).var()) != cr.0
            };
        proof {
            assert forall|r: int|
                0 <= r < db0.clauses@.len() && crate::sat::clause::is_learnt(
                    #[trigger] db0.clauses@[r],
                ) implies should_delete.requires((ClauseRef(r as u32), &db0.clauses@[r]->0)) by {
                assert(db0.live(r));
                assert(state::lits_ok(n, db0.lits(r)));
                assert(1 <= db0.lits(r)[0].var() <= n);
            }
        }
        self.db.reduce_learned(should_delete);
        let ghost db1 = self.db;
        proof {
            assert forall|r: int| #[trigger] db1.live(r) implies {
                &&& db0.live(r)
                &&& db1.clauses@[r] == db0.clauses@[r]
                &&& db1.lits(r).len() >= 2
                &&& db1.lits(r)[0].negate().0 < w0.size()
                &&& db1.lits(r)[1].negate().0 < w0.size()
            } by {
                assert(db0.live(r));
                assert(state::lits_ok(n, db0.lits(r)));
                assert(1 <= db0.lits(r)[0].var() <= n);
                assert(1 <= db0.lits(r)[1].var() <= n);
            }
        }
        self.db.rebuild_watches(&mut self.watches);
        self.learnt_limit = self.learnt_limit.saturating_add(self.learnt_limit / 10);
        proof {
            reduced_ok(
                self.basis@,
                n,
                db0,
                db1,
                w0,
                self.watches,
                self.assignment,
                self.assumption_floor,
            );
        }
    }

    /// The number of distinct decision levels among the literals.
    fn compute_lbd(&self, lits: &[Literal]) -> (lbd: u32)
        requires
            self.assignment.well_formed(),
            lits@.len() <= u32::MAX,
            forall|k: int|
                0 <= k < lits@.len() ==> (#[trigger] lits@[k]).var() < self.assignment.cap(),
        ensures
            levels_counted(self.assignment, lits@, lbd),
    {
        let mut levels: Vec<u32> = Vec::new();
        let mut i: usize = 0;
        while i < lits.len()
            invariant
                i <= lits@.len(),
                levels@.len() <= i,
                self.assignment.well_formed(),
                forall|k: int|
                    0 <= k < lits@.len() ==> (#[trigger] lits@[k]).var() < self.assignment.cap(),
                levels@.no_duplicates(),
                forall|k: int|
                    0 <= k < i ==> levels@.contains(self.assignment.lvl(#[trigger] lits@[k])),
                forall|x: u32| #[trigger]
                    levels@.contains(x) ==> exists|k: int|
                        0 <= k < i && self.assignment.lvl(#[trigger] lits@[k]) == x,
            decreases lits@.len() - i,
        {
            let lit: Literal = lits[i];
            let lvl: u32 = self.assignment.level_of(lit.var());
            let mut known: bool = false;
            let mut j: usize = 0;
            while j < levels.len() && !known
                invariant
                    j <= levels@.len(),
                    known ==> levels@.contains(lvl),
                    !known ==> forall|k: int| 0 <= k < j ==> levels@[k] != lvl,
                decreases levels@.len() - j,
            {
                if levels[j] == lvl {
                    known = true;
                }
                j += 1;
            }
            let ghost before = levels@;
            if !known {
                levels.push(lvl);
            }
            proof {
                assert forall|x: u32| before.contains(x) implies #[trigger] levels@.contains(
                    x,
                ) by {
                    let k = choose|k: int| 0 <= k < before.len() && before[k] == x;
                    assert(levels@[k] == x);
                }
                assert(levels@.contains(lvl)) by {
                    if !known {
                        assert(levels@[levels@.len() - 1] == lvl);
                    }
                }
                assert forall|x: u32| #[trigger] levels@.contains(x) implies exists|k: int|
                    0 <= k < i + 1 && self.assignment.lvl(#[trigger] lits@[k]) == x by {
                    if x == lvl {
                        assert(self.assignment.lvl(lits@[i as int]) == x);
                    } else {
                        let k = choose|k: int| 0 <= k < levels@.len() && levels@[k] == x;
                        assert(before[k] == x);
                        assert(before.contains(x));
                    }
                }
            }
            i += 1;
        }
        levels.len() as u32
    }

    /// Store a learned clause, watch its first two literals and stage it for
    /// export.
    fn add_learned_clause(&mut self, lits: &[Literal]) -> (cr: ClauseRef)
        requires
            old(self).aux_ok(),
            lits@.len() >= 2,
            state::lits_ok(old(self).num_vars, lits@),
            logic::entails(old(self).basis@.clauses, lits@),
            state::core_ok(
                old(self).basis@,
                old(self).num_vars,
                old(self).db,
                old(self).watches,
                old(self).assignment,
            ),
            old(self).db.clauses@.len() < FIRST_SENTINEL,
            lits@.len() <= u32::MAX,
        ensures
            final(self).aux_ok(),
            cr.0 == old(self).db.clauses@.len(),
            state::db_extended(old(self).db, final(self).db, lits@, true),
            exists|mid: WatchList|
                {
                    &&& #[trigger] state::watch_added(
                        old(self).watches,
                        mid,
                        lits@[0].negate(),
                        cr,
                    )
                    &&& state::watch_added(mid, final(self).watches, lits@[1].negate(), cr)
                },
            final(self).learned_outbox@.len() == old(self).learned_outbox@.len() + 1,
            old(self).learned_outbox@.is_prefix_of(final(self).learned_outbox@),
            final(self).learned_outbox@.last().0@ == lits@,
            final(self).db.clauses@.last()->0.lbd == final(self).learned_outbox@.last().1,
            levels_counted(
                old(self).assignment,
                lits@,
                final(self).learned_outbox@.last().1,
            ),
            final(self).num_vars == old(self).num_vars,
            final(self).assignment == old(self).assignment,
            final(self).activity == old(self).activity,
            final(self).luby_u == old(self).luby_u,
            final(self).luby_v == old(self).luby_v,
            final(self).luby_scale == old(self).luby_scale,
            final(self).learnt_limit == old(self).learnt_limit,
            final(self).propagations == old(self).propagations,
            final(self).restarts == old(self).restarts,
            final(self).decisions == old(self).decisions,
            final(self).conflicts == old(self).conflicts,
            final(self).next_restart_conflicts == old(self).next_restart_conflicts,
            final(self).base_level == old(self).base_level,
            final(self).assumption_floor == old(self).assumption_floor,
            final(self).proof_log == old(self).proof_log,
            final(self).basis == old(self).basis,
    {
        assert(1 <= lits@[0].var() <= self.num_vars && 1 <= lits@[1].var() <= self.num_vars);
        let lbd: u32 = self.compute_lbd(lits);
        let mut clause: Clause = Clause::new(LitVec::from_slice(lits), true);
        clause.lbd = lbd;
        let cr: ClauseRef = self.db.add(clause);
        self.watches.watch(lits[0].negate(), cr);
        let ghost mid = self.watches;
        self.watches.watch(lits[1].negate(), cr);
        proof {
            assert(state::watch_added(old(self).watches, mid, lits@[0].negate(), cr));
        }
        let copy: Vec<Literal> = vstd::slice::slice_to_vec(lits);
        self.learned_outbox.push((copy, lbd));
        cr
    }
}

/// A number, or the largest one that can be stored.
spec fn at_most_u64(x: int) -> u64 {
    if x > u64::MAX {
        u64::MAX
    } else {
        x as u64
    }
}

/// The number of conflicts between two restarts: an element of the Luby
/// sequence, scaled; at least one.
spec fn restart_gap(v: u64, scale: u64) -> int {
    if v * scale == 0 {
        1
    } else {
        v * scale
    }
}

/// A learned clause of high LBD that is not the antecedent of its first
/// literal.
spec fn expendable(a: Assignment, slot: Option<Clause>, r: int) -> bool {
    &&& crate::sat::clause::is_learnt(slot)
    &&& slot->0.lbd > 2
    &&& a.reason@[slot->0.lits@[0].var() as int] != r
}

/// `lbd` is the number of distinct levels of the literals.
spec fn levels_counted(a: Assignment, lits: Seq<Literal>, lbd: u32) -> bool {
    exists|levels: Seq<u32>|
        {
            &&& #[trigger] levels.no_duplicates()
            &&& levels.len() == lbd
            &&& forall|k: int|
                0 <= k < lits.len() ==> levels.contains(a.lvl(#[trigger] lits[k]))
            &&& forall|x: u32| #[trigger]
                levels.contains(x) ==> exists|k: int|
                    0 <= k < lits.len() && a.lvl(#[trigger] lits[k]) == x
        }
}

/// The log with one more clause, if there is a log.
spec fn log_extended(
    old_log: Option<Seq<Vec<i32>>>,
    new_log: Option<Seq<Vec<i32>>>,
    c: Seq<Literal>,
) -> bool {
    match (old_log, new_log) {
        (None, None) => true,
        (Some(x), Some(y)) => {
            &&& y.len() == x.len() + 1
            &&& x.is_prefix_of(y)
            &&& dimacs_of(y.last()@, c)
        },
        _ => false,
    }
}

/// `b` is `a` with `lit` made true at the current level.
spec fn assigned(a: Assignment, b: Assignment, lit: Literal, reason: u32) -> bool {
    &&& b.trail@ == a.trail@.push(lit)
    &&& b.trail_lim == a.trail_lim
    &&& b.prop_head == a.prop_head
    &&& b.value@ == a.value@.update(
        lit.var() as int,
        crate::sat::assignment::value_of_bool(lit.is_positive()),
    )
    &&& b.level@ == a.level@.update(lit.var() as int, a.trail_lim.len() as u32)
    &&& b.reason@ == a.reason@.update(lit.var() as int, reason)
}

/// The literals in DIMACS form.
pub open spec fn dimacs_of(v: Seq<i32>, lits: Seq<Literal>) -> bool {
    &&& v.len() == lits.len()
    &&& forall|k: int| 0 <= k < lits.len() ==> #[trigger] v[k] == logic::to_dimacs(lits[k])
}

/// The log lists these clauses.
pub open spec fn mirrors(log: Seq<Vec<i32>>, learned: Seq<Seq<Literal>>) -> bool {
    &&& log.len() == learned.len()
    &&& forall|i: int| 0 <= i < log.len() ==> dimacs_of((#[trigger] log[i])@, learned[i])
}

/// The log lists clauses that unit propagation derives, each from the formula
/// and those before it, and then the empty clause, which it derives too.
pub open spec fn seals(
    f: Seq<Seq<Literal>>,
    n: u32,
    log: Seq<Vec<i32>>,
    learned: Seq<Seq<Literal>>,
) -> bool {
    &&& log.len() == learned.len() + 1
    &&& mirrors(log.drop_last(), learned)
    &&& log.last()@.len() == 0
    &&& trace::learned_ok((Basis { clauses: f, learned }), n)
    &&& trace::dead(f + learned)
}

/// A log that refutes the formula by unit propagation.
pub open spec fn certified(f: Seq<Seq<Literal>>, n: u32, log: Seq<Vec<i32>>) -> bool {
    exists|learned: Seq<Seq<Literal>>| #[trigger] seals(f, n, log, learned)
}

/// The new log is the old one with clauses appended.
pub open spec fn log_grown(old_log: Option<Seq<Vec<i32>>>, new_log: Option<Seq<Vec<i32>>>) -> bool {
    match (old_log, new_log) {
        (None, None) => true,
        (Some(x), Some(y)) => x.is_prefix_of(y),
        _ => false,
    }
}

/// How many of some clauses are stored under a reference: those with at least
/// two literals.
pub open spec fn references(clauses: Seq<Seq<Literal>>) -> nat
    decreases clauses.len(),
{
    if clauses.len() == 0 {
        0
    } else {
        references(clauses.drop_last()) + (if clauses.last().len() >= 2 {
            1nat
        } else {
            0
        })
    }
}

/// One more clause takes at most one more reference.
pub proof fn references_push(clauses: Seq<Seq<Literal>>, c: Seq<Literal>)
    ensures
        references(clauses.push(c)) == references(clauses) + (if c.len() >= 2 {
            1nat
        } else {
            0
        }),
{
    assert(clauses.push(c).drop_last() =~= clauses);
}

/// The first clauses take no more references than all of them.
pub proof fn references_grow(clauses: Seq<Seq<Literal>>, i: int)
    requires
        0 <= i <= clauses.len(),
    ensures
        references(clauses.take(i)) <= references(clauses),
    decreases clauses.len(),
{
    if i == clauses.len() {
        assert(clauses.take(i) =~= clauses);
    } else {
        references_grow(clauses.drop_last(), i);
        assert(clauses.drop_last().take(i) =~= clauses.take(i));
    }
}

/// How many clauses a log has.
pub open spec fn log_len(log: Option<Seq<Vec<i32>>>) -> int {
    match log {
        Some(l) => l.len() as int,
        None => 0,
    }
}

/// The log ends in the empty clause, if there is a log.
pub open spec fn log_closed(log: Option<Seq<Vec<i32>>>) -> bool {
    log matches Some(l) ==> l.len() > 0 && l.last()@.len() == 0
}

/// What a result claims of the formula and the assumptions.
pub open spec fn result_ok(
    r: SolveResult,
    n: u32,
    f: Seq<Seq<Literal>>,
    assumptions: Seq<Literal>,
) -> bool {
    match r {
        SolveResult::Sat(m) => {
            &&& m.values().len() == n + 1
            &&& logic::formula_holds(m.valuation(), f)
            &&& logic::all_hold(m.valuation(), assumptions)
        },
        SolveResult::Unsat => logic::unsatisfiable(f, assumptions),
        SolveResult::Unknown => true,
    }
}

/// The assumptions that were not implied are the decisions below the floor.
spec fn pinned(a: Assignment, floor: u32, assumptions: Seq<Literal>) -> bool {
    &&& floor <= a.trail_lim@.len()
    &&& forall|d: int|
        0 <= d < floor ==> a.trail_lim@[d] < a.trail@.len() && assumptions.contains(
            a.trail@[#[trigger] a.trail_lim@[d] as int],
        )
}

/// The first `count` assumptions are true at the assumption levels.
spec fn assumed(a: Assignment, floor: u32, assumptions: Seq<Literal>, count: int) -> bool {
    forall|i: int|
        0 <= i < count ==> {
            &&& a.val(#[trigger] assumptions[i]) == Value::True
            &&& a.lvl(assumptions[i]) <= floor
        }
}

/// A false literal at the assumption levels contradicts the assumptions.
proof fn refuted(
    f: Basis,
    n: u32,
    db: ClauseDb,
    w: WatchList,
    a: Assignment,
    floor: u32,
    assumptions: Seq<Literal>,
    val: logic::Valuation,
    x: Literal,
)
    requires
        state::core_ok(f, n, db, w, a),
        pinned(a, floor, assumptions),
        a.trail_lim@.len() <= floor,
        1 <= x.var() <= n,
        a.val(x) == Value::False,
        logic::formula_holds(val, f.clauses),
        logic::all_hold(val, assumptions),
    ensures
        !logic::lit_holds(val, x),
{
    state::false_on_trail(a, x);
    crate::akx::literal::negation_laws(x);
    known_vars(n, db);
    assert forall|d: int| 0 <= d < a.trail_lim@.len() implies a.trail_lim@[d] < a.trail@.len()
        && logic::lit_holds(val, a.trail@[#[trigger] a.trail_lim@[d] as int]) by {
        let t = a.trail@[a.trail_lim@[d] as int];
        assert(assumptions.contains(t));
        let k = choose|k: int| 0 <= k < assumptions.len() && assumptions[k] == t;
        assert(logic::lit_holds(val, assumptions[k]));
    }
    state::trail_holds(f, db, a, a.trail_lim@.len() as int, val, a.at(x));
}

/// A conflict at the assumption levels refutes the assumptions.
proof fn conflict_refutes(
    f: Basis,
    n: u32,
    db: ClauseDb,
    w: WatchList,
    a: Assignment,
    floor: u32,
    assumptions: Seq<Literal>,
    r: int,
)
    requires
        state::core_ok(f, n, db, w, a),
        pinned(a, floor, assumptions),
        a.trail_lim@.len() <= floor,
        bcp::falsified(db, a, r),
    ensures
        logic::unsatisfiable(f.clauses, assumptions),
{
    assert forall|val: logic::Valuation| #[trigger] logic::formula_holds(val, f.clauses) implies
        !logic::all_hold(val, assumptions) by {
        if logic::all_hold(val, assumptions) {
            let c = db.lits(r);
            assert(logic::clause_holds(val, c));
            let k = choose|k: int| 0 <= k < c.len() && logic::lit_holds(val, #[trigger] c[k]);
            assert(state::lits_ok(n, c));
            assert(1 <= c[k].var() <= n);
            refuted(f, n, db, w, a, floor, assumptions, val, c[k]);
        }
    }
}

/// Pinned assumptions stay when the trail grows at its end.
proof fn pinned_grows(
    a: Assignment,
    b: Assignment,
    floor: u32,
    assumptions: Seq<Literal>,
    n: u32,
)
    requires
        a.well_formed(),
        b.well_formed(),
        b.cap() == a.cap(),
        a.cap() == n + 1,
        state::lits_ok(n, assumptions),
        pinned(a, floor, assumptions),
        assumed(a, floor, assumptions, assumptions.len() as int),
        a.trail@.is_prefix_of(b.trail@),
        a.trail_lim@.is_prefix_of(b.trail_lim@),
        forall|d: int|
            a.trail_lim@.len() <= d < b.trail_lim@.len() ==> a.trail@.len()
                <= #[trigger] b.trail_lim@[d],
    ensures
        pinned(b, floor, assumptions),
        assumed(b, floor, assumptions, assumptions.len() as int),
{
    assert forall|d: int| 0 <= d < floor implies b.trail_lim@[d] < b.trail@.len()
        && assumptions.contains(b.trail@[#[trigger] b.trail_lim@[d] as int]) by {
        assert(b.trail_lim@[d] == a.trail_lim@[d]);
        assert(b.trail@[b.trail_lim@[d] as int] == a.trail@[a.trail_lim@[d] as int]);
    }
    assert forall|i: int| 0 <= i < assumptions.len() implies {
        &&& b.val(#[trigger] assumptions[i]) == Value::True
        &&& b.lvl(assumptions[i]) <= floor
    } by {
        let x = assumptions[i];
        assert(1 <= x.var() <= n);
        assert(a.val(x) == Value::True && a.lvl(x) <= floor);
        state::true_on_trail(a, x);
        let p = a.at(x);
        assert(b.trail@[p] == x);
        assert(b.trail@[p].var() < b.cap());
        assert(a.trail@[p].var() < a.cap());
        let lv = b.lvl(x) as int;
        assert(b.in_segment(p, lv));
        let la = a.lvl(x) as int;
        assert(a.in_segment(p, la));
        if lv > la {
            assert(b.trail_lim@[la] <= b.trail_lim@[lv - 1]);
            if la < a.trail_lim@.len() {
                assert(b.trail_lim@[la] == a.trail_lim@[la]);
            }
        }
    }
}

/// Pinned assumptions stay when only levels above them are undone.
proof fn pinned_undone(
    a: Assignment,
    b: Assignment,
    level: u32,
    floor: u32,
    assumptions: Seq<Literal>,
    n: u32,
)
    requires
        a.well_formed(),
        a.cap() == n + 1,
        state::levels_strict(a),
        state::lits_ok(n, assumptions),
        pinned(a, floor, assumptions),
        assumed(a, floor, assumptions, assumptions.len() as int),
        state::undone(a, b, level),
        level >= floor,
    ensures
        pinned(b, floor, assumptions),
        assumed(b, floor, assumptions, assumptions.len() as int),
{
    assert forall|d: int| 0 <= d < floor implies b.trail_lim@[d] < b.trail@.len()
        && assumptions.contains(b.trail@[#[trigger] b.trail_lim@[d] as int]) by {
        assert(b.trail_lim@[d] == a.trail_lim@[d]);
        if level < a.trail_lim@.len() {
            assert(a.trail_lim@[d] < a.trail_lim@[level as int]);
        }
        assert(b.trail@[b.trail_lim@[d] as int] == a.trail@[a.trail_lim@[d] as int]);
    }
    assert forall|i: int| 0 <= i < assumptions.len() implies {
        &&& b.val(#[trigger] assumptions[i]) == Value::True
        &&& b.lvl(assumptions[i]) <= floor
    } by {
        let x = assumptions[i];
        assert(1 <= x.var() <= n);
        assert(a.val(x) == Value::True && a.lvl(x) <= floor);
        state::undone_frame(a, b, level, x);
    }
}

impl CdclSolver {
    fn extract_model(&self) -> (m: Model)
        requires
            self.num_vars < MAX_VAR,
            self.assignment.cap() == self.num_vars + 1,
        ensures
            m.values().len() == self.num_vars + 1,
            !m.values()[0],
            forall|v: int|
                1 <= v <= self.num_vars ==> #[trigger] m.values()[v] == (self.assignment.value@[v]
                    == Value::True),
    {
        let mut values: Vec<bool> = vec![false; self.num_vars as usize + 1];
        let mut v: u32 = 1;
        while v <= self.num_vars
            invariant
                1 <= v <= self.num_vars + 1,
                self.num_vars < MAX_VAR,
                self.assignment.cap() == self.num_vars + 1,
                values@.len() == self.num_vars + 1,
                !values@[0],
                forall|u: int|
                    1 <= u < v ==> #[trigger] values@[u] == (self.assignment.value@[u]
                        == Value::True),
            decreases self.num_vars + 1 - v,
        {
            values[v as usize] = self.assignment.value_of(v) == Value::True;
            v += 1;
        }
        Model::new(values)
    }

    /// Open a level and make `lit` its decision.
    fn decide(&mut self, lit: Literal)
        requires
            old(self).resting(),
            1 <= lit.var() <= old(self).num_vars,
            old(self).assignment.val(lit) == Value::Undef,
            old(self).assignment.prop_head == old(self).assignment.trail@.len(),
        ensures
            final(self).resting(),
            final(self).assignment.trail@ == old(self).assignment.trail@.push(lit),
            final(self).assignment.trail_lim@ == old(self).assignment.trail_lim@.push(
                old(self).assignment.trail.len(),
            ),
            final(self).num_vars == old(self).num_vars,
            final(self).db == old(self).db,
            final(self).conflicts == old(self).conflicts,
            final(self).decisions == at_most_u64(old(self).decisions + 1),
            final(self).next_restart_conflicts == old(self).next_restart_conflicts,
            final(self).base_level == old(self).base_level,
            final(self).assumption_floor == old(self).assumption_floor,
            final(self).learned_outbox == old(self).learned_outbox,
            final(self).proof_log == old(self).proof_log,
            final(self).basis == old(self).basis,
    {
        let ghost a0 = self.assignment;
        proof {
            state::trail_bounded(a0, self.num_vars);
            levels_bounded(a0);
        }
        self.assignment.new_decision_level();
        let ghost mid = self.assignment;
        let level: u32 = self.assignment.current_level();
        self.assignment.assign(lit, level, ClauseRef::DECISION);
        proof {
            state::decide_keeps(
                self.basis@,
                self.num_vars,
                self.db,
                self.watches,
                a0,
                mid,
                self.assignment,
                lit,
                self.assumption_floor,
                self.assumption_floor,
            );
        }
        self.decisions = self.decisions.saturating_add(1);
    }

    /// Log a learned clause, store it (unless it is a unit) and make its first
    /// literal true at the current level.
    fn assert_learned(&mut self, learnt: &LitVec, backjump: u32)
        requires
            old(self).resting(),
            !old(self).db.has_empty,
            old(self).assignment.prop_head == old(self).assignment.trail@.len(),
            old(self).db.clauses@.len() < FIRST_SENTINEL,
            learnt@.len() >= 1,
            state::lits_ok(old(self).num_vars, learnt@),
            state::distinct_vars(learnt@),
            logic::entails(old(self).basis@.clauses, learnt@),
            trace::up_entails(trace::steps(old(self).basis@), learnt@),
            old(self).assignment.val(learnt@[0]) == Value::Undef,
            old(self).assignment.trail_lim@.len() == (if backjump < old(self).assumption_floor {
                old(self).assumption_floor
            } else {
                backjump
            }),
            forall|k: int|
                1 <= k < learnt@.len() ==> {
                    &&& old(self).assignment.val(#[trigger] learnt@[k]) == Value::False
                    &&& 1 <= old(self).assignment.lvl(learnt@[k]) <= backjump
                },
            learnt@.len() > 1 ==> old(self).assignment.lvl(learnt@[1]) == backjump,
        ensures
            final(self).resting(),
            !final(self).db.has_empty,
            final(self).learned(old(self), learnt@),
            old(self).mirrored() ==> final(self).mirrored(),
            log_grown(old(self).log(), final(self).log()),
            final(self).db.clauses@.len() >= old(self).db.clauses@.len(),
    {
        let ghost f = trace::with_learned(self.basis@, learnt@);
        let ghost n = self.num_vars;
        let ghost a0 = self.assignment;
        let ghost floor = self.assumption_floor;
        let lit: Literal = learnt.at(0);
        assert(1 <= learnt@[0].var() <= n);
        proof {
            state::distinct_bounded(learnt@, n);
        }
        self.log_proof_clause(learnt.as_slice());
        proof {
            state::learned_grows(
                self.basis@,
                learnt@,
                n,
                self.db,
                self.watches,
                a0,
                floor,
            );
            trace::learned_ok_push(self.basis@, n, learnt@);
            if old(self).mirrored() {
                mirrors_push(
                    old(self).proof_log->0@,
                    self.proof_log->0@,
                    self.basis@.learned,
                    learnt@,
                );
            }
            self.basis@ = f;
        }
        let level: u32 = self.assignment.current_level();
        if learnt.len() == 1 {
            // Unit learnings are asserted directly (never added to the clause
            // database), but they are the most potent exportable knowledge.
            let copy: Vec<Literal> = vstd::slice::slice_to_vec(learnt.as_slice());
            self.learned_outbox.push((copy, 1));
            self.assignment.assign(lit, level, ClauseRef::DECISION);
            proof {
                assert(learnt@ =~= seq![lit]);
                state::assign_keeps(
                    f,
                    n,
                    self.db,
                    self.watches,
                    a0,
                    self.assignment,
                    lit,
                    ClauseRef::DECISION,
                    floor,
                    a0.prop_head as int,
                );
            }
        } else {
            let ghost db0 = self.db;
            let ghost w0 = self.watches;
            let cr: ClauseRef = self.add_learned_clause(learnt.as_slice());
            let ghost mid = choose|mid: WatchList|
                {
                    &&& #[trigger] state::watch_added(w0, mid, learnt@[0].negate(), cr)
                    &&& state::watch_added(mid, self.watches, learnt@[1].negate(), cr)
                };
            proof {
                state::store_keeps(
                    f,
                    n,
                    db0,
                    self.db,
                    w0,
                    mid,
                    self.watches,
                    a0,
                    learnt@,
                    true,
                );
                assert(1 <= learnt@[1].var() <= n);
                state::false_on_trail(a0, learnt@[1]);
            }
            self.assignment.assign(lit, level, cr.0);
            proof {
                learned_settled(
                    f,
                    n,
                    db0,
                    self.db,
                    w0,
                    self.watches,
                    a0,
                    self.assignment,
                    learnt@,
                    cr,
                    floor,
                );
            }
        }
        proof {
            assert forall|i: int|
                self.assignment.prop_head <= i < self.assignment.trail@.len() implies
                #[trigger] state::pending_at(self.assignment, floor, i) by {}
        }
    }
}

impl CdclSolver {
    /// Learn from a conflict above the assumption levels: analyse it, backjump,
    /// assert the learned clause, and restart or delete clauses when due.
    #[verifier::rlimit(80)]
    #[verifier::spinoff_prover]
    fn learn_from(&mut self, conflict_cr: ClauseRef, Ghost(assumptions): Ghost<Seq<Literal>>)
        requires
            old(self).resting(),
            !old(self).db.has_empty,
            old(self).conflicts < u64::MAX,
            old(self).db.clauses@.len() < FIRST_SENTINEL,
            old(self).assignment.trail_lim@.len() > old(self).assumption_floor,
            bcp::falsified(old(self).db, old(self).assignment, conflict_cr.0 as int),
            old(self).assignment.prop_head < old(self).assignment.trail@.len(),
            old(self).db.lits(conflict_cr.0 as int)[1]
                == old(self).assignment.trail@[old(self).assignment.prop_head as int].negate(),
            state::lits_ok(old(self).num_vars, assumptions),
            pinned(old(self).assignment, old(self).assumption_floor, assumptions),
            assumed(
                old(self).assignment,
                old(self).assumption_floor,
                assumptions,
                assumptions.len() as int,
            ),
        ensures
            final(self).resting(),
            !final(self).db.has_empty,
            final(self).num_vars == old(self).num_vars,
            final(self).basis@.clauses == old(self).basis@.clauses,
            old(self).mirrored() ==> final(self).mirrored(),
            final(self).conflicts == old(self).conflicts,
            final(self).assumption_floor == old(self).assumption_floor,
            pinned(final(self).assignment, old(self).assumption_floor, assumptions),
            assumed(
                final(self).assignment,
                old(self).assumption_floor,
                assumptions,
                assumptions.len() as int,
            ),
            log_grown(old(self).log(), final(self).log()),
            final(self).db.clauses@.len() >= old(self).db.clauses@.len(),
            final(self).basis@.learned.len() == old(self).basis@.learned.len() + 1,
            final(self).decisions == old(self).decisions,
            old(self).log() is Some ==> log_len(final(self).log()) == log_len(old(self).log()) + 1,
            exists|
                clause: Seq<Literal>,
                backjump: u32,
                vars: Seq<Var>,
                jumped: CdclSolver,
                taught: CdclSolver,
                settled: CdclSolver,
            | #[trigger]
                old(self).learns(
                    conflict_cr.0 as int,
                    clause,
                    backjump,
                    vars,
                    jumped,
                    taught,
                    settled,
                    *final(self),
                ),
    {
        let ghost f = self.basis@;
        let ghost n = self.num_vars;
        let ghost floor = self.assumption_floor;
        let ghost a1 = self.assignment;
        proof {
            let c = self.db.lits(conflict_cr.0 as int);
            let p = a1.trail@[a1.prop_head as int];
            assert(state::pending_at(a1, floor, a1.prop_head as int));
            crate::akx::literal::negation_laws(p);
            assert(c[1] == p.negate());
            assert(self.db.live(conflict_cr.0 as int));
            assert(a1.lvl(c[1]) == a1.trail_lim@.len());
        }
        let (learnt, backjump) = analyze::analyze(
            &self.db,
            &self.assignment,
            &mut self.activity,
            conflict_cr,
            self.num_vars,
            Ghost(f),
            Ghost(self.watches),
        );
        let ghost vars = choose|vars: Seq<Var>|
            {
                &&& #[trigger] analyze::explained(
                    old(self).db,
                    a1,
                    conflict_cr.0 as int,
                    learnt@,
                    vars,
                )
                &&& self.activity.standing() == vsids::bumped_all(
                    old(self).activity.standing(),
                    vars,
                )
            };
        // Never backjump below the assumption levels.
        let target: u32 = if backjump < self.assumption_floor {
            self.assumption_floor
        } else {
            backjump
        };
        self.undo_to(target);
        proof {
            pinned_undone(a1, self.assignment, target, floor, assumptions, n);
            after_backjump(n, a1, self.assignment, learnt@, backjump, target);
        }
        self.activity.decay();
        let ghost a2 = self.assignment;
        let ghost jumped = *self;
        self.assert_learned(&learnt, backjump);
        let ghost taught = *self;
        proof {
            assert(a2.trail@.is_prefix_of(self.assignment.trail@));
            assert(a2.trail_lim@.is_prefix_of(self.assignment.trail_lim@));
            pinned_grows(a2, self.assignment, floor, assumptions, n);
        }
        let ghost a3 = self.assignment;
        self.maybe_restart();
        let ghost settled = *self;
        proof {
            if self.conflicts >= taught.next_restart_conflicts {
                pinned_undone(a3, self.assignment, floor, floor, assumptions, n);
            }
        }
        self.maybe_reduce_db();
        assert(old(self).learns(
            conflict_cr.0 as int,
            learnt@,
            backjump,
            vars,
            jumped,
            taught,
            settled,
            *self,
        ));
    }

    /// One turn of the search: propagate, then learn from a conflict, restart
    /// or decide. Returns a result if there is one.
    #[verifier::rlimit(100)]
    #[verifier::spinoff_prover]
    fn turn(
        &mut self,
        assumptions: &[Literal],
        max_conflicts: u64,
        conflicts_at_entry: u64,
    ) -> (r: Option<SolveResult>)
        requires
            old(self).resting(),
            !old(self).db.has_empty,
            state::lits_ok(old(self).num_vars, assumptions@),
            pinned(old(self).assignment, old(self).assumption_floor, assumptions@),
            assumed(
                old(self).assignment,
                old(self).assumption_floor,
                assumptions@,
                assumptions@.len() as int,
            ),
            conflicts_at_entry <= old(self).conflicts < u64::MAX,
            old(self).conflicts - conflicts_at_entry <= max_conflicts,
        ensures
            final(self).resting(),
            final(self).num_vars == old(self).num_vars,
            final(self).basis@.clauses == old(self).basis@.clauses,
            final(self).assumption_floor == old(self).assumption_floor,
            old(self).conflicts <= final(self).conflicts,
            old(self).decisions <= final(self).decisions,
            (final(self).conflicts - old(self).conflicts) + (final(self).decisions
                - old(self).decisions) <= 1,
            log_grown(old(self).log(), final(self).log()),
            final(self).db.clauses@.len() >= old(self).db.clauses@.len(),
            old(self).mirrored() && r != Some(SolveResult::Unsat) ==> final(self).mirrored(),
            old(self).assignment.trail_lim@.len() == old(self).assumption_floor && trace::plain(
                old(self).basis@.clauses,
            ) && trace::dead(old(self).basis@.clauses + trace::units(assumptions@)) ==> r is Some
                && (old(self).conflicts - conflicts_at_entry < max_conflicts ==> r == Some(
                SolveResult::Unsat,
            )),
            match r {
                None => {
                    &&& !final(self).db.has_empty
                    &&& pinned(final(self).assignment, old(self).assumption_floor, assumptions@)
                    &&& assumed(
                        final(self).assignment,
                        old(self).assumption_floor,
                        assumptions@,
                        assumptions@.len() as int,
                    )
                    &&& final(self).conflicts < u64::MAX
                    &&& final(self).conflicts - conflicts_at_entry <= max_conflicts
                    &&& final(self).basis@.learned.len() - old(self).basis@.learned.len()
                        == final(self).conflicts - old(self).conflicts
                    &&& old(self).log() is Some ==> log_len(final(self).log()) == log_len(
                        old(self).log(),
                    ) + final(self).conflicts - old(self).conflicts
                    &&& final(self).conflicts == old(self).conflicts ==> nearer(
                        *old(self),
                        *final(self),
                    )
                },
                Some(s) => {
                    &&& result_ok(
                        s,
                        old(self).num_vars,
                        old(self).basis@.clauses,
                        assumptions@,
                    )
                    &&& final(self).basis@.learned == old(self).basis@.learned
                    &&& old(self).log() is Some ==> log_len(final(self).log()) == log_len(
                        old(self).log(),
                    ) + (if s is Unsat {
                        1int
                    } else {
                        0
                    })
                    &&& s is Unsat ==> log_closed(final(self).log())
                    &&& s is Unsat && old(self).assumption_floor == 0 ==> trace::dead(
                        trace::steps(final(self).basis@),
                    )
                    &&& s is Unsat && old(self).assumption_floor == 0 && old(self).mirrored()
                        ==> final(self).sealed()
                    &&& !(s is Unknown) ==> final(self).conflicts - conflicts_at_entry
                        <= max_conflicts
                    &&& s is Unknown ==> {
                        ||| final(self).conflicts - conflicts_at_entry > max_conflicts
                        ||| final(self).conflicts == u64::MAX
                        ||| final(self).db.clauses@.len() >= FIRST_SENTINEL
                    }
                },
            },
    {
        let ghost f = self.basis@.clauses;
        let ghost n = self.num_vars;
        let ghost floor = self.assumption_floor;
        let ghost hopeless = trace::plain(f) && trace::dead(f + trace::units(assumptions@));
        let ghost a0 = self.assignment;
        let ghost b = self.basis@;
        proof {
            state::trail_bounded(a0, n);
        }
        let conflict: Option<ClauseRef> = bcp::propagate(
            &mut self.db,
            &mut self.watches,
            &mut self.assignment,
            &mut self.propagations,
            Ghost(b),
            Ghost(n),
            Ghost(floor),
        );
        proof {
            assert(a0.trail_lim@.is_prefix_of(self.assignment.trail_lim@));
            pinned_grows(a0, self.assignment, floor, assumptions@, n);
            state::trail_bounded(self.assignment, n);
        }
        let ghost a1 = self.assignment;
        if let Some(conflict_cr) = conflict {
            if self.assignment.current_level() == self.base_level {
                proof {
                    conflict_refutes(
                        b,
                        n,
                        self.db,
                        self.watches,
                        a1,
                        floor,
                        assumptions@,
                        conflict_cr.0 as int,
                    );
                    if floor == 0 {
                        root_conflict(b, n, self.db, self.watches, a1, conflict_cr.0 as int);
                    }
                }
                self.log_proof_empty();
                return Some(SolveResult::Unsat);
            }
            self.conflicts = self.conflicts + 1;
            if self.conflicts - conflicts_at_entry > max_conflicts {
                return Some(SolveResult::Unknown);
            }
            let level: u32 = self.assignment.current_level();
            if level <= self.assumption_floor {
                // Everything on the trail follows from the assumptions.
                proof {
                    conflict_refutes(
                        b,
                        n,
                        self.db,
                        self.watches,
                        a1,
                        floor,
                        assumptions@,
                        conflict_cr.0 as int,
                    );
                    if floor == 0 {
                        root_conflict(b, n, self.db, self.watches, a1, conflict_cr.0 as int);
                    }
                }
                self.log_proof_empty();
                return Some(SolveResult::Unsat);
            }
            if self.conflicts == u64::MAX {
                return Some(SolveResult::Unknown);
            }
            if self.db.clauses.len() >= FIRST_SENTINEL as usize {
                return Some(SolveResult::Unknown);
            }
            self.learn_from(conflict_cr, Ghost(assumptions@));
        } else {
            proof {
                if hopeless {
                    state::fixpoint_is_stable(
                        b,
                        n,
                        self.db,
                        self.watches,
                        a1,
                        floor,
                        assumptions@,
                    );
                }
            }
            if self.conflicts >= self.next_restart_conflicts {
                self.do_restart();
                proof {
                    pinned_undone(a1, self.assignment, floor, floor, assumptions@, n);
                }
            } else {
                match self.activity.pick_branch(&self.assignment) {
                    Some(lit) => {
                        self.decide(lit);
                        proof {
                            assert(a1.trail@.is_prefix_of(self.assignment.trail@));
                            assert(a1.trail_lim@.is_prefix_of(self.assignment.trail_lim@));
                            pinned_grows(a1, self.assignment, floor, assumptions@, n);
                            state::trail_bounded(self.assignment, n);
                        }
                    },
                    None => {
                        let m: Model = self.extract_model();
                        proof {
                            model_ok(
                                b,
                                n,
                                self.db,
                                self.watches,
                                a1,
                                floor,
                                assumptions@,
                                m,
                            );
                        }
                        return Some(SolveResult::Sat(m));
                    },
                }
            }
        }
        None
    }

    /// Search under pinned assumptions until a result is found, a budget is spent
    /// or there is a request to stop. Then there is no result.
    fn search(
        &mut self,
        assumptions: &[Literal],
        max_conflicts: u64,
        limit: &mut Stop,
        stop: &mut Stop,
    ) -> (r: Option<SolveResult>)
        requires
            old(self).resting(),
            !old(self).db.has_empty,
            state::lits_ok(old(self).num_vars, assumptions@),
            pinned(old(self).assignment, old(self).assumption_floor, assumptions@),
            assumed(
                old(self).assignment,
                old(self).assumption_floor,
                assumptions@,
                assumptions@.len() as int,
            ),
            old(self).assignment.trail_lim@.len() == old(self).assumption_floor,
            old(stop).well_formed(),
            old(limit).well_formed(),
        ensures
            final(self).resting(),
            final(stop).well_formed(),
            final(stop).source() == old(stop).source(),
            r is Some ==> stop::stayed_clear(old(stop).readings(), final(stop).readings()),
            r is None ==> stop::got_tripped(old(stop).readings(), final(stop).readings()),
            final(limit).well_formed(),
            final(limit).source() == old(limit).source(),
            old(self).timed(
                final(self),
                r,
                max_conflicts,
                old(limit).readings(),
                final(limit).readings(),
            ),
            old(self).attended(
                final(self),
                Seq::empty(),
                old(stop).readings(),
                final(stop).readings(),
            ),
            old(self).attended(
                final(self),
                Seq::empty(),
                old(limit).readings(),
                final(limit).readings(),
            ),
            final(self).decisions >= old(self).decisions,
            r != Some(SolveResult::Unknown) ==> final(self).conflicts - old(self).conflicts
                <= max_conflicts,
            0 <= final(self).basis@.learned.len() - old(self).basis@.learned.len()
                <= final(self).conflicts - old(self).conflicts,
            old(self).log() is Some ==> log_len(final(self).log()) == log_len(old(self).log())
                + final(self).basis@.learned.len() - old(self).basis@.learned.len() + (if r
                == Some(SolveResult::Unsat) {
                1int
            } else {
                0
            }),
            r == Some(SolveResult::Unsat) && old(self).assumption_floor == 0 ==> trace::dead(
                trace::steps(final(self).basis@),
            ),
            trace::plain(old(self).basis@.clauses) && trace::dead(
                old(self).basis@.clauses + trace::units(assumptions@),
            ) && max_conflicts >= 1 && old(self).conflicts < u64::MAX ==> r == Some(
                SolveResult::Unsat,
            ),
            final(self).num_vars == old(self).num_vars,
            final(self).basis@.clauses == old(self).basis@.clauses,
            old(self).mirrored() && !(r == Some(SolveResult::Unsat)) ==> final(self).mirrored(),
            old(self).mirrored() && r == Some(SolveResult::Unsat) && old(self).assumption_floor == 0
                ==> final(self).sealed(),
            final(self).conflicts >= old(self).conflicts,
            r matches Some(s) ==> result_ok(s, old(self).num_vars, old(self).basis@.clauses, assumptions@),
            log_grown(old(self).log(), final(self).log()),
            r == Some(SolveResult::Unsat) ==> log_closed(final(self).log()),
            final(self).db.clauses@.len() >= old(self).db.clauses@.len(),
    {
        let ghost f = self.basis@.clauses;
        let ghost n = self.num_vars;
        let ghost floor = self.assumption_floor;
        let conflicts_at_entry: u64 = self.conflicts;
        let ghost start = stop.readings();
        let ghost hopeless = trace::plain(f) && trace::dead(f + trace::units(assumptions@));
        let ghost mut first = true;
        let ghost limit_start = limit.readings();
        proof {
            stop::one_reading(start, false);
            stop::one_reading(limit_start, false);
        }
        if self.conflicts == u64::MAX {
            return Some(SolveResult::Unknown);
        }
        loop
            invariant
                stop.well_formed(),
                stop.source() == old(stop).source(),
                start == old(stop).readings(),
                stop::stayed_clear(start, stop.readings()),
                limit.well_formed(),
                limit.source() == old(limit).source(),
                limit_start == old(limit).readings(),
                stop::stayed_clear(limit_start, limit.readings()),
                old(self).decisions <= self.decisions,
                (self.conflicts - conflicts_at_entry) + (self.decisions - old(self).decisions)
                    <= stop.readings().len() - start.len(),
                (self.conflicts - conflicts_at_entry) + (self.decisions - old(self).decisions)
                    <= limit.readings().len() - limit_start.len(),
                hopeless == (trace::plain(f) && trace::dead(f + trace::units(assumptions@))),
                first ==> self.assignment.trail_lim@.len() == floor && self.conflicts
                    == conflicts_at_entry,
                !first ==> !hopeless,
                self.conflicts - conflicts_at_entry <= max_conflicts,
                0 <= self.basis@.learned.len() - old(self).basis@.learned.len() <= self.conflicts
                    - conflicts_at_entry,
                old(self).log() is Some ==> log_len(self.log()) == log_len(old(self).log())
                    + self.basis@.learned.len() - old(self).basis@.learned.len(),
                self.resting(),
                !self.db.has_empty,
                self.basis@.clauses == f,
                self.num_vars == n,
                self.assumption_floor == floor,
                old(self).basis@.clauses == f,
                old(self).assumption_floor == floor,
                old(self).mirrored() ==> self.mirrored(),
                old(self).num_vars == n,
                old(self).conflicts == conflicts_at_entry,
                conflicts_at_entry <= self.conflicts < u64::MAX,
                state::lits_ok(n, assumptions@),
                pinned(self.assignment, floor, assumptions@),
                assumed(self.assignment, floor, assumptions@, assumptions@.len() as int),
                log_grown(old(self).log(), self.log()),
                self.db.clauses@.len() >= old(self).db.clauses@.len(),
            decreases
                    u64::MAX - self.conflicts,
                    (if self.conflicts >= self.next_restart_conflicts { 1int } else { 0 }),
                    n - self.assignment.trail@.len(),
        {
            if let Some(r) = self.turn(assumptions, max_conflicts, conflicts_at_entry) {
                return Some(r);
            }
            proof {
                first = false;
                state::trail_bounded(self.assignment, n);
            }
            match look(limit, stop, Ghost(limit_start), Ghost(start)) {
                Look::GoOn => {},
                Look::OverTime => {
                    return Some(SolveResult::Unknown);
                },
                Look::Requested => {
                    return None;
                },
            }
        }
    }
}

impl CdclSolver {
    /// Make the assumptions true, each at a level of its own unless it is
    /// implied already. Returns false, and leaves the rest out, as soon as one
    /// of them is false.
    fn push_assumptions(&mut self, assumptions: &[Literal]) -> (ok: bool)
        requires
            old(self).well_formed(),
            !old(self).db.has_empty,
            old(self).assumption_floor == 0,
            old(self).assignment.prop_head == old(self).assignment.trail@.len(),
            state::lits_ok(old(self).num_vars, assumptions@),
        ensures
            final(self).resting(),
            !final(self).db.has_empty,
            final(self).num_vars == old(self).num_vars,
            final(self).basis == old(self).basis,
            final(self).conflicts == old(self).conflicts,
            old(self).decisions <= final(self).decisions <= old(self).decisions
                + assumptions@.len(),
            final(self).db == old(self).db,
            final(self).proof_log == old(self).proof_log,
            final(self).learned_outbox == old(self).learned_outbox,
            ok ==> pinned(final(self).assignment, final(self).assumption_floor, assumptions@),
            final(self).assumption_floor == final(self).assignment.trail_lim@.len(),
            ok ==> assumed(
                final(self).assignment,
                final(self).assumption_floor,
                assumptions@,
                assumptions@.len() as int,
            ),
            !ok ==> assumptions@.len() > 0,
            assumptions@.len() == 0 ==> final(self).assumption_floor == 0,
            !ok ==> logic::unsatisfiable(old(self).basis@.clauses, assumptions@),
    {
        let ghost f = self.basis@;
        let ghost n = self.num_vars;
        let mut i: usize = 0;
        while i < assumptions.len()
            invariant
                i <= assumptions@.len(),
                self.resting(),
                !self.db.has_empty,
                self.num_vars == n,
                self.basis@ == f,
                self.num_vars == old(self).num_vars,
                self.basis == old(self).basis,
                self.conflicts == old(self).conflicts,
                old(self).decisions <= self.decisions <= old(self).decisions + i,
                self.db == old(self).db,
                self.proof_log == old(self).proof_log,
                self.learned_outbox == old(self).learned_outbox,
                state::lits_ok(n, assumptions@),
                self.assumption_floor == self.assignment.trail_lim@.len(),
                i == 0 ==> self.assumption_floor == 0,
                pinned(self.assignment, self.assumption_floor, assumptions@),
                assumed(self.assignment, self.assumption_floor, assumptions@, i as int),
                forall|k: int|
                    self.assignment.prop_head <= k < self.assignment.trail@.len()
                        ==> self.assignment.lvl(#[trigger] self.assignment.trail@[k]) >= 1,
            decreases assumptions@.len() - i,
        {
            let lit: Literal = assumptions[i];
            assert(1 <= assumptions@[i as int].var() <= n);
            match self.assignment.literal_value(lit) {
                Value::True => {
                    proof {
                        state::true_on_trail(self.assignment, lit);
                    }
                },
                Value::False => {
                    proof {
                        assert forall|val: logic::Valuation| #[trigger]
                            logic::formula_holds(val, f.clauses) implies !logic::all_hold(
                            val,
                            assumptions@,
                        ) by {
                            if logic::all_hold(val, assumptions@) {
                                assert(logic::lit_holds(val, assumptions@[i as int]));
                                refuted(
                                    f,
                                    n,
                                    self.db,
                                    self.watches,
                                    self.assignment,
                                    self.assumption_floor,
                                    assumptions@,
                                    val,
                                    lit,
                                );
                            }
                        }
                    }
                    return false;
                },
                Value::Undef => {
                    let ghost a0 = self.assignment;
                    let ghost floor0 = self.assumption_floor;
                    proof {
                        state::trail_bounded(a0, n);
                        levels_bounded(a0);
                    }
                    self.assignment.new_decision_level();
                    let ghost mid = self.assignment;
                    let level: u32 = self.assignment.current_level();
                    self.assignment.assign(lit, level, ClauseRef::DECISION);
                    self.assumption_floor = level;
                    self.decisions = self.decisions.saturating_add(1);
                    proof {
                        state::decide_keeps(
                            f,
                            n,
                            self.db,
                            self.watches,
                            a0,
                            mid,
                            self.assignment,
                            lit,
                            floor0,
                            level,
                        );
                        let b = self.assignment;
                        assert forall|d: int| 0 <= d < level implies b.trail_lim@[d]
                            < b.trail@.len() && assumptions@.contains(
                            b.trail@[#[trigger] b.trail_lim@[d] as int],
                        ) by {
                            if d < floor0 {
                                assert(b.trail_lim@[d] == a0.trail_lim@[d]);
                                assert(b.trail@[b.trail_lim@[d] as int]
                                    == a0.trail@[a0.trail_lim@[d] as int]);
                            } else {
                                assert(b.trail@[b.trail_lim@[d] as int] == lit);
                                assert(assumptions@[i as int] == lit);
                            }
                        }
                        assert forall|k: int| 0 <= k < i + 1 implies {
                            &&& b.val(#[trigger] assumptions@[k]) == Value::True
                            &&& b.lvl(assumptions@[k]) <= level
                        } by {
                            assert(1 <= assumptions@[k].var() <= n);
                            if k < i {
                                state::assigned_frame(
                                    mid,
                                    b,
                                    lit,
                                    ClauseRef::DECISION,
                                    assumptions@[k],
                                );
                            }
                        }
                        assert forall|k: int|
                            b.prop_head <= k < b.trail@.len() implies b.lvl(
                            #[trigger] b.trail@[k],
                        ) >= 1 by {
                            if k < a0.trail@.len() {
                                assert(b.trail@[k] == a0.trail@[k]);
                                assert(a0.trail@[k].var() < a0.cap());
                                state::assigned_frame(
                                    mid,
                                    b,
                                    lit,
                                    ClauseRef::DECISION,
                                    a0.trail@[k],
                                );
                            }
                        }
                    }
                },
            }
            i += 1;
        }
        true
    }

    fn solve_inner(
        &mut self,
        assumptions: &[Literal],
        max_conflicts: u64,
        limit: &mut Stop,
        stop: &mut Stop,
    ) -> (r: Option<SolveResult>)
        requires
            old(self).well_formed(),
            state::lits_ok(old(self).num_vars, assumptions@),
            old(stop).well_formed(),
            old(limit).well_formed(),
        ensures
            final(stop).well_formed(),
            final(stop).source() == old(stop).source(),
            r is Some ==> stop::stayed_clear(old(stop).readings(), final(stop).readings()),
            r is None ==> stop::got_tripped(old(stop).readings(), final(stop).readings()),
            final(limit).well_formed(),
            final(limit).source() == old(limit).source(),
            old(self).timed(
                final(self),
                r,
                max_conflicts,
                old(limit).readings(),
                final(limit).readings(),
            ),
            old(self).attended(
                final(self),
                assumptions@,
                old(stop).readings(),
                final(stop).readings(),
            ),
            old(self).attended(
                final(self),
                assumptions@,
                old(limit).readings(),
                final(limit).readings(),
            ),
            old(self).accounted(final(self), r, assumptions@, max_conflicts),
            final(self).well_formed(),
            final(self).num_vars == old(self).num_vars,
            final(self).basis@.clauses == old(self).basis@.clauses,
            old(self).mirrored() && !(r == Some(SolveResult::Unsat)) ==> final(self).mirrored(),
            old(self).mirrored() && r == Some(SolveResult::Unsat) && assumptions@.len() == 0 ==> final(self).sealed(),
            final(self).conflicts >= old(self).conflicts,
            r matches Some(s) ==> result_ok(s, old(self).num_vars, old(self).basis@.clauses, assumptions@),
            log_grown(old(self).log(), final(self).log()),
            r == Some(SolveResult::Unsat) ==> log_closed(final(self).log()),
            final(self).db.clauses@.len() >= old(self).db.clauses@.len(),
    {
        let ghost f = self.basis@;
        let ghost n = self.num_vars;
        proof {
            stop::one_reading(stop.readings(), false);
            stop::one_reading(limit.readings(), false);
            if trace::dead(f.clauses) {
                trace::dead_with_more(f.clauses, trace::units(assumptions@));
            }
        }
        if self.db.has_empty_clause() {
            proof {
                contradictory(f.clauses, assumptions@);
            }
            self.log_proof_empty();
            return Some(SolveResult::Unsat);
        }
        self.base_level = self.assignment.current_level();
        proof {
            state::floor_free(
                f,
                n,
                self.db,
                self.watches,
                self.assignment,
                self.assumption_floor,
                0,
            );
        }
        self.assumption_floor = 0;
        // Settle all level-0 propagation before pushing assumptions.
        let conflict: Option<ClauseRef> = bcp::propagate(
            &mut self.db,
            &mut self.watches,
            &mut self.assignment,
            &mut self.propagations,
            Ghost(f),
            Ghost(n),
            Ghost(0u32),
        );
        if let Some(cr) = conflict {
            let ghost db0 = self.db;
            self.db.set_empty_clause();
            proof {
                let c = db0.lits(cr.0 as int);
                assert(db0.live(cr.0 as int));
                assert(state::lits_ok(n, c));
                false_unit(f, n, db0, self.watches, self.assignment, c);
                state::flag_keeps(f, n, db0, self.db, self.watches, self.assignment, 0);
                contradictory(f.clauses, assumptions@);
            }
            self.log_proof_empty();
            return Some(SolveResult::Unsat);
        }
        proof {
            if trace::plain(f.clauses) && trace::dead(f.clauses) {
                let none = Seq::<Literal>::empty();
                state::fixpoint_is_stable(
                    f,
                    n,
                    self.db,
                    self.watches,
                    self.assignment,
                    0,
                    none,
                );
                assert(f.clauses + trace::units(none) =~= f.clauses);
            }
        }
        let ok: bool = self.push_assumptions(assumptions);
        if !ok {
            self.undo_to(0);
            self.log_proof_empty();
            return Some(SolveResult::Unsat);
        }
        let r: Option<SolveResult> = self.search(assumptions, max_conflicts, limit, stop);
        // Leave the solver clean for the next call.
        let base: u32 = self.base_level;
        self.undo_to(base);
        r
    }

    /// Solve under optional additional `assumptions`. Returns after at most
    /// `max_conflicts` conflicts (use `u64::MAX` for unlimited).
    ///
    /// The assumption literals are pinned at the bottom of the decision stack:
    /// backjumps and restarts never go below them, so assumptions stay
    /// assigned for the whole call and are never re-decided with a flipped
    /// polarity. On exit the solver is left back at level 0, so a fresh
    /// `solve` with a different assumption set starts clean.
    ///
    /// A `Sat` model satisfies every clause and every assumption; on `Unsat`
    /// no valuation does. The result is `Unknown` only if the budget is spent,
    /// or if the conflict counter or the clause references run out.
    pub fn solve(&mut self, assumptions: &[Literal], max_conflicts: u64) -> (r: SolveResult)
        requires
            old(self).well_formed(),
            state::lits_ok(old(self).vars(), assumptions@),
        ensures
            old(self).accounted(final(self), Some(r), assumptions@, max_conflicts),
            final(self).well_formed(),
            final(self).vars() == old(self).vars(),
            final(self).formula() == old(self).formula(),
            final(self).conflict_count() >= old(self).conflict_count(),
            result_ok(r, old(self).vars(), old(self).formula(), assumptions@),
            r is Unknown ==> {
                ||| final(self).conflict_count() - old(self).conflict_count() > max_conflicts
                ||| final(self).conflict_count() == u64::MAX
                ||| final(self).stored() >= FIRST_SENTINEL
            },
            log_grown(old(self).log(), final(self).log()),
            r is Unsat ==> log_closed(final(self).log()),
            old(self).mirrored() && !(r is Unsat) ==> final(self).mirrored(),
            old(self).mirrored() && r is Unsat && assumptions@.len() == 0
                ==> final(self).sealed(),
            final(self).stored() >= old(self).stored(),
    {
        let r = self.concluded(assumptions, max_conflicts, None);
        proof {
            let limit = choose|limit: Stop|
                {
                    &&& limit.well_formed()
                    &&& limit.source() == stop::until(None)
                    &&& old(self).timed(
                        self,
                        Some(r),
                        max_conflicts,
                        Seq::empty(),
                        #[trigger] limit.readings(),
                    )
                };
            limit.readings_are();
            if stop::got_tripped(Seq::empty(), limit.readings()) {
                assert(limit.readings()[limit.readings().len() - 1]);
            }
        }
        r
    }

    /// Solve under optional additional `assumptions`, bounded by both a
    /// conflict budget and (optionally) a wall-clock deadline. Returns
    /// `SolveResult::Unknown` as soon as the deadline passes (the benchmark
    /// runner uses this to honor each problem's `timeout_secs`).
    pub fn solve_with_deadline(
        &mut self,
        assumptions: &[Literal],
        max_conflicts: u64,
        deadline: Option<Instant>,
    ) -> (r: SolveResult)
        requires
            old(self).well_formed(),
            state::lits_ok(old(self).vars(), assumptions@),
        ensures
            old(self).accounted(final(self), Some(r), assumptions@, max_conflicts),
            final(self).well_formed(),
            final(self).vars() == old(self).vars(),
            final(self).formula() == old(self).formula(),
            final(self).conflict_count() >= old(self).conflict_count(),
            result_ok(r, old(self).vars(), old(self).formula(), assumptions@),
            exists|limit: Stop|
                {
                    &&& limit.well_formed()
                    &&& limit.source() == stop::until(deadline)
                    &&& old(self).timed(
                        final(self),
                        Some(r),
                        max_conflicts,
                        Seq::empty(),
                        #[trigger] limit.readings(),
                    )
                    &&& old(self).attended(
                        final(self),
                        assumptions@,
                        Seq::empty(),
                        limit.readings(),
                    )
                },
            log_grown(old(self).log(), final(self).log()),
            r is Unsat ==> log_closed(final(self).log()),
            old(self).mirrored() && !(r is Unsat) ==> final(self).mirrored(),
            old(self).mirrored() && r is Unsat && assumptions@.len() == 0
                ==> final(self).sealed(),
            final(self).stored() >= old(self).stored(),
    {
        self.concluded(assumptions, max_conflicts, deadline)
    }

    /// Solve under a time limit, unless there is a request to stop. Both watches
    /// are read after every conflict and decision. There is no result if and
    /// only if a reading of `stop` was a request; the result is `Unknown` as
    /// soon as a reading of `limit` says that the time is over.
    pub fn solve_until(
        &mut self,
        assumptions: &[Literal],
        max_conflicts: u64,
        limit: &mut Stop,
        stop: &mut Stop,
    ) -> (r: Option<SolveResult>)
        requires
            old(self).well_formed(),
            state::lits_ok(old(self).vars(), assumptions@),
            old(stop).well_formed(),
            old(limit).well_formed(),
        ensures
            final(stop).well_formed(),
            final(stop).source() == old(stop).source(),
            r is Some ==> stop::stayed_clear(old(stop).readings(), final(stop).readings()),
            r is None ==> stop::got_tripped(old(stop).readings(), final(stop).readings()),
            final(limit).well_formed(),
            final(limit).source() == old(limit).source(),
            old(self).timed(
                final(self),
                r,
                max_conflicts,
                old(limit).readings(),
                final(limit).readings(),
            ),
            old(self).attended(
                final(self),
                assumptions@,
                old(stop).readings(),
                final(stop).readings(),
            ),
            old(self).attended(
                final(self),
                assumptions@,
                old(limit).readings(),
                final(limit).readings(),
            ),
            old(self).accounted(final(self), r, assumptions@, max_conflicts),
            final(self).well_formed(),
            final(self).vars() == old(self).vars(),
            final(self).formula() == old(self).formula(),
            final(self).conflict_count() >= old(self).conflict_count(),
            r matches Some(s) ==> result_ok(s, old(self).vars(), old(self).formula(), assumptions@),
            log_grown(old(self).log(), final(self).log()),
            r == Some(SolveResult::Unsat) ==> log_closed(final(self).log()),
            old(self).mirrored() && !(r == Some(SolveResult::Unsat)) ==> final(self).mirrored(),
            old(self).mirrored() && r == Some(SolveResult::Unsat) && assumptions@.len() == 0
                ==> final(self).sealed(),
            final(self).stored() >= old(self).stored(),
    {
        self.solve_inner(assumptions, max_conflicts, limit, stop)
    }

    /// Solve without a stop token, so that there is a result.
    fn concluded(
        &mut self,
        assumptions: &[Literal],
        max_conflicts: u64,
        deadline: Option<Instant>,
    ) -> (r: SolveResult)
        requires
            old(self).well_formed(),
            state::lits_ok(old(self).vars(), assumptions@),
        ensures
            old(self).accounted(final(self), Some(r), assumptions@, max_conflicts),
            final(self).well_formed(),
            final(self).vars() == old(self).vars(),
            final(self).formula() == old(self).formula(),
            final(self).conflict_count() >= old(self).conflict_count(),
            result_ok(r, old(self).vars(), old(self).formula(), assumptions@),
            exists|limit: Stop|
                {
                    &&& limit.well_formed()
                    &&& limit.source() == stop::until(deadline)
                    &&& old(self).timed(
                        final(self),
                        Some(r),
                        max_conflicts,
                        Seq::empty(),
                        #[trigger] limit.readings(),
                    )
                    &&& old(self).attended(
                        final(self),
                        assumptions@,
                        Seq::empty(),
                        limit.readings(),
                    )
                },
            log_grown(old(self).log(), final(self).log()),
            r is Unsat ==> log_closed(final(self).log()),
            old(self).mirrored() && !(r is Unsat) ==> final(self).mirrored(),
            old(self).mirrored() && r is Unsat && assumptions@.len() == 0
                ==> final(self).sealed(),
            final(self).stored() >= old(self).stored(),
    {
        let mut stop = Stop::never();
        let mut limit = Stop::at(deadline);
        assert(limit.readings() =~= Seq::empty());
        match self.solve_inner(assumptions, max_conflicts, &mut limit, &mut stop) {
            Some(r) => r,
            None => {
                proof {
                    stop.readings_are();
                    assert(stop.readings()[stop.readings().len() - 1]);
                }
                SolveResult::Unknown
            },
        }
    }
}

/// Without a conflict, a turn brings the search nearer to a conclusion: a
/// restart that was due is done, or the trail is longer.
spec fn nearer(a: CdclSolver, b: CdclSolver) -> bool {
    let due = a.conflicts >= a.next_restart_conflicts;
    let still = b.conflicts >= b.next_restart_conflicts;
    due && !still || due == still && a.assignment.trail@.len() < b.assignment.trail@.len()
        <= b.num_vars
}

/// What a look at the watches has shown.
enum Look {
    GoOn,
    OverTime,
    Requested,
}

/// Read the time limit and, unless it is over, the request to stop.
fn look(
    limit: &mut Stop,
    stop: &mut Stop,
    Ghost(limit_start): Ghost<Seq<bool>>,
    Ghost(stop_start): Ghost<Seq<bool>>,
) -> (r: Look)
    requires
        old(limit).well_formed(),
        old(stop).well_formed(),
        stop::stayed_clear(limit_start, old(limit).readings()),
        stop::stayed_clear(stop_start, old(stop).readings()),
    ensures
        final(limit).well_formed(),
        final(limit).source() == old(limit).source(),
        final(stop).well_formed(),
        final(stop).source() == old(stop).source(),
        final(limit).readings().len() == old(limit).readings().len() + 1,
        match r {
            Look::GoOn => {
                &&& stop::stayed_clear(limit_start, final(limit).readings())
                &&& stop::stayed_clear(stop_start, final(stop).readings())
                &&& final(stop).readings().len() == old(stop).readings().len() + 1
            },
            Look::OverTime => {
                &&& stop::got_tripped(limit_start, final(limit).readings())
                &&& final(stop).readings() == old(stop).readings()
            },
            Look::Requested => {
                &&& stop::stayed_clear(limit_start, final(limit).readings())
                &&& stop::got_tripped(stop_start, final(stop).readings())
                &&& final(stop).readings().len() == old(stop).readings().len() + 1
            },
        },
{
    let ghost before_limit = limit.readings();
    let over: bool = limit.read();
    proof {
        stop::one_reading(before_limit, over);
        stop::clear_then_clear(limit_start, before_limit, limit.readings());
    }
    if over {
        return Look::OverTime;
    }
    let ghost before_stop = stop.readings();
    let requested: bool = stop.read();
    proof {
        stop::one_reading(before_stop, requested);
        stop::clear_then_clear(stop_start, before_stop, stop.readings());
    }
    if requested {
        Look::Requested
    } else {
        Look::GoOn
    }
}

/// A formula from which the empty clause follows has no model at all.
proof fn contradictory(f: state::Formula, assumptions: Seq<Literal>)
    requires
        logic::entails(f, Seq::empty()),
    ensures
        logic::unsatisfiable(f, assumptions),
{
    assert forall|val: logic::Valuation| #[trigger] logic::formula_holds(val, f) implies
        !logic::all_hold(val, assumptions) by {
        assert(logic::clause_holds(val, Seq::<Literal>::empty()));
    }
}

/// The learned clause after the backjump: its first literal is open again
/// and the others are still false.
proof fn after_backjump(
    n: u32,
    a: Assignment,
    b: Assignment,
    learnt: Seq<Literal>,
    backjump: u32,
    target: u32,
)
    requires
        a.well_formed(),
        a.cap() == n + 1,
        state::undone(a, b, target),
        backjump <= target < a.trail_lim@.len(),
        learnt.len() >= 1,
        state::lits_ok(n, learnt),
        a.val(learnt[0]) == Value::False,
        a.lvl(learnt[0]) == a.trail_lim@.len(),
        forall|k: int|
            1 <= k < learnt.len() ==> {
                &&& a.val(#[trigger] learnt[k]) == Value::False
                &&& 1 <= a.lvl(learnt[k]) <= backjump
            },
    ensures
        b.val(learnt[0]) == Value::Undef,
        b.trail_lim@.len() == target,
        forall|k: int|
            1 <= k < learnt.len() ==> {
                &&& b.val(#[trigger] learnt[k]) == Value::False
                &&& b.lvl(learnt[k]) == a.lvl(learnt[k])
            },
{
    assert(1 <= learnt[0].var() <= n);
    state::undone_frame(a, b, target, learnt[0]);
    assert forall|k: int| 1 <= k < learnt.len() implies {
        &&& b.val(#[trigger] learnt[k]) == Value::False
        &&& b.lvl(learnt[k]) == a.lvl(learnt[k])
    } by {
        assert(1 <= learnt[k].var() <= n);
        state::undone_frame(a, b, target, learnt[k]);
    }
}

/// The values of a complete assignment are a model of the formula and of the
/// assumptions.
proof fn model_ok(
    f: Basis,
    n: u32,
    db: ClauseDb,
    w: WatchList,
    a: Assignment,
    floor: u32,
    assumptions: Seq<Literal>,
    m: Model,
)
    requires
        state::resting_ok(f, n, db, w, a, floor),
        a.prop_head == a.trail@.len(),
        !db.has_empty,
        forall|v: int| 1 <= v < a.cap() ==> #[trigger] a.value@[v] != Value::Undef,
        state::lits_ok(n, assumptions),
        assumed(a, floor, assumptions, assumptions.len() as int),
        m.values().len() == n + 1,
        forall|v: int|
            1 <= v <= n ==> #[trigger] m.values()[v] == (a.value@[v] == Value::True),
    ensures
        result_ok(SolveResult::Sat(m), n, f.clauses, assumptions),
{
    let val = m.valuation();
    assert forall|v: u32| 1 <= v <= n implies #[trigger] val(v) == (a.value@[v as int]
        == Value::True) by {
        assert(m.values()[v as int] == (a.value@[v as int] == Value::True));
    }
    state::complete_satisfies(f, n, db, w, a, floor, val);
    assert forall|i: int| 0 <= i < assumptions.len() implies logic::lit_holds(
        val,
        #[trigger] assumptions[i],
    ) by {
        let x = assumptions[i];
        assert(1 <= x.var() <= n);
        assert(a.val(x) == Value::True);
        assert(val(x.var()) == (a.value@[x.var() as int] == Value::True));
    }
}

/// There are no more levels than trail entries.
proof fn levels_bounded(a: Assignment)
    requires
        a.well_formed(),
        state::levels_strict(a),
    ensures
        a.trail_lim@.len() <= a.trail@.len(),
{
    if a.trail_lim@.len() > 0 {
        level_start_bound(a, a.trail_lim@.len() - 1);
    }
}

proof fn level_start_bound(a: Assignment, d: int)
    requires
        state::levels_strict(a),
        0 <= d < a.trail_lim@.len(),
    ensures
        a.trail_lim@[d] >= d,
    decreases d,
{
    if d > 0 {
        level_start_bound(a, d - 1);
        assert(a.trail_lim@[d - 1] < a.trail_lim@[d]);
    }
}

/// Storing a learned clause and asserting its first literal keeps the state.
proof fn learned_settled(
    f: Basis,
    n: u32,
    db: ClauseDb,
    db2: ClauseDb,
    w: WatchList,
    w2: WatchList,
    a: Assignment,
    b: Assignment,
    learnt: Seq<Literal>,
    cr: ClauseRef,
    floor: u32,
)
    requires
        state::resting_ok(f, n, db, w, a, floor),
        state::core_ok(f, n, db2, w2, a),
        forall|c: Seq<Literal>|
            #[trigger] state::clause_kept(db, a, c) ==> state::clause_kept(db2, a, c),
        learnt.len() >= 2,
        state::lits_ok(n, learnt),
        state::db_extended(db, db2, learnt, true),
        cr.0 == db.clauses@.len(),
        db.clauses@.len() < FIRST_SENTINEL,
        a.prop_head == a.trail@.len(),
        a.val(learnt[0]) == Value::Undef,
        forall|k: int|
            1 <= k < learnt.len() ==> a.val(#[trigger] learnt[k]) == Value::False,
        a.lvl(learnt[1]) >= 1,
        a.trail_lim@.len() <= state::reach(a.lvl(learnt[1]), floor),
        state::assigned(a, b, learnt[0], cr.0),
        b.well_formed(),
    ensures
        state::search_ok(f, n, db2, w2, b),
        state::settled(db2, b, floor, a.prop_head as int),
{
    let last = db.clauses@.len() as int;
    assert(1 <= learnt[0].var() <= n && 1 <= learnt[1].var() <= n);
    assert(db2.live(last) && db2.lits(last) == learnt);
    // Up to position 0 everything is settled, whatever the clauses are.
    assert forall|r: int| #[trigger] db2.live(r) implies state::clause_settled(
        db2,
        a,
        floor,
        0,
        r,
    ) by {
        let w0 = db2.lits(r)[0];
        let w1 = db2.lits(r)[1];
        assert(state::lits_ok(n, db2.lits(r)));
        assert(1 <= w0.var() <= n && 1 <= w1.var() <= n);
        if a.val(w0) == Value::False {
            state::false_on_trail(a, w0);
        }
        if a.val(w1) == Value::False {
            state::false_on_trail(a, w1);
        }
    }
    assert forall|j: int| 0 <= j < f.clauses.len() implies state::clause_kept(db2, a, #[trigger] f.clauses[j]) by {
        assert(state::clause_kept(db, a, f.clauses[j]));
    }
    state::assign_keeps(f, n, db2, w2, a, b, learnt[0], cr.0, floor, 0);
    state::assign_keeps_settled(n, db, a, b, learnt[0], cr.0, floor);
    assert forall|r: int| #[trigger] db2.live(r) implies state::clause_settled(
        db2,
        b,
        floor,
        a.prop_head as int,
        r,
    ) by {
        if r < last {
            assert(db2.clauses@[r] == db.clauses@[r]);
            assert(db.live(r));
            assert(state::clause_settled(db, b, floor, a.prop_head as int, r));
        } else {
            state::assigned_frame(a, b, learnt[0], cr.0, learnt[1]);
            assert(b.val(learnt[0]) == Value::True);
            assert(b.lvl(learnt[0]) == a.trail_lim@.len());
        }
    }
}

/// Deleting learned clauses that are nobody's antecedent keeps the state.
proof fn reduced_ok(
    f: Basis,
    n: u32,
    db: ClauseDb,
    after: ClauseDb,
    w: WatchList,
    w2: WatchList,
    a: Assignment,
    floor: u32,
)
    requires
        state::resting_ok(f, n, db, w, a, floor),
        after.well_formed(),
        after.has_empty == db.has_empty,
        after.clauses@.len() == db.clauses@.len(),
        forall|r: int|
            0 <= r < db.clauses@.len() ==> {
                let before = db.clauses@[r];
                let now = #[trigger] after.clauses@[r];
                ||| now == before
                ||| {
                    &&& before is Some
                    &&& before->0.learnt
                    &&& now is None
                    &&& a.reason@[before->0.lits@[0].var() as int] != r
                }
            },
        w2.size() == w.size(),
        forall|l: Literal, r: ClauseRef|
            l.0 < w2.size() ==> #[trigger] watched::occurrences(w2.under(l), r)
                == after.watch_count(l, r),
    ensures
        state::resting_ok(f, n, after, w2, a, floor),
{
    assert forall|r: int| #[trigger] after.live(r) implies {
        &&& db.live(r)
        &&& after.clauses@[r] == db.clauses@[r]
    } by {}
    assert forall|r: int| #[trigger] after.live(r) implies {
        &&& after.lits(r).len() >= 2
        &&& state::lits_ok(n, after.lits(r))
        &&& trace::known(f, after.lits(r))
        &&& state::clause_settled(after, a, floor, a.prop_head as int, r)
    } by {
        assert(db.live(r));
        assert(state::clause_settled(db, a, floor, a.prop_head as int, r));
    }
    assert forall|i: int| 0 <= i < a.trail@.len() implies #[trigger] state::reason_ok(
        after,
        a,
        i,
    ) by {
        assert(state::reason_ok(db, a, i));
        let q = a.reason@[a.trail@[i].var() as int];
        if q < FIRST_SENTINEL {
            assert(after.clauses@[q as int] == db.clauses@[q as int]);
        }
    }
    assert forall|j: int| 0 <= j < f.clauses.len() implies state::clause_kept(after, a, #[trigger] f.clauses[j]) by {
        assert(state::clause_kept(db, a, f.clauses[j]));
        if exists|r: int| #[trigger] state::stored_as(db, r, f.clauses[j]) {
            let r = choose|r: int| #[trigger] state::stored_as(db, r, f.clauses[j]);
            assert(after.clauses@[r] == db.clauses@[r]);
            assert(state::stored_as(after, r, f.clauses[j]));
        }
    }
}

/// The staged clauses and the proof log stay sound for a longer formula.
proof fn aux_grows(before: CdclSolver, after: CdclSolver, lits: Seq<Literal>)
    requires
        before.aux_ok(),
        after.same_aux(&before),
        after.basis@ == trace::with_clause(before.basis@, lits),
    ensures
        after.aux_ok(),
{
    let f0 = before.basis@.clauses;
    assert forall|i: int| 0 <= i < after.learned_outbox@.len() implies logic::entails(
        after.basis@.clauses,
        (#[trigger] after.learned_outbox@[i]).0@,
    ) by {
        logic::entails_push(f0, lits, after.learned_outbox@[i].0@);
    }
    if after.proof_log is Some {
        log_ok_push(f0, after.proof_log->0@, lits);
    }
    trace::learned_ok_given(before.basis@, before.num_vars, lits);
}

/// A formula with a clause whose only literal is false at level 0 is
/// contradictory.
proof fn false_unit(
    f: Basis,
    n: u32,
    db: ClauseDb,
    w: WatchList,
    a: Assignment,
    lits: Seq<Literal>,
)
    requires
        state::core_ok(f, n, db, w, a),
        trace::known(f, lits),
        state::lits_ok(n, lits),
        a.trail_lim@.len() == 0,
        forall|k: int| 0 <= k < lits.len() ==> a.val(#[trigger] lits[k]) == Value::False,
    ensures
        trace::broken(f),
{
    assert forall|val: logic::Valuation| #[trigger] logic::formula_holds(val, f.clauses) implies
        logic::clause_holds(val, Seq::<Literal>::empty()) by {
        let k = choose|k: int| 0 <= k < lits.len() && logic::lit_holds(val, #[trigger] lits[k]);
        let x = lits[k];
        assert(1 <= x.var() <= n);
        state::false_on_trail(a, x);
        crate::akx::literal::negation_laws(x);
        known_vars(n, db);
        state::trail_holds(f, db, a, 0, val, a.at(x));
        assert(false);
    }
    assert forall|k: int| 0 <= k < lits.len() implies a.val(#[trigger] lits[k]) == Value::False
        && a.lvl(lits[k]) == 0 by {
        assert(1 <= lits[k].var() <= n);
        state::false_on_trail(a, lits[k]);
        at_root(a, a.at(lits[k]));
    }
    state::false_is_broken(f, n, db, a, lits);
}

/// With no level open, everything on the trail is of level 0.
proof fn at_root(a: Assignment, i: int)
    requires
        a.well_formed(),
        a.trail_lim@.len() == 0,
        0 <= i < a.trail@.len(),
    ensures
        a.lvl(a.trail@[i]) == 0,
{
    assert(a.trail@[i].var() < a.cap());
    assert(a.in_segment(i, a.lvl(a.trail@[i]) as int));
}

/// A falsified clause at level 0 is refuted by unit propagation.
proof fn root_conflict(f: Basis, n: u32, db: ClauseDb, w: WatchList, a: Assignment, r: int)
    requires
        state::core_ok(f, n, db, w, a),
        a.trail_lim@.len() == 0,
        bcp::falsified(db, a, r),
    ensures
        trace::dead(trace::steps(f)),
{
    assert(db.live(r));
    assert(state::lits_ok(n, db.lits(r)));
    false_unit(f, n, db, w, a, db.lits(r));
}

/// Logging a learned clause keeps the log a mirror.
proof fn mirrors_push(
    log: Seq<Vec<i32>>,
    longer: Seq<Vec<i32>>,
    learned: Seq<Seq<Literal>>,
    c: Seq<Literal>,
)
    requires
        mirrors(log, learned),
        longer.len() == log.len() + 1,
        log.is_prefix_of(longer),
        dimacs_of(longer.last()@, c),
    ensures
        mirrors(longer, learned.push(c)),
{
    assert forall|i: int| 0 <= i < longer.len() implies dimacs_of(
        (#[trigger] longer[i])@,
        learned.push(c)[i],
    ) by {
        if i < log.len() {
            assert(longer.take(log.len() as int)[i] == log[i]);
        }
    }
}

proof fn known_vars(n: u32, db: ClauseDb)
    requires
        state::db_ok(n, db),
    ensures
        forall|s: int, j: int|
            db.live(s) && 0 <= j < db.lits(s).len() ==> (#[trigger] db.lits(s)[j]).var() < n + 1,
{
    assert forall|s: int, j: int| db.live(s) && 0 <= j < db.lits(s).len() implies (
    #[trigger] db.lits(s)[j]).var() < n + 1 by {
        assert(state::lits_ok(n, db.lits(s)));
    }
}

} // verus!
