//! [`Solver`] and supporting types: the main entry point for the programmatic API.

use vstd::prelude::*;

use crate::api::context::Context;
#[allow(unused_imports)]
use crate::api::emit;
use crate::api::emit::{detect_logic, emit_smtlib};
use crate::api::expr::Expr;
#[allow(unused_imports)]
use crate::api::model;
use crate::api::model::Model;
use crate::text;

verus! {

/// Configuration for a [`Solver`] run.
#[derive(Clone, Copy, Debug)]
pub struct SolverConfig {
    /// Number of independent solver threads to race. When > 1, each thread
    /// runs a complete solve; the first conclusive result (SAT or UNSAT) wins.
    pub num_workers: usize,
    /// CDCL conflict budget per worker (0 = unlimited).
    pub max_conflicts: u64,
    /// Per-call wall-clock limit in nanoseconds. `None` = no limit.
    pub timeout: Option<u64>,
}

impl Default for SolverConfig {
    fn default() -> (c: Self)
        ensures
            c == (SolverConfig { num_workers: 1, max_conflicts: 0, timeout: None }),
    {
        SolverConfig { num_workers: 1, max_conflicts: 0, timeout: None }
    }
}

/// The conflict budget that a configured number stands for.
pub open spec fn budget_of(max_conflicts: u64) -> u64 {
    if max_conflicts == 0 {
        u64::MAX
    } else {
        max_conflicts
    }
}

pub fn effective_conflict_budget(cfg: &SolverConfig) -> (b: u64)
    ensures
        b == budget_of(cfg.max_conflicts),
{
    if cfg.max_conflicts == 0 {
        u64::MAX
    } else {
        cfg.max_conflicts
    }
}

/// What the theory solver says of a script.
#[derive(Clone, Copy, Debug, PartialEq, Eq, Structural)]
pub enum SmtStatus {
    Sat,
    Unsat,
    Unknown,
}

/// The answer of the theory solver, with the values of the model as text.
#[derive(Debug)]
pub struct SmtAnswer {
    pub status: SmtStatus,
    pub values: Vec<(String, String)>,
}

/// The outcome of checking a list of assertions.
#[derive(Debug)]
pub enum SatResult {
    /// The formula is satisfiable; the model assigns every declared constant.
    Sat(Model),
    /// The formula is unsatisfiable.
    Unsat,
    /// The solver gave up (timeout, conflict budget exhausted, or unsupported logic).
    Unknown(String),
}

impl SatResult {
    pub fn is_sat(&self) -> (b: bool)
        ensures
            b == (*self is Sat),
    {
        matches!(self, SatResult::Sat(_))
    }

    pub fn is_unsat(&self) -> (b: bool)
        ensures
            b == (*self is Unsat),
    {
        matches!(self, SatResult::Unsat)
    }

    pub fn model(&self) -> (m: Option<&Model>)
        ensures
            match *self {
                SatResult::Sat(inner) => m is Some && *m->0 == inner,
                _ => m is None,
            },
    {
        if let SatResult::Sat(m) = self {
            Some(m)
        } else {
            None
        }
    }
}

/// A result gives up for a reason.
pub open spec fn gives_up(r: SatResult, reason: text::Text) -> bool {
    match r {
        SatResult::Unknown(s) => s@ == reason,
        _ => false,
    }
}

/// A result says what an answer says.
pub open spec fn converted(a: SmtAnswer, r: SatResult) -> bool {
    match a.status {
        SmtStatus::Sat => match r {
            SatResult::Sat(m) => m@ == model::model_of(model::pair_views(a.values@)),
            _ => false,
        },
        SmtStatus::Unsat => r is Unsat,
        SmtStatus::Unknown => gives_up(r, "solver returned unknown"@),
    }
}

/// The values of an answer can be represented.
pub open spec fn answer_fits(a: SmtAnswer) -> bool {
    forall|i: int| 0 <= i < a.values@.len() ==> model::fits((#[trigger] a.values@[i]).1@)
}

pub fn convert_result(a: SmtAnswer) -> (r: SatResult)
    requires
        answer_fits(a),
    ensures
        converted(a, r),
{
    match a.status {
        SmtStatus::Sat => SatResult::Sat(Model::from_raw(a.values)),
        SmtStatus::Unsat => SatResult::Unsat,
        SmtStatus::Unknown => SatResult::Unknown(text::copy_str("solver returned unknown")),
    }
}

/// The outcome of one run of the theory solver: what it answered, or why it
/// failed.
pub fn conclude(outcome: Result<SmtAnswer, String>) -> (r: SatResult)
    requires
        outcome is Ok ==> answer_fits(outcome->Ok_0),
    ensures
        match outcome {
            Ok(a) => converted(a, r),
            Err(e) => gives_up(r, e@),
        },
{
    match outcome {
        Ok(a) => convert_result(a),
        Err(e) => SatResult::Unknown(e),
    }
}

/// Whether a racing thread still runs the solver when its turn comes.
pub fn may_start(done: bool, elapsed: u64, timeout: Option<u64>) -> (b: bool)
    ensures
        b == (!done && (timeout is Some ==> elapsed < timeout->0)),
{
    if done {
        return false;
    }
    match timeout {
        Some(t) => elapsed < t,
        None => true,
    }
}

/// A result that decides.
pub open spec fn conclusive(r: SatResult) -> bool {
    !(r is Unknown)
}

/// The winner of a race, given the results in the order in which they came:
/// the first conclusive one.
pub fn race(results: Vec<SatResult>) -> (r: SatResult)
    ensures
        match r {
            SatResult::Unknown(s) => s@ == "no conclusive result within budget"@ && forall|i: int|
                0 <= i < results@.len() ==> !conclusive(#[trigger] results@[i]),
            _ => exists|i: int|
                0 <= i < results@.len() && #[trigger] results@[i] == r && forall|k: int|
                    0 <= k < i ==> !conclusive(#[trigger] results@[k]),
        },
{
    let ghost all = results@;
    for r in it: results
        invariant
            it.seq() == all,
            forall|k: int| 0 <= k < it.index() ==> !conclusive(#[trigger] all[k]),
    {
        assert(r == all[it.index()]);
        match r {
            SatResult::Unknown(_) => {},
            r => {
                return r;
            },
        }
    }
    SatResult::Unknown(text::copy_str("no conclusive result within budget"))
}

/// What is asked of the theory solver.
#[derive(Debug)]
pub struct Request {
    pub script: String,
    pub budget: u64,
    /// The number of independent runs.
    pub runs: usize,
}

/// The assertions of a session and the lengths that its open scopes go back to.
#[verifier::ext_equal]
pub struct Session {
    pub assertions: Seq<Expr>,
    pub marks: Seq<nat>,
}

pub open spec fn asserted(s: Session, e: Expr) -> Session {
    Session { assertions: s.assertions.push(e), ..s }
}

pub open spec fn pushed(s: Session) -> Session {
    Session { marks: s.marks.push(s.assertions.len()), ..s }
}

pub open spec fn popped(s: Session) -> Session {
    if s.marks.len() == 0 {
        s
    } else {
        Session {
            assertions: s.assertions.take(s.marks.last() as int),
            marks: s.marks.drop_last(),
        }
    }
}

/// Assertions made one after another.
pub open spec fn asserted_all(s: Session, es: Seq<Expr>) -> Session
    decreases es.len(),
{
    if es.len() == 0 {
        s
    } else {
        asserted(asserted_all(s, es.drop_last()), es.last())
    }
}

/// Leaving a scope restores the session as it was on entering it, whatever
/// was asserted in the scope.
pub proof fn pop_undoes_push(s: Session, es: Seq<Expr>)
    ensures
        popped(asserted_all(pushed(s), es)) == s,
{
    scope_grows(s, es);
    let inner = asserted_all(pushed(s), es);
    assert(inner.marks.drop_last() =~= s.marks);
    assert(inner.assertions.take(s.assertions.len() as int) =~= s.assertions);
}

proof fn scope_grows(s: Session, es: Seq<Expr>)
    ensures
        asserted_all(pushed(s), es).marks == pushed(s).marks,
        asserted_all(pushed(s), es).assertions == s.assertions + es,
    decreases es.len(),
{
    if es.len() == 0 {
        assert(s.assertions + es =~= s.assertions);
    } else {
        scope_grows(s, es.drop_last());
        assert(s.assertions + es =~= (s.assertions + es.drop_last()).push(es.last()));
    }
}

pub open spec fn mark_views(v: Seq<usize>) -> Seq<nat> {
    v.map_values(|m: usize| m as nat)
}

/// An incremental solver session. Assert constraints with
/// [`Solver::assert_expr`], then ask with [`Solver::request`]. Push/pop scopes
/// let you explore multiple branches without rebuilding the context.
pub struct Solver<'ctx> {
    ctx: &'ctx Context,
    config: SolverConfig,
    assertions: Vec<Expr>,
    stack: Vec<usize>,
}

impl<'ctx> Solver<'ctx> {
    pub closed spec fn view(&self) -> Session {
        Session { assertions: self.assertions@, marks: mark_views(self.stack@) }
    }

    pub closed spec fn configured(&self) -> SolverConfig {
        self.config
    }

    /// Every open scope goes back to a length that was there.
    pub closed spec fn well_formed(&self) -> bool {
        forall|i: int|
            0 <= i < self.stack@.len() ==> #[trigger] self.stack@[i] <= self.assertions@.len()
                && forall|j: int| i <= j < self.stack@.len() ==> self.stack@[i] <= #[trigger] self.stack@[j]
    }

    pub fn new(ctx: &'ctx Context) -> (s: Self)
        ensures
            s.well_formed(),
            s@ == (Session { assertions: seq![], marks: seq![] }),
            s.configured() == (SolverConfig { num_workers: 1, max_conflicts: 0, timeout: None }),
    {
        Self::with_config(ctx, SolverConfig::default())
    }

    pub fn with_config(ctx: &'ctx Context, config: SolverConfig) -> (s: Self)
        ensures
            s.well_formed(),
            s@ == (Session { assertions: seq![], marks: seq![] }),
            s.configured() == config,
    {
        let s = Solver { ctx, config, assertions: Vec::new(), stack: Vec::new() };
        assert(s@ =~= (Session { assertions: seq![], marks: seq![] }));
        s
    }

    pub fn context(&self) -> &'ctx Context {
        self.ctx
    }

    /// Add a constraint.
    pub fn assert_expr(&mut self, expr: &Expr)
        requires
            old(self).well_formed(),
        ensures
            final(self).well_formed(),
            final(self)@ == asserted(old(self)@, *expr),
            final(self).configured() == old(self).configured(),
    {
        self.assertions.push(expr.clone());
    }

    /// Save the current assertion context. Paired with [`Solver::pop`].
    pub fn push(&mut self)
        requires
            old(self).well_formed(),
        ensures
            final(self).well_formed(),
            final(self)@ == pushed(old(self)@),
            final(self).configured() == old(self).configured(),
    {
        let ghost before = self@;
        self.stack.push(self.assertions.len());
        assert(self@ =~= pushed(before));
    }

    /// Restore the assertion context to the last [`Solver::push`] point.
    pub fn pop(&mut self)
        requires
            old(self).well_formed(),
        ensures
            final(self).well_formed(),
            final(self)@ == popped(old(self)@),
            final(self).configured() == old(self).configured(),
    {
        let ghost before = *self;
        if let Some(len) = self.stack.pop() {
            self.assertions.truncate(len);
            proof {
                let n = before.stack@.len();
                assert(before.stack@[n - 1] == len);
                assert(self@ =~= popped(before@));
                assert forall|i: int| 0 <= i < self.stack@.len() implies #[trigger] self.stack@[i]
                    <= self.assertions@.len() && forall|j: int|
                    i <= j < self.stack@.len() ==> self.stack@[i] <= #[trigger] self.stack@[j] by {
                    assert(self.stack@[i] == before.stack@[i]);
                    assert(before.stack@[i] <= before.stack@[n - 1]);
                    assert forall|j: int| i <= j < self.stack@.len() implies self.stack@[i]
                        <= #[trigger] self.stack@[j] by {
                        assert(self.stack@[j] == before.stack@[j]);
                    }
                }
            }
        }
    }

    pub fn num_assertions(&self) -> (n: usize)
        ensures
            n == self@.assertions.len(),
    {
        self.assertions.len()
    }

    /// What to ask to check the current assertions.
    pub fn request(&self) -> (r: Request)
        ensures
            r.script@ == emit::script_text(
                self@.assertions,
                emit::logic_of(self@.assertions),
            ),
            r.budget == budget_of(self.configured().max_conflicts),
            r.runs == (if self.configured().num_workers <= 1 {
                1
            } else {
                self.configured().num_workers
            }),
    {
        let logic = detect_logic(self.assertions.as_slice());
        let script = emit_smtlib(self.assertions.as_slice(), logic);
        let runs: usize = if self.config.num_workers <= 1 {
            1
        } else {
            self.config.num_workers
        };
        Request { script, budget: effective_conflict_budget(&self.config), runs }
    }

    /// What to ask to check with extra assumptions beyond the current
    /// assertion stack. They do not persist: the session is unchanged.
    pub fn request_assuming(&self, assumptions: &[Expr]) -> (r: Request)
        ensures
            r.script@ == emit::script_text(
                self@.assertions + assumptions@,
                emit::logic_of(self@.assertions + assumptions@),
            ),
            r.budget == budget_of(self.configured().max_conflicts),
            r.runs == 1,
    {
        let mut all: Vec<Expr> = Vec::new();
        let mut i: usize = 0;
        while i < self.assertions.len()
            invariant
                i <= self.assertions@.len(),
                all@ == self.assertions@.take(i as int),
            decreases self.assertions@.len() - i,
        {
            all.push(self.assertions[i].clone());
            assert(all@ =~= self.assertions@.take(i + 1));
            i += 1;
        }
        assert(all@ =~= self.assertions@);
        let mut k: usize = 0;
        assert(all@ =~= self.assertions@ + assumptions@.take(0));
        while k < assumptions.len()
            invariant
                k <= assumptions@.len(),
                all@ == self.assertions@ + assumptions@.take(k as int),
            decreases assumptions@.len() - k,
        {
            all.push(assumptions[k].clone());
            assert(all@ =~= self.assertions@ + assumptions@.take(k + 1));
            k += 1;
        }
        assert(assumptions@.take(k as int) =~= assumptions@);
        let logic = detect_logic(all.as_slice());
        let script = emit_smtlib(all.as_slice(), logic);
        Request { script, budget: effective_conflict_budget(&self.config), runs: 1 }
    }
}

} // verus!
