//! What the command line reports: texts, exit codes and proof certificates.
//!
//! Exit codes of a solve follow the SAT competition convention: 10 = SAT,
//! 20 = UNSAT, 0 = UNKNOWN/TIMEOUT, 3 = internal error. Checking a proof
//! exits with 0 = valid, 1 = invalid, 3 = error.

use vstd::prelude::*;

#[allow(unused_imports)]
use crate::akx::logic;
#[allow(unused_imports)]
use crate::akx::stop;
use crate::akx::stop::Stop;
use crate::api::solver::{SmtAnswer, SmtStatus};
#[allow(unused_imports)]
use crate::api::model::pair_views;
use crate::bench::run::TraceEvent;
#[allow(unused_imports)]
use crate::bench::run;
#[allow(unused_imports)]
use crate::certify::drup;
#[allow(unused_imports)]
use crate::certify::model;
#[allow(unused_imports)]
use crate::certify::model::model_valuation;
#[allow(unused_imports)]
use crate::certify::proof_file;
use crate::certify::proof_file::{ProofError, ProofFile, Status};
#[allow(unused_imports)]
use crate::certify::proof_file::{Contents, Fault};
#[allow(unused_imports)]
use crate::certify::proof_text;
#[allow(unused_imports)]
use crate::sat::cdcl;
#[allow(unused_imports)]
use crate::sat::certificate;
use crate::sat::dimacs::DimacsCnf;
#[allow(unused_imports)]
use crate::sat::instance;
use crate::sat::instance::{solve_single_with, InvalidModel, Outcome, RunCounters};
use crate::text;

verus! {

pub const EXIT_SAT: i32 = 10;

pub const EXIT_UNSAT: i32 = 20;

pub const EXIT_UNKNOWN: i32 = 0;

pub const EXIT_INTERNAL_ERROR: i32 = 3;

pub const EXIT_VALID: i32 = 0;

pub const EXIT_INVALID: i32 = 1;

/// The exit code of an outcome.
pub open spec fn code_of(outcome: Outcome) -> i32 {
    match outcome {
        Outcome::Sat => EXIT_SAT,
        Outcome::Unsat => EXIT_UNSAT,
        Outcome::Unknown => EXIT_UNKNOWN,
    }
}

pub fn exit_code(outcome: Outcome) -> (c: i32)
    ensures
        c == code_of(outcome),
{
    match outcome {
        Outcome::Sat => EXIT_SAT,
        Outcome::Unsat => EXIT_UNSAT,
        Outcome::Unknown => EXIT_UNKNOWN,
    }
}

/// Whether a file with this extension holds an SMT-LIB script.
pub fn is_smt_extension(extension: Option<&str>) -> (b: bool)
    ensures
        b == (extension matches Some(e) && (e@ == "smt2"@ || e@ == "smt"@)),
{
    match extension {
        Some(e) => text::str_eq(e, "smt2") || text::str_eq(e, "smt"),
        None => false,
    }
}

/// The number of workers of a solve: one when it is to be deterministic.
pub fn effective_workers(workers: u32, deterministic: bool) -> (n: u32)
    ensures
        n == (if deterministic {
            1
        } else {
            workers
        }),
{
    if deterministic {
        1
    } else {
        workers
    }
}

/// The conflict budget of a solve.
pub fn conflict_budget(max_conflicts: Option<u64>) -> (b: u64)
    ensures
        b == (match max_conflicts {
            Some(n) => n,
            None => u64::MAX,
        }),
{
    match max_conflicts {
        Some(n) => n,
        None => u64::MAX,
    }
}

// ---------------------------------------------------------------------------
// DIMACS
// ---------------------------------------------------------------------------

/// The verdict line.
pub open spec fn verdict_text(outcome: Outcome) -> text::Text {
    match outcome {
        Outcome::Sat => "s SATISFIABLE\n"@,
        Outcome::Unsat => "s UNSATISFIABLE\n"@,
        Outcome::Unknown => "s UNKNOWN\n"@,
    }
}

fn push_verdict(out: &mut String, outcome: Outcome)
    ensures
        final(out)@ == old(out)@ + verdict_text(outcome),
{
    match outcome {
        Outcome::Sat => {
            out.append("s SATISFIABLE\n");
        },
        Outcome::Unsat => {
            out.append("s UNSATISFIABLE\n");
        },
        Outcome::Unknown => {
            out.append("s UNKNOWN\n");
        },
    }
}

/// The lines for the values of the variables from 1 to `n`.
pub open spec fn values_text(values: Seq<bool>, n: nat) -> text::Text
    decreases n,
{
    if n == 0 {
        seq![]
    } else {
        values_text(values, (n - 1) as nat) + "v "@ + (if values[n as int] {
            ""@
        } else {
            "-"@
        }) + " "@ + text::decimal(n) + "\n"@
    }
}

fn push_values(out: &mut String, values: &Vec<bool>, num_vars: u32)
    requires
        values@.len() == num_vars + 1,
    ensures
        final(out)@ == old(out)@ + values_text(values@, num_vars as nat),
{
    let ghost start = out@;
    let mut v: u32 = 0;
    assert(out@ =~= start + values_text(values@, 0));
    while v < num_vars
        invariant
            v <= num_vars,
            values@.len() == num_vars + 1,
            out@ == start + values_text(values@, v as nat),
        decreases num_vars - v,
    {
        let ghost before = out@;
        v += 1;
        out.append("v ");
        let sign: &str = if values[v as usize] {
            ""
        } else {
            "-"
        };
        out.append(sign);
        out.append(" ");
        text::push_decimal(out, v as u64);
        out.append("\n");
        assert(before == start + values_text(values@, (v - 1) as nat));
        assert(out@ =~= start + values_text(values@, v as nat));
    }
}

/// What is reported of a solve.
pub struct SolveReport {
    pub code: i32,
    pub outcome: Outcome,
    /// The values of the variables by number, if satisfiable.
    pub model: Option<Vec<bool>>,
    /// What is printed.
    pub output: String,
    /// The proof certificate, if one was asked for and there is a verdict.
    pub certificate: Option<String>,
    pub counters: RunCounters,
    /// The solver has no references to clauses left.
    pub full: bool,
}

/// What a report of a solve says of the instance.
pub open spec fn report_ok(
    r: SolveReport,
    num_vars: u32,
    clauses: Seq<Seq<i32>>,
    certify: bool,
) -> bool {
    &&& r.code == code_of(r.outcome)
    &&& r.outcome == Outcome::Sat <==> r.model is Some
    &&& r.model matches Some(m) ==> instance::model_ok(num_vars, clauses, m@)
    &&& r.outcome == Outcome::Unsat ==> logic::dimacs_unsatisfiable(clauses)
    &&& r.output@ == verdict_text(r.outcome) + (match r.model {
        Some(m) => values_text(m@, num_vars as nat),
        None => seq![],
    })
    &&& r.certificate is Some <==> certify && r.outcome != Outcome::Unknown
    &&& r.certificate matches Some(c) ==> match r.model {
        Some(m) => c@ == proof_text::unlines(proof_text::sat_lines(num_vars, clauses, m@)),
        None => unsat_certificate(c@, num_vars, clauses),
    }
}

/// A certificate lists the clauses and a log that refutes them by unit
/// propagation.
pub open spec fn unsat_certificate(
    c: text::Text,
    num_vars: u32,
    clauses: Seq<Seq<i32>>,
) -> bool {
    exists|steps: Seq<Vec<i32>>|
        {
            &&& c == proof_text::unlines(
                proof_text::unsat_lines(num_vars, clauses, #[trigger] logic::clause_views(steps)),
            )
            &&& cdcl::certified(instance::formula_of(clauses), num_vars, steps)
        }
}

/// The contents that a certificate reads back as.
pub open spec fn read_back(c: text::Text, contents: Contents) -> bool {
    proof_file::contents_of(c) == Ok::<Contents, Fault>(contents)
}

/// The certificate of an unsatisfiable instance is accepted when it is read
/// back: it is about the clauses of the instance, and its steps refute them.
/// Clauses have no literal twice (the verifier does not take such a clause for
/// a unit).
pub proof fn unsat_certificate_is_accepted(
    c: text::Text,
    num_vars: u32,
    clauses: Seq<Seq<i32>>,
) -> (contents: Contents)
    requires
        instance::loadable(num_vars, clauses),
        certificate::no_repeats(clauses),
        unsat_certificate(c, num_vars, clauses),
    ensures
        read_back(c, contents),
        contents.num_vars == num_vars,
        contents.clauses == clauses,
        contents.status == Status::Unsat,
        drup::refutation(clauses, contents.drup, contents.drup.len() as int),
{
    let steps = choose|steps: Seq<Vec<i32>>|
        {
            &&& c == proof_text::unlines(
                proof_text::unsat_lines(num_vars, clauses, #[trigger] logic::clause_views(steps)),
            )
            &&& cdcl::certified(instance::formula_of(clauses), num_vars, steps)
        };
    certificate::certified_log_is_accepted(num_vars, clauses, steps);
    let views = logic::clause_views(steps);
    certificate::certified_log_is_nonzero(num_vars, clauses, steps);
    nonzero_clauses(num_vars, clauses);
    proof_text::unsat_round_trip(num_vars, clauses, views);
    proof_file::contents_of(c)->Ok_0
}

proof fn nonzero_clauses(num_vars: u32, clauses: Seq<Seq<i32>>)
    requires
        instance::loadable(num_vars, clauses),
    ensures
        proof_text::nonzero(clauses),
{
    assert forall|i: int, j: int| 0 <= i < clauses.len() && 0 <= j < clauses[i].len() implies
        #[trigger] clauses[i][j] != 0 by {
        assert(instance::clause_ok(num_vars, clauses[i]));
    }
}

/// The certificate of a satisfiable instance is accepted when it is read
/// back: it is about the clauses of the instance, and its model satisfies
/// them.
pub proof fn sat_certificate_is_accepted(
    c: text::Text,
    num_vars: u32,
    clauses: Seq<Seq<i32>>,
    model: Seq<bool>,
) -> (contents: Contents)
    requires
        instance::loadable(num_vars, clauses),
        instance::model_ok(num_vars, clauses, model),
        c == proof_text::unlines(proof_text::sat_lines(num_vars, clauses, model)),
    ensures
        read_back(c, contents),
        contents.num_vars == num_vars,
        contents.clauses == clauses,
        contents.status == Status::Sat,
        contents.model.len() > num_vars,
        model::good_before(num_vars, clauses, contents.model, clauses.len() as int),
{
    nonzero_clauses(num_vars, clauses);
    proof_text::sat_round_trip(num_vars, clauses, model);
    let contents = proof_file::contents_of(c)->Ok_0;
    let values = proof_text::declared_values(num_vars, model);
    assert(contents.model == values);
    assert forall|k: int| 0 <= k < clauses.len() implies model::in_range(
        num_vars,
        #[trigger] clauses[k],
    ) && logic::dimacs_clause_holds(model_valuation(values), clauses[k]) by {
        assert(instance::clause_ok(num_vars, clauses[k]));
        assert(logic::dimacs_clause_holds(model_valuation(model), clauses[k]));
        instance::clause_frame(num_vars, clauses[k], model, values);
    }
    contents
}

/// Solve a DIMACS instance and say what to print, with which code to exit, and
/// what certificate to write. A model is validated independently of the solver
/// first; that never fails.
pub fn solve_report(cnf: &DimacsCnf, max_conflicts: Option<u64>, certify: bool) -> (r: Result<
    SolveReport,
    InvalidModel,
>)
    requires
        instance::loadable(cnf.num_vars, logic::clause_views(cnf.clauses@)),
    ensures
        r is Ok,
        report_ok(r->Ok_0, cnf.num_vars, logic::clause_views(cnf.clauses@), certify),
        r->Ok_0.outcome == Outcome::Unknown ==> {
            ||| max_conflicts is Some && r->Ok_0.counters.conflicts > max_conflicts->0
            ||| r->Ok_0.counters.conflicts == u64::MAX
            ||| r->Ok_0.full
        },
        instance::budget_kept(
            r->Ok_0.outcome,
            r->Ok_0.counters.conflicts,
            logic::clause_views(cnf.clauses@),
            match max_conflicts {
                Some(n) => n,
                None => u64::MAX,
            },
        ),
{
    let ghost all = logic::clause_views(cnf.clauses@);
    let mut limit = Stop::never();
    let run = match solve_single_with(cnf, conflict_budget(max_conflicts), &mut limit, certify) {
        Ok(run) => run,
        Err(e) => {
            return Err(e);
        },
    };
    proof {
        limit.readings_are();
        if stop::got_tripped(Seq::empty(), limit.readings()) {
            assert(limit.readings()[limit.readings().len() - 1]);
        }
    }
    let mut output = String::new();
    push_verdict(&mut output, run.outcome);
    let mut certificate: Option<String> = None;
    match &run.model {
        Some(m) => {
            push_values(&mut output, m, cnf.num_vars);
            if certify {
                certificate = Some(
                    ProofFile::write_sat(cnf.num_vars, cnf.clauses.as_slice(), m.as_slice()),
                );
            }
        },
        None => {
            if run.outcome == Outcome::Unsat {
                if let Some(steps) = &run.log {
                    let c = ProofFile::write_unsat(
                        cnf.num_vars,
                        cnf.clauses.as_slice(),
                        steps.as_slice(),
                    );
                    assert(unsat_certificate(c@, cnf.num_vars, all));
                    certificate = Some(c);
                }
            }
        },
    }
    let r = SolveReport {
        code: exit_code(run.outcome),
        outcome: run.outcome,
        model: run.model,
        output,
        certificate,
        counters: run.counters,
        full: run.full,
    };
    assert(r.output@ =~= verdict_text(r.outcome) + (match r.model {
        Some(m) => values_text(m@, cnf.num_vars as nat),
        None => seq![],
    }));
    Ok(r)
}

/// The trace of a solve: the root phase, the search counters and the outcome.
pub fn solve_trace(outcome: Outcome, counters: RunCounters) -> (v: Vec<TraceEvent>)
    ensures
        v@.len() == 3,
        run::is_root(v@[0]),
        v@[1] == (TraceEvent::SearchSummary { counters }),
        v@[2] == (TraceEvent::RunFinished { outcome }),
{
    let mut v: Vec<TraceEvent> = Vec::new();
    v.push(TraceEvent::Phase { name: text::copy_str("root") });
    v.push(TraceEvent::SearchSummary { counters });
    v.push(TraceEvent::RunFinished { outcome });
    v
}

// ---------------------------------------------------------------------------
// SMT-LIB
// ---------------------------------------------------------------------------

/// Why the theory solver gave no answer.
#[derive(Debug)]
pub enum SmtFailure {
    /// The script is not SMT-LIB.
    Invalid(String),
    /// The logic is not supported.
    UnsupportedLogic(String),
    /// Any other failure.
    Other(String),
}

/// The code and the message of a failure.
pub open spec fn failure_text(f: SmtFailure) -> (i32, text::Text) {
    match f {
        SmtFailure::Invalid(e) => (
            EXIT_INTERNAL_ERROR,
            "error: invalid SMT-LIB input: "@ + e@ + "\n"@,
        ),
        SmtFailure::UnsupportedLogic(l) => (
            EXIT_UNKNOWN,
            "error: logic "@ + l@ + " is not supported yet (QF_BV only)\n"@,
        ),
        SmtFailure::Other(e) => (EXIT_INTERNAL_ERROR, "error: "@ + e@ + "\n"@),
    }
}

/// The code and the message of a failure of the theory solver.
pub fn failure_report(f: &SmtFailure) -> (r: (i32, String))
    ensures
        (r.0, r.1@) == failure_text(*f),
{
    let mut out = String::new();
    let code: i32 = match f {
        SmtFailure::Invalid(e) => {
            out.append("error: invalid SMT-LIB input: ");
            out.append(e.as_str());
            out.append("\n");
            EXIT_INTERNAL_ERROR
        },
        SmtFailure::UnsupportedLogic(l) => {
            out.append("error: logic ");
            out.append(l.as_str());
            out.append(" is not supported yet (QF_BV only)\n");
            EXIT_UNKNOWN
        },
        SmtFailure::Other(e) => {
            out.append("error: ");
            out.append(e.as_str());
            out.append("\n");
            EXIT_INTERNAL_ERROR
        },
    };
    assert(out@ =~= failure_text(*f).1);
    (code, out)
}

/// The outcome that a status stands for.
pub open spec fn outcome_of(s: SmtStatus) -> Outcome {
    match s {
        SmtStatus::Sat => Outcome::Sat,
        SmtStatus::Unsat => Outcome::Unsat,
        SmtStatus::Unknown => Outcome::Unknown,
    }
}

/// The definitions of the first `n` constants of a model.
pub open spec fn define_text(pairs: Seq<(text::Text, text::Text)>, n: nat) -> text::Text
    decreases n,
{
    if n == 0 {
        seq![]
    } else {
        define_text(pairs, (n - 1) as nat) + "  (define-fun "@ + pairs[n - 1].0 + " () "@
            + pairs[n - 1].1 + ")\n"@
    }
}

/// What is printed for an answer: the verdict and, if satisfiable, the model
/// unless it is empty.
pub open spec fn answer_text(status: SmtStatus, pairs: Seq<(text::Text, text::Text)>) -> text::Text {
    verdict_text(outcome_of(status)) + (if status == SmtStatus::Sat && pairs.len() > 0 {
        "(model\n"@ + define_text(pairs, pairs.len()) + ")\n"@
    } else {
        seq![]
    })
}

/// What is reported of an answer of the theory solver: the exit code, the text
/// to print, and the trace.
pub fn smt_report(answer: &SmtAnswer) -> (r: (i32, String, Vec<TraceEvent>))
    ensures
        r.0 == code_of(outcome_of(answer.status)),
        r.1@ == answer_text(answer.status, pair_views(answer.values@)),
        r.2@.len() == 2,
        run::is_root(r.2@[0]),
        r.2@[1] == (TraceEvent::RunFinished { outcome: outcome_of(answer.status) }),
{
    let outcome = match answer.status {
        SmtStatus::Sat => Outcome::Sat,
        SmtStatus::Unsat => Outcome::Unsat,
        SmtStatus::Unknown => Outcome::Unknown,
    };
    let ghost pairs = pair_views(answer.values@);
    let mut out = String::new();
    push_verdict(&mut out, outcome);
    if answer.status == SmtStatus::Sat && answer.values.len() > 0 {
        out.append("(model\n");
        let ghost lead = verdict_text(outcome) + "(model\n"@;
        let mut i: usize = 0;
        assert(out@ =~= lead + define_text(pairs, 0));
        while i < answer.values.len()
            invariant
                i <= answer.values@.len(),
                pairs == pair_views(answer.values@),
                out@ == lead + define_text(pairs, i as nat),
            decreases answer.values@.len() - i,
        {
            out.append("  (define-fun ");
            out.append(answer.values[i].0.as_str());
            out.append(" () ");
            out.append(answer.values[i].1.as_str());
            out.append(")\n");
            assert(pairs[i as int] == (answer.values@[i as int].0@, answer.values@[i as int].1@));
            assert(out@ =~= lead + define_text(pairs, (i + 1) as nat));
            i += 1;
        }
        out.append(")\n");
    }
    assert(out@ =~= answer_text(answer.status, pairs));
    let mut events: Vec<TraceEvent> = Vec::new();
    events.push(TraceEvent::Phase { name: text::copy_str("root") });
    events.push(TraceEvent::RunFinished { outcome });
    (exit_code(outcome), out, events)
}

// ---------------------------------------------------------------------------
// Proof certificates
// ---------------------------------------------------------------------------

/// The negations of all literals of the proof steps can be formed.
pub open spec fn negatable(pf: ProofFile) -> bool {
    pf.num_vars <= i32::MAX || drup::no_min(pf@.drup)
}

/// Whether the negations of all literals of the proof steps can be formed.
pub fn is_checkable(pf: &ProofFile) -> (b: bool)
    ensures
        b == negatable(*pf),
{
    if pf.num_vars <= 0x7FFF_FFFF {
        return true;
    }
    let ghost all = pf@.drup;
    let mut i: usize = 0;
    while i < pf.drup.len()
        invariant
            i <= pf.drup@.len(),
            all == pf@.drup,
            all == logic::clause_views(pf.drup@),
            pf.num_vars > i32::MAX,
            forall|k: int, j: int|
                0 <= k < i && 0 <= j < all[k].len() ==> #[trigger] all[k][j] != i32::MIN,
        decreases pf.drup@.len() - i,
    {
        let step: &Vec<i32> = &pf.drup[i];
        assert(all[i as int] == step@);
        let mut j: usize = 0;
        while j < step.len()
            invariant
                i < pf.drup@.len(),
                all.len() == pf.drup@.len(),
                step@ == all[i as int],
                j <= step@.len(),
                all == pf@.drup,
                pf.num_vars > i32::MAX,
                forall|k: int, j: int|
                    0 <= k < i && 0 <= j < all[k].len() ==> #[trigger] all[k][j] != i32::MIN,
                forall|k: int| 0 <= k < j ==> #[trigger] all[i as int][k] != i32::MIN,
            decreases step@.len() - j,
        {
            if step[j] == i32::MIN {
                assert(all[i as int][j as int] == i32::MIN);
                return false;
            }
            j += 1;
        }
        i += 1;
    }
    true
}

/// A proof file whose clauses section is omitted, with the clauses of its
/// companion `.cnf` file. A proof file with clauses is kept as it is.
pub fn with_companion(pf: ProofFile, cnf: DimacsCnf) -> (r: ProofFile)
    ensures
        r@ == (if pf@.clauses.len() == 0 {
            Contents { clauses: logic::clause_views(cnf.clauses@), ..pf@ }
        } else {
            pf@
        }),
{
    if pf.clauses.len() == 0 {
        ProofFile { clauses: cnf.clauses, ..pf }
    } else {
        pf
    }
}

/// The message for a valid proof.
pub open spec fn valid_text(pf: ProofFile) -> text::Text {
    let size = " ("@ + text::decimal(pf.num_vars as nat) + " vars, "@ + text::decimal(
        pf@.clauses.len(),
    ) + " clauses"@;
    match pf.status {
        Status::Sat => "VALID SAT model"@ + size + ")\n"@,
        Status::Unsat => "VALID UNSAT proof"@ + size + ", "@ + text::decimal(pf@.drup.len())
            + " DRUP steps)\n"@,
    }
}

/// Check a proof: the exit code, and the message for a valid one or the reason
/// why it is invalid. An accepted proof is right: the model satisfies the
/// clauses, or no valuation does.
pub fn check_proof(pf: &ProofFile) -> (r: (i32, Result<String, ProofError>))
    requires
        negatable(*pf),
    ensures
        match r.1 {
            Ok(s) => r.0 == EXIT_VALID && s@ == valid_text(*pf),
            Err(_) => r.0 == EXIT_INVALID,
        },
        pf.status == Status::Sat ==> (r.1 is Ok <==> pf@.model.len() > pf.num_vars
            && model::good_before(
            pf.num_vars,
            pf@.clauses,
            pf@.model,
            pf@.clauses.len() as int,
        )),
        pf.status == Status::Unsat ==> (r.1 is Ok <==> exists|n: usize| #[trigger]
            drup::drup_result(pf.num_vars, pf@.clauses, pf@.drup, Ok(n))),
        r.1 is Ok && pf.status == Status::Unsat ==> logic::dimacs_unsatisfiable(pf@.clauses),
        r.1 is Ok && pf.status == Status::Sat ==> logic::dimacs_formula_holds(
            model_valuation(pf@.model),
            pf@.clauses,
        ),
{
    let verdict = pf.verify();
    proof {
        if pf.status == Status::Unsat && verdict is Err {
            assert forall|n: usize| !(#[trigger] drup::drup_result(
                pf.num_vars,
                pf@.clauses,
                pf@.drup,
                Ok(n),
            )) by {
                if drup::drup_result(pf.num_vars, pf@.clauses, pf@.drup, Ok(n)) {
                    accepted_once(pf, n, verdict);
                }
            }
        }
    }
    match verdict {
        Ok(()) => {
            let mut out = String::new();
            match pf.status {
                Status::Sat => {
                    out.append("VALID SAT model");
                },
                Status::Unsat => {
                    out.append("VALID UNSAT proof");
                },
            }
            out.append(" (");
            text::push_decimal(&mut out, pf.num_vars as u64);
            out.append(" vars, ");
            text::push_decimal(&mut out, pf.clauses.len() as u64);
            out.append(" clauses");
            match pf.status {
                Status::Sat => {
                    out.append(")\n");
                },
                Status::Unsat => {
                    out.append(", ");
                    text::push_decimal(&mut out, pf.drup.len() as u64);
                    out.append(" DRUP steps)\n");
                },
            }
            assert(out@ =~= valid_text(*pf));
            (EXIT_VALID, Ok(out))
        },
        Err(e) => (EXIT_INVALID, Err(e)),
    }
}

/// A proof that is to be accepted is not refused.
proof fn accepted_once(pf: &ProofFile, n: usize, verdict: Result<(), ProofError>)
    requires
        pf.status == Status::Unsat,
        drup::drup_result(pf.num_vars, pf@.clauses, pf@.drup, Ok(n)),
        pf@.drup.len() == 0 <==> verdict matches Err(ProofError::UnsatNotSupported),
        pf@.drup.len() > 0 ==> match verdict {
            Ok(_) => true,
            Err(ProofError::Drup(e)) => drup::drup_result(
                pf.num_vars,
                pf@.clauses,
                pf@.drup,
                Err(e),
            ),
            _ => false,
        },
    ensures
        verdict is Ok,
{
}

} // verus!
