//! The rules of a benchmark run.
//!
//! Each problem is solved by a single worker or, when the manifest requests
//! more, by a pool of reasoners on a shared in-process bus. Every SAT model is
//! independently validated. With clause sharing the pool is a clause-sharing
//! portfolio, without it an isolated one.

use vstd::prelude::*;

use crate::akx::policy::{ExportPolicy, ImportPolicy};
use crate::akx::stats::BusMetrics;
use crate::akx::work::PartialModel;
#[allow(unused_imports)]
use crate::akx::logic;
#[allow(unused_imports)]
use crate::akx::knowledge::{KnowledgeId, KnowledgeKindTag, Scope};
use crate::bench::manifest::{Expected, Manifest, Problem, SolverConfig, MANIFEST_SCHEMA_VERSION};
#[allow(unused_imports)]
use crate::bench::result;
use crate::bench::result::{BaselineResult, KnowledgeMetrics, ManifestRun, ProblemResult, RunSummary};
use crate::sat::dimacs::DimacsCnf;
#[allow(unused_imports)]
use crate::sat::instance;
use crate::sat::instance::{check_model, InvalidModel, Outcome, RunCounters};
use crate::text;

verus! {

// ---------------------------------------------------------------------------
// Verdicts
// ---------------------------------------------------------------------------

/// Whether an outcome is the pinned one, if one is pinned.
pub fn expected_matches(expect: Option<Expected>, outcome: Outcome) -> (b: bool)
    ensures
        b == (match expect {
            Some(Expected::Sat) => outcome == Outcome::Sat,
            Some(Expected::Unsat) => outcome == Outcome::Unsat,
            None => true,
        }),
{
    match expect {
        Some(Expected::Sat) => outcome == Outcome::Sat,
        Some(Expected::Unsat) => outcome == Outcome::Unsat,
        None => true,
    }
}

/// An ASCII letter in lower case; other characters as they are.
pub open spec fn lower(c: char) -> char {
    if 'A' as int <= c as int <= 'Z' as int {
        ((c as int) + 32) as char
    } else {
        c
    }
}

/// A text with its ASCII letters in lower case.
pub open spec fn lowered(s: text::Text) -> text::Text {
    s.map_values(|c: char| lower(c))
}

/// The verdict of one line of a solver's answer.
pub open spec fn line_verdict(line: text::Text) -> Outcome {
    let t = lowered(text::trimmed(line));
    if t == "s satisfiable"@ || t == "sat"@ {
        Outcome::Sat
    } else if t == "s unsatisfiable"@ || t == "unsat"@ {
        Outcome::Unsat
    } else {
        Outcome::Unknown
    }
}

/// The verdict of the first line that has one.
pub open spec fn lines_verdict(lines: Seq<text::Text>) -> Outcome
    decreases lines.len(),
{
    if lines.len() == 0 {
        Outcome::Unknown
    } else if line_verdict(lines[0]) != Outcome::Unknown {
        line_verdict(lines[0])
    } else {
        lines_verdict(lines.skip(1))
    }
}

fn to_lower(s: &[char]) -> (v: Vec<char>)
    ensures
        v@ == lowered(s@),
{
    let mut v: Vec<char> = Vec::new();
    let mut i: usize = 0;
    while i < s.len()
        invariant
            i <= s@.len(),
            v@ == lowered(s@).take(i as int),
        decreases s@.len() - i,
    {
        let c: char = s[i];
        if c >= 'A' && c <= 'Z' {
            let code: u8 = c as u8 + 32;
            v.push(code as char);
        } else {
            v.push(c);
        }
        assert(v@ =~= lowered(s@).take(i + 1));
        i += 1;
    }
    assert(v@ =~= lowered(s@));
    v
}

/// Parse a DIMACS competition-format answer line.
/// `s SATISFIABLE` → Sat, `s UNSATISFIABLE` → Unsat, anything else → Unknown.
pub fn parse_dimacs_verdict(output: &str) -> (o: Outcome)
    ensures
        o == lines_verdict(text::pieces(output@, '\n')),
{
    let chars: Vec<char> = text::to_chars(output);
    let lines: Vec<Vec<char>> = text::split(chars.as_slice(), '\n');
    let ghost all = text::texts(lines@);
    let mut i: usize = 0;
    assert(all.skip(0) =~= all);
    while i < lines.len()
        invariant
            i <= lines@.len(),
            all == text::texts(lines@),
            all == text::pieces(output@, '\n'),
            lines_verdict(all) == lines_verdict(all.skip(i as int)),
        decreases lines@.len() - i,
    {
        assert(all[i as int] == lines@[i as int]@);
        assert(all.skip(i as int)[0] == all[i as int]);
        assert(all.skip(i as int).skip(1) =~= all.skip(i + 1));
        let t: Vec<char> = to_lower(text::trim(lines[i].as_slice()));
        if text::is_text(t.as_slice(), "s satisfiable") || text::is_text(t.as_slice(), "sat") {
            return Outcome::Sat;
        }
        if text::is_text(t.as_slice(), "s unsatisfiable") || text::is_text(t.as_slice(), "unsat") {
            return Outcome::Unsat;
        }
        i += 1;
    }
    Outcome::Unknown
}

/// The outcome of an external solver: unknown when it was stopped, else what
/// it said.
pub fn baseline_outcome(timed_out: bool, stdout: &str) -> (o: Outcome)
    ensures
        o == (if timed_out {
            Outcome::Unknown
        } else {
            lines_verdict(text::pieces(stdout@, '\n'))
        }),
{
    if timed_out {
        Outcome::Unknown
    } else {
        parse_dimacs_verdict(stdout)
    }
}

// ---------------------------------------------------------------------------
// Pools
// ---------------------------------------------------------------------------

/// What one worker of a pool did.
#[derive(Clone, Copy, Debug, PartialEq, Eq, Structural)]
pub struct WorkerStats {
    pub conflicts: u64,
    pub decisions: u64,
    pub propagations: u64,
    pub restarts: u64,
    pub exported: u64,
    pub published: u64,
    pub received: u64,
    pub applied: u64,
    pub buffered: u64,
    pub discarded: u64,
}

/// How one worker of a pool ended.
pub enum WorkerOutcome {
    Sat { model: PartialModel, stats: WorkerStats },
    Unsat { stats: WorkerStats },
    Aborted { stats: WorkerStats },
}

pub open spec fn stats_in(o: WorkerOutcome) -> WorkerStats {
    match o {
        WorkerOutcome::Sat { model, stats } => stats,
        WorkerOutcome::Unsat { stats } => stats,
        WorkerOutcome::Aborted { stats } => stats,
    }
}

pub fn stats_of(outcome: &WorkerOutcome) -> (s: WorkerStats)
    ensures
        s == stats_in(*outcome),
{
    match outcome {
        WorkerOutcome::Sat { stats, .. } => *stats,
        WorkerOutcome::Unsat { stats } => *stats,
        WorkerOutcome::Aborted { stats } => *stats,
    }
}

/// Sums of counters.
pub struct Totals {
    pub conflicts: nat,
    pub decisions: nat,
    pub propagations: nat,
    pub restarts: nat,
    pub exported: nat,
    pub published: nat,
    pub received: nat,
    pub applied: nat,
    pub buffered: nat,
    pub discarded: nat,
}

/// The sums over the workers.
pub open spec fn totals(outcomes: Seq<WorkerOutcome>) -> Totals
    decreases outcomes.len(),
{
    if outcomes.len() == 0 {
        Totals {
            conflicts: 0,
            decisions: 0,
            propagations: 0,
            restarts: 0,
            exported: 0,
            published: 0,
            received: 0,
            applied: 0,
            buffered: 0,
            discarded: 0,
        }
    } else {
        let t = totals(outcomes.drop_last());
        let s = stats_in(outcomes.last());
        Totals {
            conflicts: t.conflicts + s.conflicts as nat,
            decisions: t.decisions + s.decisions as nat,
            propagations: t.propagations + s.propagations as nat,
            restarts: t.restarts + s.restarts as nat,
            exported: t.exported + s.exported as nat,
            published: t.published + s.published as nat,
            received: t.received + s.received as nat,
            applied: t.applied + s.applied as nat,
            buffered: t.buffered + s.buffered as nat,
            discarded: t.discarded + s.discarded as nat,
        }
    }
}

/// Every sum can be represented.
pub open spec fn sums_fit(t: Totals) -> bool {
    &&& t.conflicts <= u64::MAX
    &&& t.decisions <= u64::MAX
    &&& t.propagations <= u64::MAX
    &&& t.restarts <= u64::MAX
    &&& t.exported <= u64::MAX
    &&& t.published <= u64::MAX
    &&& t.received <= u64::MAX
    &&& t.applied <= u64::MAX
    &&& t.buffered <= u64::MAX
    &&& t.discarded <= u64::MAX
}

/// Counters that hold the sums.
pub open spec fn sums_are(s: WorkerStats, t: Totals) -> bool {
    &&& s.conflicts == t.conflicts
    &&& s.decisions == t.decisions
    &&& s.propagations == t.propagations
    &&& s.restarts == t.restarts
    &&& s.exported == t.exported
    &&& s.published == t.published
    &&& s.received == t.received
    &&& s.applied == t.applied
    &&& s.buffered == t.buffered
    &&& s.discarded == t.discarded
}

/// If the sums over all workers fit, so do those over the first ones.
proof fn sums_grow(outcomes: Seq<WorkerOutcome>, n: int)
    requires
        0 <= n <= outcomes.len(),
        sums_fit(totals(outcomes)),
    ensures
        sums_fit(totals(outcomes.take(n))),
    decreases outcomes.len() - n,
{
    if n < outcomes.len() {
        sums_grow(outcomes, n + 1);
        assert(outcomes.take(n + 1).drop_last() =~= outcomes.take(n));
    } else {
        assert(outcomes.take(n) =~= outcomes);
    }
}

fn sum_stats(a: WorkerStats, b: WorkerStats) -> (r: Option<WorkerStats>)
    ensures
        match r {
            Some(s) => {
                &&& s.conflicts == a.conflicts + b.conflicts
                &&& s.decisions == a.decisions + b.decisions
                &&& s.propagations == a.propagations + b.propagations
                &&& s.restarts == a.restarts + b.restarts
                &&& s.exported == a.exported + b.exported
                &&& s.published == a.published + b.published
                &&& s.received == a.received + b.received
                &&& s.applied == a.applied + b.applied
                &&& s.buffered == a.buffered + b.buffered
                &&& s.discarded == a.discarded + b.discarded
            },
            None => {
                ||| a.conflicts + b.conflicts > u64::MAX
                ||| a.decisions + b.decisions > u64::MAX
                ||| a.propagations + b.propagations > u64::MAX
                ||| a.restarts + b.restarts > u64::MAX
                ||| a.exported + b.exported > u64::MAX
                ||| a.published + b.published > u64::MAX
                ||| a.received + b.received > u64::MAX
                ||| a.applied + b.applied > u64::MAX
                ||| a.buffered + b.buffered > u64::MAX
                ||| a.discarded + b.discarded > u64::MAX
            },
        },
{
    let search = (
        a.conflicts.checked_add(b.conflicts),
        a.decisions.checked_add(b.decisions),
        a.propagations.checked_add(b.propagations),
        a.restarts.checked_add(b.restarts),
    );
    let flow = (
        a.exported.checked_add(b.exported),
        a.published.checked_add(b.published),
        a.received.checked_add(b.received),
        a.applied.checked_add(b.applied),
        a.buffered.checked_add(b.buffered),
        a.discarded.checked_add(b.discarded),
    );
    match (search, flow) {
        (
            (Some(conflicts), Some(decisions), Some(propagations), Some(restarts)),
            (
                Some(exported),
                Some(published),
                Some(received),
                Some(applied),
                Some(buffered),
                Some(discarded),
            ),
        ) => Some(
            WorkerStats {
                conflicts,
                decisions,
                propagations,
                restarts,
                exported,
                published,
                received,
                applied,
                buffered,
                discarded,
            },
        ),
        _ => None,
    }
}

/// The sums of the counters of all workers, if they can be represented.
pub fn total_stats(outcomes: &[WorkerOutcome]) -> (r: Option<WorkerStats>)
    ensures
        match r {
            Some(s) => sums_are(s, totals(outcomes@)),
            None => !sums_fit(totals(outcomes@)),
        },
{
    let mut total = WorkerStats {
        conflicts: 0,
        decisions: 0,
        propagations: 0,
        restarts: 0,
        exported: 0,
        published: 0,
        received: 0,
        applied: 0,
        buffered: 0,
        discarded: 0,
    };
    let mut i: usize = 0;
    assert(outcomes@.take(0) =~= seq![]);
    while i < outcomes.len()
        invariant
            i <= outcomes@.len(),
            sums_are(total, totals(outcomes@.take(i as int))),
        decreases outcomes@.len() - i,
    {
        assert(outcomes@.take(i + 1).drop_last() =~= outcomes@.take(i as int));
        match sum_stats(total, stats_of(&outcomes[i])) {
            Some(s) => {
                total = s;
            },
            None => {
                proof {
                    if sums_fit(totals(outcomes@)) {
                        sums_grow(outcomes@, i + 1);
                    }
                }
                return None;
            },
        }
        i += 1;
    }
    assert(outcomes@.take(i as int) =~= outcomes@);
    Some(total)
}

/// The search counters among the sums.
pub fn pool_counters(total: &WorkerStats) -> (c: RunCounters)
    ensures
        c == (RunCounters {
            conflicts: total.conflicts,
            decisions: total.decisions,
            propagations: total.propagations,
            restarts: total.restarts,
        }),
{
    RunCounters {
        conflicts: total.conflicts,
        decisions: total.decisions,
        propagations: total.propagations,
        restarts: total.restarts,
    }
}

/// The knowledge-exchange metrics of a pool.
pub fn aggregate_knowledge_metrics(total: &WorkerStats, bus: &BusMetrics) -> (k: KnowledgeMetrics)
    ensures
        k == (KnowledgeMetrics {
            exported: total.exported,
            published: total.published,
            received: total.received,
            applied: total.applied,
            buffered: total.buffered,
            discarded: total.discarded,
            bus_published: bus.published_total,
            bus_deduplicated: bus.deduplicated,
            bus_evicted: bus.evicted,
            bus_backpressure: bus.backpressure,
        }),
{
    KnowledgeMetrics {
        exported: total.exported,
        published: total.published,
        received: total.received,
        applied: total.applied,
        buffered: total.buffered,
        discarded: total.discarded,
        bus_published: bus.published_total,
        bus_deduplicated: bus.deduplicated,
        bus_evicted: bus.evicted,
        bus_backpressure: bus.backpressure,
    }
}

/// What the workers export and import: with clause sharing what reaches the
/// configured utilities, without it nothing.
pub fn build_sharing_policies(solver: &SolverConfig) -> (p: (ExportPolicy, ImportPolicy))
    ensures
        p.0.watermark == KnowledgeId(0),
        p.0.max_scope == Scope::Global,
        p.0.kind_filter@ == Seq::<KnowledgeKindTag>::empty(),
        p.1.buffer_capacity == 1024,
        solver.clause_sharing ==> {
            &&& p.0.min_utility == solver.export_min_utility
            &&& p.0.max_items == 256
            &&& p.1.min_utility == solver.import_min_utility
            &&& p.1.max_items == 512
        },
        !solver.clause_sharing ==> {
            &&& p.0.min_utility == 0
            &&& p.0.max_items == 0
            &&& p.1.min_utility == 0
            &&& p.1.max_items == 0
        },
{
    let mut export = ExportPolicy::default();
    let mut import = ImportPolicy::default();
    if solver.clause_sharing {
        export.min_utility = solver.export_min_utility;
        import.min_utility = solver.import_min_utility;
    } else {
        export.max_items = 0;
        import.max_items = 0;
    }
    (export, import)
}

/// The values that a worker's model gives the variables; missing ones are
/// false.
pub open spec fn worker_values(num_vars: u32, assignments: Seq<Option<bool>>) -> Seq<bool> {
    Seq::new(
        (num_vars + 1) as nat,
        |v: int| 0 < v < assignments.len() && assignments[v] == Some(true),
    )
}

fn read_worker_model(num_vars: u32, model: &PartialModel) -> (raw: Vec<bool>)
    requires
        num_vars < u32::MAX,
    ensures
        raw@ == worker_values(num_vars, model.assignments@),
{
    let mut raw: Vec<bool> = Vec::new();
    raw.push(false);
    let mut v: u32 = 0;
    let ghost want = worker_values(num_vars, model.assignments@);
    assert(raw@ =~= want.take(1));
    while v < num_vars
        invariant
            v <= num_vars < u32::MAX,
            want == worker_values(num_vars, model.assignments@),
            raw@ == want.take(v + 1),
        decreases num_vars - v,
    {
        v += 1;
        raw.push(
            match model.get(v) {
                Some(b) => b,
                None => false,
            },
        );
        assert(raw@ =~= want.take(v + 1));
    }
    assert(raw@ =~= want);
    raw
}

/// The place of the first worker that found a model, or the number of workers.
pub open spec fn first_sat(outcomes: Seq<WorkerOutcome>) -> int
    decreases outcomes.len(),
{
    if outcomes.len() == 0 || outcomes[0] is Sat {
        0
    } else {
        1 + first_sat(outcomes.skip(1))
    }
}

proof fn first_sat_is(outcomes: Seq<WorkerOutcome>, i: int)
    requires
        0 <= i <= outcomes.len(),
        forall|k: int| 0 <= k < i ==> !((#[trigger] outcomes[k]) is Sat),
        i < outcomes.len() ==> outcomes[i] is Sat,
    ensures
        first_sat(outcomes) == i,
    decreases i,
{
    if i > 0 {
        let rest = outcomes.skip(1);
        assert(!(outcomes[0] is Sat));
        assert forall|k: int| 0 <= k < i - 1 implies !((#[trigger] rest[k]) is Sat) by {
            assert(rest[k] == outcomes[k + 1]);
        }
        if i < outcomes.len() {
            assert(rest[i - 1] == outcomes[i]);
        }
        first_sat_is(rest, i - 1);
    }
}

/// Some worker refuted the problem.
pub open spec fn some_unsat(outcomes: Seq<WorkerOutcome>) -> bool {
    exists|i: int| 0 <= i < outcomes.len() && (#[trigger] outcomes[i]) is Unsat
}

/// The values of the model that a worker found.
pub open spec fn model_at(num_vars: u32, outcomes: Seq<WorkerOutcome>, i: int) -> Seq<bool> {
    match outcomes[i] {
        WorkerOutcome::Sat { model, stats } => worker_values(num_vars, model.assignments@),
        _ => seq![],
    }
}

/// The outcome of a pool: that of the first model found, which must satisfy
/// the clauses; else a refutation, if any worker has one.
pub fn collect_pool_outcome(outcomes: &[WorkerOutcome], cnf: &DimacsCnf) -> (r: Result<
    (Outcome, Option<Vec<bool>>),
    InvalidModel,
>)
    requires
        instance::loadable(cnf.num_vars, logic::clause_views(cnf.clauses@)),
    ensures
        ({
            let at = first_sat(outcomes@);
            let model = model_at(cnf.num_vars, outcomes@, at);
            if at < outcomes@.len() {
                match r {
                    Ok((o, m)) => {
                        &&& o == Outcome::Sat
                        &&& m is Some
                        &&& m->0@ == model
                        &&& instance::model_ok(
                            cnf.num_vars,
                            logic::clause_views(cnf.clauses@),
                            model,
                        )
                    },
                    Err(_) => !instance::model_ok(
                        cnf.num_vars,
                        logic::clause_views(cnf.clauses@),
                        model,
                    ),
                }
            } else {
                match r {
                    Ok((o, m)) => m is None && o == (if some_unsat(outcomes@) {
                        Outcome::Unsat
                    } else {
                        Outcome::Unknown
                    }),
                    Err(_) => false,
                }
            }
        }),
{
    let mut outcome = Outcome::Unknown;
    let mut i: usize = 0;
    while i < outcomes.len()
        invariant
            i <= outcomes@.len(),
            instance::loadable(cnf.num_vars, logic::clause_views(cnf.clauses@)),
            forall|k: int| 0 <= k < i ==> !((#[trigger] outcomes@[k]) is Sat),
            outcome == Outcome::Unknown || outcome == Outcome::Unsat,
            outcome == Outcome::Unsat <==> exists|k: int|
                0 <= k < i && (#[trigger] outcomes@[k]) is Unsat,
        decreases outcomes@.len() - i,
    {
        match &outcomes[i] {
            WorkerOutcome::Sat { model, .. } => {
                proof {
                    first_sat_is(outcomes@, i as int);
                }
                let raw: Vec<bool> = read_worker_model(cnf.num_vars, model);
                return match check_model(cnf, raw.as_slice()) {
                    Ok(()) => Ok((Outcome::Sat, Some(raw))),
                    Err(e) => Err(e),
                };
            },
            WorkerOutcome::Unsat { .. } => {
                assert(outcomes@[i as int] is Unsat);
                outcome = Outcome::Unsat;
            },
            WorkerOutcome::Aborted { .. } => {},
        }
        i += 1;
    }
    proof {
        first_sat_is(outcomes@, i as int);
    }
    Ok((outcome, None))
}

// ---------------------------------------------------------------------------
// Traces
// ---------------------------------------------------------------------------

/// What is recorded in the trace of a run.
#[derive(Debug)]
pub enum TraceEvent {
    Phase { name: String },
    SearchSummary { counters: RunCounters },
    /// A model with values for so many variables.
    ModelFragment { size: usize },
    RunFinished { outcome: Outcome },
}

/// The event marks the root phase.
pub open spec fn is_root(e: TraceEvent) -> bool {
    match e {
        TraceEvent::Phase { name } => name@ == "root"@,
        _ => false,
    }
}

/// The trace of a problem: the root phase, the search counters, the model if
/// there is one, and the outcome.
pub fn problem_trace(outcome: Outcome, counters: RunCounters, model: Option<&Vec<bool>>) -> (v: Vec<
    TraceEvent,
>)
    ensures
        ({
            let fragment = outcome == Outcome::Sat && model is Some;
            &&& v@.len() == (if fragment {
                4int
            } else {
                3
            })
            &&& is_root(v@[0])
            &&& v@[1] == (TraceEvent::SearchSummary { counters })
            &&& fragment ==> v@[2] == (TraceEvent::ModelFragment {
                size: (if model->0@.len() == 0 {
                    0int
                } else {
                    model->0@.len() - 1
                }) as usize,
            })
            &&& v@.last() == (TraceEvent::RunFinished { outcome })
        }),
{
    let mut v: Vec<TraceEvent> = Vec::new();
    v.push(TraceEvent::Phase { name: text::copy_str("root") });
    v.push(TraceEvent::SearchSummary { counters });
    if outcome == Outcome::Sat {
        if let Some(raw) = model {
            let size: usize = if raw.len() == 0 {
                0
            } else {
                raw.len() - 1
            };
            v.push(TraceEvent::ModelFragment { size });
        }
    }
    v.push(TraceEvent::RunFinished { outcome });
    v
}

// ---------------------------------------------------------------------------
// Results
// ---------------------------------------------------------------------------

/// Whether the wall-clock limit hit before a verdict.
pub fn timed_out(wall: u128, timeout: u128, outcome: Outcome) -> (b: bool)
    ensures
        b == (wall >= timeout && outcome == Outcome::Unknown),
{
    wall >= timeout && outcome == Outcome::Unknown
}

/// The result of a problem, put together from its parts.
pub fn problem_result(
    solver: &SolverConfig,
    problem: &Problem,
    outcome: Outcome,
    counters: RunCounters,
    wall: u128,
    knowledge: Option<KnowledgeMetrics>,
    baselines: Vec<BaselineResult>,
    trace: Option<String>,
) -> (r: ProblemResult)
    ensures
        r.name@ == problem.name@,
        r.outcome == outcome,
        r.expected == problem.expect,
        r.matches_expected == (match problem.expect {
            Some(Expected::Sat) => outcome == Outcome::Sat,
            Some(Expected::Unsat) => outcome == Outcome::Unsat,
            None => true,
        }),
        r.wall == wall,
        r.timed_out == (wall >= solver.timeout_secs * 1_000_000_000 && outcome == Outcome::Unknown),
        r.conflicts == counters.conflicts,
        r.decisions == counters.decisions,
        r.propagations == counters.propagations,
        r.restarts == counters.restarts,
        r.knowledge == knowledge,
        r.baselines == baselines,
        r.trace == trace,
{
    ProblemResult {
        name: text::copy_str(problem.name.as_str()),
        outcome,
        expected: problem.expect,
        matches_expected: expected_matches(problem.expect, outcome),
        wall,
        timed_out: timed_out(wall, solver.timeout_ns(), outcome),
        conflicts: counters.conflicts,
        decisions: counters.decisions,
        propagations: counters.propagations,
        restarts: counters.restarts,
        knowledge,
        baselines,
        trace,
    }
}

/// The result of a run, put together from those of its problems.
pub fn manifest_run(
    manifest: &Manifest,
    solver_version: String,
    git_revision: Option<String>,
    run_wall: u128,
    problems: Vec<ProblemResult>,
) -> (r: ManifestRun)
    requires
        result::par(
            manifest.problems@.len() as usize,
            problems@,
            (manifest.solver.timeout_secs * 1_000_000_000) as u128,
            10,
        ) <= u128::MAX,
    ensures
        r.schema_version == MANIFEST_SCHEMA_VERSION,
        r.manifest@ == manifest.name@,
        r.solver_version == solver_version,
        match git_revision {
            Some(g) => r.git_revision == g,
            None => r.git_revision@ == "unknown"@,
        },
        r.run_wall == run_wall,
        r.problems == problems,
        r.summary.problems == manifest.problems@.len(),
        r.summary.solved == result::solved(problems@),
        r.summary.unsolved == result::unsolved(manifest.problems@.len() as usize, problems@),
        r.summary.solved_total_ns == result::solved_time(problems@),
        r.summary.timeout_ns == manifest.solver.timeout_secs * 1_000_000_000,
        r.summary.par2_ns == result::par(
            manifest.problems@.len() as usize,
            problems@,
            r.summary.timeout_ns,
            2,
        ),
        r.summary.par10_ns == result::par(
            manifest.problems@.len() as usize,
            problems@,
            r.summary.timeout_ns,
            10,
        ),
{
    let summary = RunSummary::compute(
        manifest.problems.len(),
        problems.as_slice(),
        manifest.solver.timeout_ns(),
    );
    let git_revision = match git_revision {
        Some(g) => g,
        None => text::copy_str("unknown"),
    };
    ManifestRun {
        schema_version: MANIFEST_SCHEMA_VERSION,
        manifest: text::copy_str(manifest.name.as_str()),
        solver_version,
        git_revision,
        run_wall,
        problems,
        summary,
    }
}

} // verus!
