//! Benchmark results and summary scoring (PAR-2 / PAR-10).

use vstd::prelude::*;

use crate::bench::manifest::Expected;
use crate::sat::instance::Outcome;

verus! {

/// Knowledge exchange metrics for a multi-worker run: what actually flowed
/// through the shared bus and past each worker's import gate. Absent for
/// single-worker runs. Lets a reader tell "no sharing benefit" apart from
/// "sharing happened but the knowledge was useless".
#[derive(Clone, Copy, Debug, PartialEq, Eq, Structural)]
pub struct KnowledgeMetrics {
    /// Objects workers exported to the bus (before bus dedup/eviction).
    pub exported: u64,
    /// Objects actually enqueued on the bus (after dedup/eviction).
    pub published: u64,
    /// Objects polled from the bus by workers.
    pub received: u64,
    /// Polled objects applied through a worker's import gate.
    pub applied: u64,
    /// Polled objects buffered awaiting context match.
    pub buffered: u64,
    /// Polled objects discarded (no overlap, duplicate, or low utility).
    pub discarded: u64,
    /// Bus-level aggregates over the whole run.
    pub bus_published: u64,
    pub bus_deduplicated: u64,
    pub bus_evicted: u64,
    pub bus_backpressure: u64,
}

/// Outcome of one external baseline solver on one problem.
#[derive(Debug, Clone)]
pub struct BaselineResult {
    pub name: String,
    pub outcome: Outcome,
    /// Wall time in nanoseconds.
    pub wall: u128,
    pub timed_out: bool,
}

/// Result of solving a single problem.
#[derive(Debug, Clone)]
pub struct ProblemResult {
    pub name: String,
    pub outcome: Outcome,
    pub expected: Option<Expected>,
    /// Whether the outcome matched the pinned expected verdict (if any).
    pub matches_expected: bool,
    /// Wall time spent solving this problem, in nanoseconds.
    pub wall: u128,
    /// True if the wall-clock timeout hit before a verdict.
    pub timed_out: bool,
    pub conflicts: u64,
    pub decisions: u64,
    pub propagations: u64,
    pub restarts: u64,
    /// Knowledge-exchange diagnostics; set on multi-worker runs only.
    pub knowledge: Option<KnowledgeMetrics>,
    /// External baseline results for this problem (empty when no baselines configured).
    pub baselines: Vec<BaselineResult>,
    /// Trace file written for this problem, if requested.
    pub trace: Option<String>,
}

/// Aggregated scoring over the whole run.
#[derive(Clone, Copy, Debug, PartialEq, Eq, Structural)]
pub struct RunSummary {
    pub problems: usize,
    pub solved: usize,
    pub unsolved: usize,
    /// Sum over solved problems of wall time, ns.
    pub solved_total_ns: u128,
    /// PAR-2 score in ns (unsolved penalized at 2x the timeout).
    pub par2_ns: u128,
    /// PAR-10 score in ns (unsolved penalized at 10x the timeout).
    pub par10_ns: u128,
    /// Wall-clock timeout used for penalty computation.
    pub timeout_ns: u128,
}

/// How many results have a verdict.
pub open spec fn solved(results: Seq<ProblemResult>) -> nat
    decreases results.len(),
{
    if results.len() == 0 {
        0
    } else {
        solved(results.drop_last()) + (if results.last().outcome != Outcome::Unknown {
            1nat
        } else {
            0
        })
    }
}

/// The wall time of the results that have a verdict.
pub open spec fn solved_time(results: Seq<ProblemResult>) -> nat
    decreases results.len(),
{
    if results.len() == 0 {
        0
    } else {
        solved_time(results.drop_last()) + (if results.last().outcome != Outcome::Unknown {
            results.last().wall as nat
        } else {
            0
        })
    }
}

/// Problems without a verdict.
pub open spec fn unsolved(problems: usize, results: Seq<ProblemResult>) -> nat {
    if problems > solved(results) {
        (problems - solved(results)) as nat
    } else {
        0
    }
}

/// The time of the solved problems, and for each unsolved one so many times
/// the timeout.
pub open spec fn par(
    problems: usize,
    results: Seq<ProblemResult>,
    timeout: u128,
    factor: nat,
) -> nat {
    solved_time(results) + factor * (timeout * unsolved(problems, results)) as nat
}

proof fn solved_grows(results: Seq<ProblemResult>, n: int)
    requires
        0 <= n <= results.len(),
    ensures
        solved(results.take(n)) <= n,
        solved_time(results.take(n)) <= solved_time(results),
    decreases results.len() - n, n,
{
    if n > 0 {
        assert(results.take(n).drop_last() =~= results.take(n - 1));
        solved_counts(results.take(n));
    }
    if n < results.len() {
        solved_grows(results, n + 1);
        assert(results.take(n + 1).drop_last() =~= results.take(n));
    } else {
        assert(results.take(n) =~= results);
    }
}

proof fn solved_counts(results: Seq<ProblemResult>)
    ensures
        solved(results) <= results.len(),
    decreases results.len(),
{
    if results.len() > 0 {
        solved_counts(results.drop_last());
    }
}

/// A higher penalty never lowers the score, and a score is never below the
/// time of the solved problems.
pub proof fn penalties_order(
    problems: usize,
    results: Seq<ProblemResult>,
    timeout: u128,
    low: nat,
    high: nat,
)
    requires
        low <= high,
    ensures
        solved_time(results) <= par(problems, results, timeout, low) <= par(
            problems,
            results,
            timeout,
            high,
        ),
{
    let t = (timeout * unsolved(problems, results)) as nat;
    assert(0 <= timeout * unsolved(problems, results)) by (nonlinear_arith)
        requires
            timeout >= 0,
            unsolved(problems, results) >= 0,
    ;
    assert(low * t <= high * t) by (nonlinear_arith)
        requires
            low <= high,
            t >= 0,
    ;
    assert(0 <= low * t) by (nonlinear_arith)
        requires
            low >= 0,
            t >= 0,
    ;
}

impl RunSummary {
    /// The number of solved problems and their time, if the scores can be
    /// represented.
    fn totals(problems: usize, results: &[ProblemResult], timeout: u128) -> (r: Option<
        (usize, u128),
    >)
        ensures
            match r {
                Some((n, t)) => n == solved(results@) && t == solved_time(results@) && par(
                    problems,
                    results@,
                    timeout,
                    10,
                ) <= u128::MAX,
                None => par(problems, results@, timeout, 10) > u128::MAX,
            },
    {
        let mut count: usize = 0;
        let mut total: u128 = 0;
        let mut i: usize = 0;
        assert(results@.take(0) =~= seq![]);
        while i < results.len()
            invariant
                i <= results@.len(),
                count == solved(results@.take(i as int)),
                total == solved_time(results@.take(i as int)),
            decreases results@.len() - i,
        {
            proof {
                assert(results@.take(i + 1).drop_last() =~= results@.take(i as int));
                solved_grows(results@, i + 1);
                penalties_order(problems, results@, timeout, 0, 10);
            }
            if results[i].outcome != Outcome::Unknown {
                count += 1;
                match total.checked_add(results[i].wall) {
                    Some(t) => {
                        total = t;
                    },
                    None => {
                        return None;
                    },
                }
            }
            i += 1;
        }
        assert(results@.take(i as int) =~= results@);
        let open: u128 = if problems > count {
            (problems - count) as u128
        } else {
            0
        };
        let ghost u = unsolved(problems, results@);
        assert(open == u);
        match timeout.checked_mul(open) {
            Some(penalty) => match penalty.checked_mul(10) {
                Some(p) => match total.checked_add(p) {
                    Some(_) => Some((count, total)),
                    None => None,
                },
                None => None,
            },
            None => None,
        }
    }

    /// Whether the scores over the given results can be represented.
    pub fn fits(problems: usize, results: &[ProblemResult], timeout: u128) -> (b: bool)
        ensures
            b == (par(problems, results@, timeout, 10) <= u128::MAX),
    {
        Self::totals(problems, results, timeout).is_some()
    }

    /// Compute PAR-2 and PAR-10 over the given results with the given timeout.
    pub fn compute(problems: usize, results: &[ProblemResult], timeout: u128) -> (s: Self)
        requires
            par(problems, results@, timeout, 10) <= u128::MAX,
        ensures
            s.problems == problems,
            s.solved == solved(results@),
            s.unsolved == unsolved(problems, results@),
            s.solved_total_ns == solved_time(results@),
            s.par2_ns == par(problems, results@, timeout, 2),
            s.par10_ns == par(problems, results@, timeout, 10),
            s.timeout_ns == timeout,
    {
        let (solved, total): (usize, u128) = Self::totals(problems, results, timeout).unwrap();
        let unsolved: usize = if problems > solved {
            problems - solved
        } else {
            0
        };
        proof {
            penalties_order(problems, results@, timeout, 2, 10);
            penalties_order(problems, results@, timeout, 1, 10);
        }
        let penalty: u128 = timeout * unsolved as u128;
        RunSummary {
            problems,
            solved,
            unsolved,
            solved_total_ns: total,
            par2_ns: total + penalty * 2,
            par10_ns: total + penalty * 10,
            timeout_ns: timeout,
        }
    }
}

/// The complete, machine-readable result of a benchmark run.
#[derive(Debug, Clone)]
pub struct ManifestRun {
    pub schema_version: u32,
    pub manifest: String,
    pub solver_version: String,
    pub git_revision: String,
    /// Wall-clock duration of the whole run, in nanoseconds.
    pub run_wall: u128,
    pub problems: Vec<ProblemResult>,
    pub summary: RunSummary,
}

} // verus!
