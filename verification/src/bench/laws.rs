//! What the scores and verdicts of a benchmark run mean.

use vstd::prelude::*;

#[allow(unused_imports)]
use crate::bench::result;
use crate::bench::result::ProblemResult;
#[allow(unused_imports)]
use crate::bench::run;
use crate::bench::run::WorkerOutcome;
#[allow(unused_imports)]
use crate::sat::instance::Outcome;
#[allow(unused_imports)]
use crate::text;
use crate::text::Text;

verus! {

// ---------------------------------------------------------------------------
// Scores
// ---------------------------------------------------------------------------

/// A problem counts as solved if it has a verdict.
pub open spec fn is_solved(r: ProblemResult) -> bool {
    r.outcome == Outcome::Sat || r.outcome == Outcome::Unsat
}

/// Before anything is solved every problem costs the penalty.
pub proof fn nothing_solved(problems: usize, timeout: u128, factor: nat)
    ensures
        result::solved(Seq::empty()) == 0,
        result::solved_time(Seq::empty()) == 0,
        result::unsolved(problems, Seq::empty()) == problems,
        result::par(problems, Seq::empty(), timeout, factor) == factor * (timeout * problems),
{
    let none = Seq::<ProblemResult>::empty();
    assert(result::solved(none) == 0);
    assert(result::solved_time(none) == 0);
    assert(0 <= timeout * problems) by (nonlinear_arith)
        requires
            timeout >= 0,
            problems >= 0,
    ;
}

/// What one more result does to a score: a problem that was solved costs its
/// time in place of the penalty, and one that was not changes nothing.
pub proof fn solving_replaces_the_penalty(
    problems: usize,
    results: Seq<ProblemResult>,
    r: ProblemResult,
    timeout: u128,
    factor: nat,
)
    requires
        result::solved(results) < problems,
    ensures
        ({
            let more = results.push(r);
            &&& is_solved(r) ==> {
                &&& result::solved(more) == result::solved(results) + 1
                &&& result::unsolved(problems, more) == result::unsolved(problems, results) - 1
                &&& result::solved_time(more) == result::solved_time(results) + r.wall
                &&& result::par(problems, more, timeout, factor) + factor * timeout
                    == result::par(problems, results, timeout, factor) + r.wall
            }
            &&& !is_solved(r) ==> {
                &&& result::solved(more) == result::solved(results)
                &&& result::unsolved(problems, more) == result::unsolved(problems, results)
                &&& result::solved_time(more) == result::solved_time(results)
                &&& result::par(problems, more, timeout, factor) == result::par(
                    problems,
                    results,
                    timeout,
                    factor,
                )
            }
            &&& result::solved(results) + result::unsolved(problems, results) == problems
        }),
{
    let more = results.push(r);
    assert(more.drop_last() =~= results);
    let u = result::unsolved(problems, results);
    assert(timeout * u >= 0) by (nonlinear_arith)
        requires
            timeout >= 0,
            u >= 0,
    ;
    if is_solved(r) {
        let w = result::unsolved(problems, more);
        assert(w == u - 1);
        assert(timeout * w >= 0) by (nonlinear_arith)
            requires
                timeout >= 0,
                w >= 0,
        ;
        assert(timeout * u == timeout * w + timeout) by (nonlinear_arith)
            requires
                u == w + 1,
        ;
        assert(factor * (timeout * u) == factor * (timeout * w) + factor * timeout)
            by (nonlinear_arith)
            requires
                timeout * u == timeout * w + timeout,
        ;
    }
}

// ---------------------------------------------------------------------------
// Verdicts
// ---------------------------------------------------------------------------

/// The same letters, whatever their case.
pub open spec fn same_letters(a: Text, b: Text) -> bool {
    &&& a.len() == b.len()
    &&& forall|i: int|
        0 <= i < a.len() ==> #[trigger] a[i] == b[i] || ('A' as int <= a[i] as int <= 'Z' as int
            && a[i] as int + 32 == b[i] as int)
}

/// The words of a verdict.
pub open spec fn says(t: Text) -> Outcome {
    if same_letters(t, "s satisfiable"@) || same_letters(t, "sat"@) {
        Outcome::Sat
    } else if same_letters(t, "s unsatisfiable"@) || same_letters(t, "unsat"@) {
        Outcome::Unsat
    } else {
        Outcome::Unknown
    }
}

proof fn lowered_is(t: Text, w: Text)
    requires
        forall|i: int| 0 <= i < w.len() ==> !('A' as int <= #[trigger] w[i] as int <= 'Z' as int),
    ensures
        run::lowered(t) == w <==> same_letters(t, w),
{
    let l = run::lowered(t);
    if same_letters(t, w) {
        assert forall|i: int| 0 <= i < l.len() implies l[i] == w[i] by {
            assert(l[i] == run::lower(t[i]));
            assert(!('A' as int <= w[i] as int <= 'Z' as int));
            if t[i] != w[i] {
                assert(((t[i] as int) + 32) as char == w[i]);
            }
        }
        assert(l =~= w);
    }
    if l == w {
        assert forall|i: int| 0 <= i < t.len() implies #[trigger] t[i] == w[i] || ('A' as int
            <= t[i] as int <= 'Z' as int && t[i] as int + 32 == w[i] as int) by {
            assert(l[i] == run::lower(t[i]));
        }
    }
}

/// A line gives the verdict that its words say, whatever their case and
/// whatever white space stands round them.
pub proof fn lines_say_verdicts(before: Text, t: Text, after: Text)
    requires
        text::blank(before),
        text::blank(after),
        t.len() > 0,
        !text::is_space(t[0]),
        !text::is_space(t.last()),
    ensures
        run::line_verdict(before + t + after) == says(t),
{
    text::trimming_removes_blanks(before, t, after);
    reveal_strlit("s satisfiable");
    reveal_strlit("s unsatisfiable");
    reveal_strlit("sat");
    reveal_strlit("unsat");
    lowered_is(t, "s satisfiable"@);
    lowered_is(t, "s unsatisfiable"@);
    lowered_is(t, "sat"@);
    lowered_is(t, "unsat"@);
}

/// An answer gives the verdict of its first line that says one.
pub proof fn first_verdict_counts(before: Seq<Text>, line: Text, after: Seq<Text>)
    requires
        forall|i: int|
            0 <= i < before.len() ==> run::line_verdict(#[trigger] before[i]) == Outcome::Unknown,
    ensures
        run::lines_verdict(before) == Outcome::Unknown,
        run::line_verdict(line) != Outcome::Unknown ==> run::lines_verdict(
            before + seq![line] + after,
        ) == run::line_verdict(line),
    decreases before.len(),
{
    let all = before + seq![line] + after;
    if before.len() == 0 {
        assert(all[0] == line);
    } else {
        let rest = before.skip(1);
        assert forall|i: int| 0 <= i < rest.len() implies run::line_verdict(#[trigger] rest[i])
            == Outcome::Unknown by {
            assert(rest[i] == before[i + 1]);
        }
        first_verdict_counts(rest, line, after);
        assert(all.skip(1) =~= rest + seq![line] + after);
        assert(all[0] == before[0]);
    }
}

// ---------------------------------------------------------------------------
// Pools
// ---------------------------------------------------------------------------

/// The counters of a pool are the sums over its workers.
pub proof fn counters_add_up(a: Seq<WorkerOutcome>, b: Seq<WorkerOutcome>)
    ensures
        ({
            let s = run::totals(a);
            let t = run::totals(b);
            let u = run::totals(a + b);
            &&& u.conflicts == s.conflicts + t.conflicts
            &&& u.decisions == s.decisions + t.decisions
            &&& u.propagations == s.propagations + t.propagations
            &&& u.restarts == s.restarts + t.restarts
            &&& u.exported == s.exported + t.exported
            &&& u.published == s.published + t.published
            &&& u.received == s.received + t.received
            &&& u.applied == s.applied + t.applied
            &&& u.buffered == s.buffered + t.buffered
            &&& u.discarded == s.discarded + t.discarded
        }),
    decreases b.len(),
{
    if b.len() == 0 {
        assert(a + b =~= a);
    } else {
        counters_add_up(a, b.drop_last());
        assert((a + b).drop_last() =~= a + b.drop_last());
    }
}

/// The counters of one worker.
pub proof fn counters_of_one(o: WorkerOutcome)
    ensures
        ({
            let s = match o {
                WorkerOutcome::Sat { stats, .. } => stats,
                WorkerOutcome::Unsat { stats } => stats,
                WorkerOutcome::Aborted { stats } => stats,
            };
            let t = run::totals(seq![o]);
            &&& t.conflicts == s.conflicts
            &&& t.decisions == s.decisions
            &&& t.propagations == s.propagations
            &&& t.restarts == s.restarts
            &&& t.exported == s.exported
            &&& t.published == s.published
            &&& t.received == s.received
            &&& t.applied == s.applied
            &&& t.buffered == s.buffered
            &&& t.discarded == s.discarded
        }),
{
    let one = seq![o];
    assert(one.drop_last() =~= Seq::<WorkerOutcome>::empty());
    assert(run::totals(one.drop_last()).conflicts == 0);
}

/// The model that counts is the first one found.
pub proof fn first_model_counts(outcomes: Seq<WorkerOutcome>)
    ensures
        0 <= run::first_sat(outcomes) <= outcomes.len(),
        forall|k: int|
            0 <= k < run::first_sat(outcomes) ==> !((#[trigger] outcomes[k]) is Sat),
        run::first_sat(outcomes) < outcomes.len() ==> outcomes[run::first_sat(outcomes)] is Sat,
    decreases outcomes.len(),
{
    if outcomes.len() > 0 && !(outcomes[0] is Sat) {
        let rest = outcomes.skip(1);
        first_model_counts(rest);
        assert forall|k: int| 0 <= k < run::first_sat(outcomes) implies !((
        #[trigger] outcomes[k]) is Sat) by {
            if k > 0 {
                assert(outcomes[k] == rest[k - 1]);
            }
        }
    }
}

/// A variable has the value that the worker gave it, and is false if it was
/// given none.
pub proof fn worker_models_are_read(num_vars: u32, assignments: Seq<Option<bool>>, v: int)
    requires
        1 <= v <= num_vars < u32::MAX,
    ensures
        run::worker_values(num_vars, assignments).len() == num_vars + 1,
        !run::worker_values(num_vars, assignments)[0],
        v < assignments.len() && assignments[v] is Some ==> run::worker_values(
            num_vars,
            assignments,
        )[v] == assignments[v]->0,
        v >= assignments.len() || assignments[v] is None ==> !run::worker_values(
            num_vars,
            assignments,
        )[v],
{
}

} // verus!
