//! What a reader finds in the printed reports: the verdict on the first line,
//! and behind it, line by line, an assignment that satisfies the clauses.

use vstd::prelude::*;

#[allow(unused_imports)]
use crate::akx::logic;
#[allow(unused_imports)]
use crate::api::solver::SmtStatus;
#[allow(unused_imports)]
use crate::certify::model::model_valuation;
#[allow(unused_imports)]
use crate::certify::proof_text;
#[allow(unused_imports)]
use crate::cli;
#[allow(unused_imports)]
use crate::cli::SolveReport;
#[allow(unused_imports)]
use crate::sat::instance;
#[allow(unused_imports)]
use crate::sat::instance::Outcome;
#[allow(unused_imports)]
use crate::text;
#[allow(unused_imports)]
use crate::text::Text;

verus! {

/// Some words run together.
pub open spec fn run_together(w: Seq<Text>) -> Text
    decreases w.len(),
{
    if w.len() == 0 {
        Seq::empty()
    } else {
        w[0] + run_together(w.drop_first())
    }
}

/// The literal that a value line names: the number behind the word `v`, whose
/// sign may stand apart from its digits.
pub open spec fn named_literal(line: Text) -> Option<int> {
    let w = text::words(line);
    if w.len() >= 2 && w[0] == "v"@ {
        text::parsed_i32(run_together(w.skip(1)))
    } else {
        None
    }
}

spec fn value_line(values: Seq<bool>, v: nat) -> Text {
    "v "@ + (if values[v as int] {
        ""@
    } else {
        "-"@
    }) + " "@ + text::decimal(v)
}

spec fn value_lines(values: Seq<bool>, n: nat) -> Seq<Text> {
    Seq::new(n, |i: int| value_line(values, (i + 1) as nat))
}

proof fn values_are_lines(values: Seq<bool>, n: nat)
    ensures
        cli::values_text(values, n) == proof_text::unlines(value_lines(values, n)),
    decreases n,
{
    let lines = value_lines(values, n);
    if n == 0 {
        assert(lines =~= Seq::<Text>::empty());
        assert(cli::values_text(values, n) =~= proof_text::unlines(lines));
    } else {
        let m = (n - 1) as nat;
        values_are_lines(values, m);
        assert(lines =~= value_lines(values, m).push(value_line(values, n)));
        proof_text::unlines_push(value_lines(values, m), value_line(values, n));
        reveal_strlit("\n");
        assert("\n"@ =~= seq!['\n']);
        assert(cli::values_text(values, n) =~= proof_text::unlines(lines));
    }
}

/// What a value line says.
proof fn value_line_reads(values: Seq<bool>, v: nat)
    requires
        0 < v <= i32::MAX,
    ensures
        named_literal(value_line(values, v)) == Some(
            if values[v as int] {
                v as int
            } else {
                -(v as int)
            },
        ),
        proof_text::no_feed(value_line(values, v)),
{
    let line = value_line(values, v);
    let d = text::decimal(v);
    proof_text::decimal_int_solid(v as int);
    assert(text::decimal_int(v as int) == d);
    reveal_strlit("v ");
    reveal_strlit("v");
    reveal_strlit("");
    reveal_strlit("-");
    reveal_strlit(" ");
    assert("v"@ =~= seq!['v']);
    assert("-"@ =~= seq!['-']);
    let none = Seq::<char>::empty();
    let gap = seq![' '];
    let two = seq![' ', ' '];
    assert(text::words(none) =~= Seq::<Text>::empty());
    if values[v as int] {
        assert(line =~= none + seq!['v'] + (two + d));
        text::words_are_cut_at_blanks(none, seq!['v'], two + d);
        text::words_are_cut_at_blanks(two, d, none);
        assert(two + d + none =~= two + d);
        let w = text::words(line);
        assert(w =~= seq![seq!['v'], d]);
        assert(w.skip(1) =~= seq![d]);
        assert(w.skip(1).drop_first() =~= Seq::<Text>::empty());
        assert(run_together(w.skip(1).drop_first()) =~= none);
        assert(run_together(w.skip(1)) =~= d);
        text::i32_round_trip(v as i32);
    } else {
        assert(line =~= none + seq!['v'] + (gap + seq!['-'] + (gap + d)));
        text::words_are_cut_at_blanks(none, seq!['v'], gap + seq!['-'] + (gap + d));
        text::words_are_cut_at_blanks(gap, seq!['-'], gap + d);
        text::words_are_cut_at_blanks(gap, d, none);
        assert(gap + d + none =~= gap + d);
        let w = text::words(line);
        assert(w =~= seq![seq!['v'], seq!['-'], d]);
        let t = w.skip(1);
        assert(t =~= seq![seq!['-'], d]);
        assert(t.drop_first() =~= seq![d]);
        assert(t.drop_first().drop_first() =~= Seq::<Text>::empty());
        assert(run_together(t.drop_first().drop_first()) =~= none);
        assert(run_together(t.drop_first()) =~= d);
        assert(run_together(t) =~= seq!['-'] + d);
        text::i32_round_trip((-(v as int)) as i32);
        assert(text::decimal_int(-(v as int)) =~= seq!['-'] + d);
    }
    assert forall|i: int| 0 <= i < line.len() implies #[trigger] line[i] != '\n' by {
        let lead = line.len() - d.len();
        if i >= lead {
            assert(line[i] == d[i - lead]);
        }
    }
}

/// The lines of a text whose first line is a verdict line.
proof fn report_lines(first: Text, verdict: Text, lines: Seq<Text>)
    requires
        verdict == first.push('\n'),
        proof_text::no_feed(first),
        forall|i: int| 0 <= i < lines.len() ==> proof_text::no_feed(#[trigger] lines[i]),
    ensures
        text::pieces(verdict + proof_text::unlines(lines), '\n') == seq![first] + lines.push(
            Seq::empty(),
        ),
{
    let all = seq![first] + lines;
    assert forall|i: int| 0 <= i < all.len() implies proof_text::no_feed(#[trigger] all[i]) by {
        if i > 0 {
            assert(all[i] == lines[i - 1]);
        }
    }
    proof_text::pieces_unlines(all);
    assert(all.drop_first() =~= lines);
    assert(proof_text::unlines(all) =~= verdict + proof_text::unlines(lines));
    assert(all.push(Seq::empty()) =~= seq![first] + lines.push(Seq::empty()));
}

proof fn verdict_lines()
    ensures
        cli::verdict_text(Outcome::Sat) == "s SATISFIABLE"@.push('\n'),
        cli::verdict_text(Outcome::Unsat) == "s UNSATISFIABLE"@.push('\n'),
        cli::verdict_text(Outcome::Unknown) == "s UNKNOWN"@.push('\n'),
        proof_text::no_feed("s SATISFIABLE"@),
        proof_text::no_feed("s UNSATISFIABLE"@),
        proof_text::no_feed("s UNKNOWN"@),
{
    reveal_strlit("s SATISFIABLE\n");
    reveal_strlit("s UNSATISFIABLE\n");
    reveal_strlit("s UNKNOWN\n");
    reveal_strlit("s SATISFIABLE");
    reveal_strlit("s UNSATISFIABLE");
    reveal_strlit("s UNKNOWN");
    assert("s SATISFIABLE\n"@ =~= "s SATISFIABLE"@.push('\n'));
    assert("s UNSATISFIABLE\n"@ =~= "s UNSATISFIABLE"@.push('\n'));
    assert("s UNKNOWN\n"@ =~= "s UNKNOWN"@.push('\n'));
}

/// A clause holds a literal that some line names, at the place of its variable.
pub open spec fn satisfied_by_lines(clause: Seq<i32>, lines: Seq<Text>) -> bool {
    exists|j: int|
        0 <= j < clause.len() && named_literal(
            lines[logic::dimacs_var(#[trigger] clause[j])],
        ) == Some(clause[j] as int)
}

/// The printed report of a solve, read line by line. The first line is the
/// verdict, and the exit code goes with it. For a satisfiable instance, line
/// `v` names the literal of variable `v` that the model makes true, for every
/// variable, and every clause of the instance holds one of these literals. For
/// any other instance there is nothing else.
pub proof fn printed_report(
    r: SolveReport,
    num_vars: u32,
    clauses: Seq<Seq<i32>>,
    certify: bool,
)
    requires
        instance::loadable(num_vars, clauses),
        cli::report_ok(r, num_vars, clauses, certify),
    ensures
        ({
            let lines = text::pieces(r.output@, '\n');
            &&& lines.last() == Seq::<char>::empty()
            &&& match r.outcome {
                Outcome::Sat => {
                    &&& r.code == 10
                    &&& lines.len() == num_vars + 2
                    &&& lines[0] == "s SATISFIABLE"@
                    &&& r.model is Some
                    &&& forall|v: int|
                        1 <= v <= num_vars ==> named_literal(#[trigger] lines[v]) == Some(
                            if r.model->0@[v] {
                                v
                            } else {
                                -v
                            },
                        )
                    &&& forall|k: int|
                        0 <= k < clauses.len() ==> satisfied_by_lines(#[trigger] clauses[k], lines)
                },
                Outcome::Unsat => {
                    &&& r.code == 20
                    &&& lines.len() == 2
                    &&& lines[0] == "s UNSATISFIABLE"@
                    &&& logic::dimacs_unsatisfiable(clauses)
                },
                Outcome::Unknown => {
                    &&& r.code == 0
                    &&& lines.len() == 2
                    &&& lines[0] == "s UNKNOWN"@
                },
            }
        }),
{
    verdict_lines();
    let none = Seq::<Text>::empty();
    assert(proof_text::unlines(none) =~= Seq::<char>::empty());
    match r.outcome {
        Outcome::Sat => {
            let m = r.model->0@;
            let n = num_vars as nat;
            let values = value_lines(m, n);
            values_are_lines(m, n);
            assert forall|i: int| 0 <= i < values.len() implies proof_text::no_feed(
                #[trigger] values[i],
            ) by {
                value_line_reads(m, (i + 1) as nat);
            }
            report_lines("s SATISFIABLE"@, cli::verdict_text(Outcome::Sat), values);
            let lines = text::pieces(r.output@, '\n');
            assert forall|v: int| 1 <= v <= num_vars implies named_literal(#[trigger] lines[v])
                == Some(
                if m[v] {
                    v
                } else {
                    -v
                },
            ) by {
                assert(lines[v] == values[v - 1]);
                value_line_reads(m, v as nat);
            }
            assert forall|k: int| 0 <= k < clauses.len() implies satisfied_by_lines(
                #[trigger] clauses[k],
                lines,
            ) by {
                let c = clauses[k];
                assert(logic::dimacs_clause_holds(model_valuation(m), c));
                assert(instance::clause_ok(num_vars, c));
                let j = choose|j: int|
                    0 <= j < c.len() && logic::dimacs_holds(model_valuation(m), #[trigger] c[j]);
                let v = logic::dimacs_var(c[j]);
                assert(c[j] != 0);
                assert(1 <= v <= num_vars);
                assert(named_literal(lines[v]) == Some(
                    if m[v] {
                        v
                    } else {
                        -v
                    },
                ));
            }
        },
        Outcome::Unsat => {
            assert(r.output@ =~= cli::verdict_text(r.outcome) + proof_text::unlines(none));
            report_lines("s UNSATISFIABLE"@, cli::verdict_text(r.outcome), none);
        },
        Outcome::Unknown => {
            assert(r.output@ =~= cli::verdict_text(r.outcome) + proof_text::unlines(none));
            report_lines("s UNKNOWN"@, cli::verdict_text(r.outcome), none);
        },
    }
}

// ---------------------------------------------------------------------------
// SMT-LIB
// ---------------------------------------------------------------------------

/// The line that defines a constant.
pub open spec fn definition(pair: (Text, Text)) -> Text {
    "  (define-fun "@ + pair.0 + " () "@ + pair.1 + ")"@
}

proof fn definitions_are_lines(pairs: Seq<(Text, Text)>, n: nat)
    requires
        n <= pairs.len(),
    ensures
        cli::define_text(pairs, n) == proof_text::unlines(
            pairs.take(n as int).map_values(|p: (Text, Text)| definition(p)),
        ),
    decreases n,
{
    let lines = pairs.take(n as int).map_values(|p: (Text, Text)| definition(p));
    if n == 0 {
        assert(lines =~= Seq::<Text>::empty());
        assert(cli::define_text(pairs, n) =~= proof_text::unlines(lines));
    } else {
        let m = (n - 1) as nat;
        definitions_are_lines(pairs, m);
        let before = pairs.take(m as int).map_values(|p: (Text, Text)| definition(p));
        assert(lines =~= before.push(definition(pairs[n - 1])));
        proof_text::unlines_push(before, definition(pairs[n - 1]));
        reveal_strlit(")\n");
        reveal_strlit(")");
        assert(")\n"@ =~= ")"@.push('\n'));
        assert(cli::define_text(pairs, n) =~= proof_text::unlines(lines));
    }
}

/// The printed answer of the theory solver, read line by line: the verdict,
/// and for a satisfiable script with a model a line for each constant, in
/// order, between `(model` and `)`.
pub proof fn printed_answer(status: SmtStatus, pairs: Seq<(Text, Text)>)
    requires
        forall|i: int|
            0 <= i < pairs.len() ==> proof_text::no_feed((#[trigger] pairs[i]).0)
                && proof_text::no_feed(pairs[i].1),
    ensures
        ({
            let lines = text::pieces(cli::answer_text(status, pairs), '\n');
            &&& lines.last() == Seq::<char>::empty()
            &&& lines[0] == match status {
                SmtStatus::Sat => "s SATISFIABLE"@,
                SmtStatus::Unsat => "s UNSATISFIABLE"@,
                SmtStatus::Unknown => "s UNKNOWN"@,
            }
            &&& if status == SmtStatus::Sat && pairs.len() > 0 {
                &&& lines.len() == pairs.len() + 4
                &&& lines[1] == "(model"@
                &&& forall|i: int|
                    0 <= i < pairs.len() ==> #[trigger] lines[i + 2] == "  (define-fun "@
                        + pairs[i].0 + " () "@ + pairs[i].1 + ")"@
                &&& lines[pairs.len() as int + 2] == ")"@
            } else {
                lines.len() == 2
            }
        }),
{
    verdict_lines();
    let none = Seq::<Text>::empty();
    assert(proof_text::unlines(none) =~= Seq::<char>::empty());
    let verdict = cli::verdict_text(cli::outcome_of(status));
    let first = match status {
        SmtStatus::Sat => "s SATISFIABLE"@,
        SmtStatus::Unsat => "s UNSATISFIABLE"@,
        SmtStatus::Unknown => "s UNKNOWN"@,
    };
    if status == SmtStatus::Sat && pairs.len() > 0 {
        let defs = pairs.map_values(|p: (Text, Text)| definition(p));
        definitions_are_lines(pairs, pairs.len());
        assert(pairs.take(pairs.len() as int) =~= pairs);
        reveal_strlit("(model\n");
        reveal_strlit("(model");
        reveal_strlit(")\n");
        reveal_strlit(")");
        reveal_strlit("  (define-fun ");
        reveal_strlit(" () ");
        assert("(model\n"@ =~= "(model"@.push('\n'));
        assert(")\n"@ =~= ")"@.push('\n'));
        let lines = seq!["(model"@] + defs + seq![")"@];
        let open = seq!["(model"@] + defs;
        assert(lines =~= open.push(")"@));
        proof_text::unlines_push(open, ")"@);
        assert(open.drop_first() =~= defs);
        assert(proof_text::unlines(lines) =~= "(model\n"@ + cli::define_text(pairs, pairs.len())
            + ")\n"@);
        assert forall|i: int| 0 <= i < lines.len() implies proof_text::no_feed(
            #[trigger] lines[i],
        ) by {
            if 0 < i < lines.len() - 1 {
                let p = pairs[i - 1];
                assert(lines[i] == definition(p));
                let a = "  (define-fun "@;
                let b = " () "@;
                let t = definition(p);
                assert forall|j: int| 0 <= j < t.len() implies #[trigger] t[j] != '\n' by {
                    if j < a.len() {
                        assert(t[j] == a[j]);
                    } else if j < a.len() + p.0.len() {
                        assert(t[j] == p.0[j - a.len()]);
                    } else if j < a.len() + p.0.len() + b.len() {
                        assert(t[j] == b[j - a.len() - p.0.len()]);
                    } else if j < a.len() + p.0.len() + b.len() + p.1.len() {
                        assert(t[j] == p.1[j - a.len() - p.0.len() - b.len()]);
                    } else {
                        assert(t[j] == ')');
                    }
                }
            }
        }
        report_lines(first, verdict, lines);
        assert(cli::answer_text(status, pairs) =~= verdict + proof_text::unlines(lines));
        let all = text::pieces(cli::answer_text(status, pairs), '\n');
        assert forall|i: int| 0 <= i < pairs.len() implies #[trigger] all[i + 2]
            == "  (define-fun "@ + pairs[i].0 + " () "@ + pairs[i].1 + ")"@ by {
            assert(all[i + 2] == lines[i + 1]);
            assert(lines[i + 1] == defs[i]);
        }
    } else {
        assert(cli::answer_text(status, pairs) =~= verdict + proof_text::unlines(none));
        report_lines(first, verdict, none);
    }
}

/// The exit codes of the answers of the theory solver, and of its failures.
pub proof fn exit_codes(status: SmtStatus, f: cli::SmtFailure)
    ensures
        cli::code_of(cli::outcome_of(status)) == match status {
            SmtStatus::Sat => 10i32,
            SmtStatus::Unsat => 20,
            SmtStatus::Unknown => 0,
        },
        cli::failure_text(f).0 == match f {
            cli::SmtFailure::UnsupportedLogic(_) => 0i32,
            _ => 3,
        },
{
}

} // verus!
