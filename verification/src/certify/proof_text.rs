//! Writing proof files, and reading back what was written.

use vstd::prelude::*;

use crate::certify::proof_file::ProofFile;
use crate::text;
#[allow(unused_imports)]
use crate::akx::logic;
#[allow(unused_imports)]
use crate::certify::model;
#[allow(unused_imports)]
use crate::certify::proof_file;
#[allow(unused_imports)]
use crate::certify::proof_file::{Contents, Draft, Fault, Status};

verus! {

/// The texts with one space between any two of them.
pub open spec fn spaced(toks: Seq<text::Text>) -> text::Text
    decreases toks.len(),
{
    if toks.len() == 0 {
        Seq::empty()
    } else if toks.len() == 1 {
        toks[0]
    } else {
        toks[0] + seq![' '] + spaced(toks.drop_first())
    }
}

/// The decimal forms of integers.
pub open spec fn decimals(c: Seq<int>) -> Seq<text::Text> {
    c.map_values(|x: int| text::decimal_int(x))
}

pub open spec fn ints(c: Seq<i32>) -> Seq<int> {
    c.map_values(|x: i32| x as int)
}

/// The lines, each ended by a line feed.
pub open spec fn unlines(lines: Seq<text::Text>) -> text::Text
    decreases lines.len(),
{
    if lines.len() == 0 {
        Seq::empty()
    } else {
        lines[0] + seq!['\n'] + unlines(lines.drop_first())
    }
}

/// A clause line: the literals, then a zero.
pub open spec fn clause_line(c: Seq<i32>) -> text::Text {
    spaced(decimals(ints(c))) + " 0"@
}

/// A proof step line.
pub open spec fn step_line(c: Seq<i32>) -> text::Text {
    if c.len() == 0 {
        "d 0"@
    } else {
        "d "@ + spaced(decimals(ints(c))) + " 0"@
    }
}

pub open spec fn clause_lines(cs: Seq<Seq<i32>>) -> Seq<text::Text> {
    cs.map_values(|c: Seq<i32>| clause_line(c))
}

pub open spec fn step_lines(cs: Seq<Seq<i32>>) -> Seq<text::Text> {
    cs.map_values(|c: Seq<i32>| step_line(c))
}

/// The comment line, the header line and the clause lines.
pub open spec fn problem_lines(num_vars: u32, clauses: Seq<Seq<i32>>) -> Seq<text::Text> {
    seq![
        "c reasonmesh proof v0.2"@,
        "p cnf "@ + spaced(
            seq![text::decimal(num_vars as nat), text::decimal(clauses.len())],
        ),
    ] + clause_lines(clauses)
}

/// The lines of an UNSAT proof file.
pub open spec fn unsat_lines(
    num_vars: u32,
    clauses: Seq<Seq<i32>>,
    steps: Seq<Seq<i32>>,
) -> Seq<text::Text> {
    problem_lines(num_vars, clauses) + seq!["s UNSAT"@] + step_lines(steps)
}

/// The literals that a model makes true. A missing value counts as false.
pub open spec fn model_ints(num_vars: u32, values: Seq<bool>) -> Seq<int> {
    Seq::new(
        num_vars as nat,
        |i: int|
            if i + 1 < values.len() && values[i + 1] {
                i + 1
            } else {
                -(i + 1)
            },
    )
}

/// The lines of a SAT proof file.
pub open spec fn sat_lines(
    num_vars: u32,
    clauses: Seq<Seq<i32>>,
    values: Seq<bool>,
) -> Seq<text::Text> {
    problem_lines(num_vars, clauses) + seq![
        "s SAT"@,
        "v "@ + spaced(decimals(model_ints(num_vars, values))) + " 0"@,
    ]
}

pub(crate) proof fn spaced_push(toks: Seq<text::Text>, t: text::Text)
    ensures
        spaced(toks.push(t)) == (if toks.len() == 0 {
            t
        } else {
            spaced(toks) + seq![' '] + t
        }),
    decreases toks.len(),
{
    let all = toks.push(t);
    if toks.len() == 0 {
    } else if toks.len() == 1 {
        assert(all.drop_first() =~= seq![t]);
        assert(spaced(all.drop_first()) == t);
    } else {
        assert(all.drop_first() =~= toks.drop_first().push(t));
        spaced_push(toks.drop_first(), t);
        assert(spaced(all) =~= spaced(toks) + seq![' '] + t);
    }
}

pub(crate) proof fn unlines_push(lines: Seq<text::Text>, l: text::Text)
    ensures
        unlines(lines.push(l)) == unlines(lines) + l + seq!['\n'],
    decreases lines.len(),
{
    let all = lines.push(l);
    if lines.len() == 0 {
        assert(all.drop_first() =~= Seq::<text::Text>::empty());
        assert(unlines(all.drop_first()) =~= Seq::<char>::empty());
        assert(unlines(all) =~= unlines(lines) + l + seq!['\n']);
    } else {
        assert(all.drop_first() =~= lines.drop_first().push(l));
        unlines_push(lines.drop_first(), l);
        assert(unlines(all) =~= unlines(lines) + l + seq!['\n']);
    }
}

/// Append the literals of a clause, separated by spaces.
fn push_spaced(out: &mut String, c: &Vec<i32>)
    ensures
        final(out)@ == old(out)@ + spaced(decimals(ints(c@))),
{
    let ghost toks = decimals(ints(c@));
    let mut i: usize = 0;
    assert(toks.take(0) =~= Seq::<text::Text>::empty());
    assert(out@ =~= old(out)@ + spaced(toks.take(0)));
    while i < c.len()
        invariant
            i <= c@.len(),
            toks == decimals(ints(c@)),
            out@ == old(out)@ + spaced(toks.take(i as int)),
        decreases c@.len() - i,
    {
        let ghost before = out@;
        if i > 0 {
            out.push(' ');
        }
        text::push_decimal_i64(out, c[i] as i64);
        proof {
            assert(toks[i as int] == text::decimal_int(c@[i as int] as int));
            assert(toks.take(i + 1) =~= toks.take(i as int).push(toks[i as int]));
            spaced_push(toks.take(i as int), toks[i as int]);
            assert(out@ =~= old(out)@ + spaced(toks.take(i + 1)));
        }
        i += 1;
    }
    assert(toks.take(toks.len() as int) =~= toks);
}

/// Append the comment line, the header line and the clause lines.
fn push_problem(out: &mut String, num_vars: u32, clauses: &[Vec<i32>])
    requires
        old(out)@.len() == 0,
    ensures
        final(out)@ == unlines(problem_lines(num_vars, logic::clause_views(clauses@))),
{
    let ghost all = logic::clause_views(clauses@);
    let ghost lines = problem_lines(num_vars, all);
    let ghost nums = seq![text::decimal(num_vars as nat), text::decimal(all.len())];
    out.append("c reasonmesh proof v0.2");
    out.push('\n');
    proof {
        unlines_push(Seq::empty(), "c reasonmesh proof v0.2"@);
        assert(lines.take(1) =~= Seq::empty().push("c reasonmesh proof v0.2"@));
        assert(unlines(Seq::<text::Text>::empty()) =~= Seq::<char>::empty());
        assert(out@ =~= unlines(lines.take(1)));
    }
    out.append("p cnf ");
    text::push_decimal(out, num_vars as u64);
    out.push(' ');
    text::push_decimal(out, clauses.len() as u64);
    out.push('\n');
    proof {
        assert(nums.drop_first() =~= seq![nums[1]]);
        assert(spaced(nums.drop_first()) == nums[1]);
        assert(spaced(nums) =~= nums[0] + seq![' '] + nums[1]);
        unlines_push(lines.take(1), lines[1]);
        assert(lines.take(2) =~= lines.take(1).push(lines[1]));
        assert(out@ =~= unlines(lines.take(2)));
    }
    let mut i: usize = 0;
    while i < clauses.len()
        invariant
            i <= clauses@.len(),
            all == logic::clause_views(clauses@),
            lines == problem_lines(num_vars, all),
            out@ == unlines(lines.take(i + 2)),
        decreases clauses@.len() - i,
    {
        push_spaced(out, &clauses[i]);
        out.append(" 0");
        out.push('\n');
        proof {
            assert(all[i as int] == clauses@[i as int]@);
            assert(lines[i + 2] == clause_lines(all)[i as int]);
            assert(lines[i + 2] == clause_line(all[i as int]));
            assert(lines.take(i + 3) =~= lines.take(i + 2).push(lines[i + 2]));
            unlines_push(lines.take(i + 2), lines[i + 2]);
            assert(out@ =~= unlines(lines.take(i + 3)));
        }
        i += 1;
    }
    assert(lines.take(i + 2) =~= lines);
}

impl ProofFile {
    /// Serialize an UNSAT proof (original clauses + DRUP steps) to the
    /// `.rmproof` text format. Suitable for writing to a file.
    pub fn write_unsat(num_vars: u32, clauses: &[Vec<i32>], drup: &[Vec<i32>]) -> (out: String)
        ensures
            out@ == unlines(
                unsat_lines(
                    num_vars,
                    logic::clause_views(clauses@),
                    logic::clause_views(drup@),
                ),
            ),
    {
        let ghost all = logic::clause_views(clauses@);
        let ghost steps = logic::clause_views(drup@);
        let ghost lines = unsat_lines(num_vars, all, steps);
        let ghost base = problem_lines(num_vars, all).len() as int;
        let mut out: String = String::new();
        push_problem(&mut out, num_vars, clauses);
        proof {
            assert(lines.take(base) =~= problem_lines(num_vars, all));
        }
        out.append("s UNSAT");
        out.push('\n');
        proof {
            assert(lines.take(base + 1) =~= lines.take(base).push("s UNSAT"@));
            unlines_push(lines.take(base), "s UNSAT"@);
            assert(out@ =~= unlines(lines.take(base + 1)));
        }
        let mut i: usize = 0;
        while i < drup.len()
            invariant
                i <= drup@.len(),
                steps == logic::clause_views(drup@),
                lines == unsat_lines(num_vars, all, steps),
                base == problem_lines(num_vars, all).len(),
                out@ == unlines(lines.take(base + 1 + i)),
            decreases drup@.len() - i,
        {
            let ghost before = out@;
            let step: &Vec<i32> = &drup[i];
            if step.len() == 0 {
                out.append("d 0");
            } else {
                out.append("d ");
                push_spaced(&mut out, step);
                out.append(" 0");
            }
            out.push('\n');
            proof {
                let l = lines[base + 1 + i];
                assert(steps[i as int] == step@);
                assert(l == step_lines(steps)[i as int]);
                assert(l == step_line(step@));
                assert(lines.take(base + 2 + i) =~= lines.take(base + 1 + i).push(l));
                unlines_push(lines.take(base + 1 + i), l);
                assert(out@ =~= before + l + seq!['\n']);
            }
            i += 1;
        }
        assert(lines.take(base + 1 + i) =~= lines);
        out
    }

    /// Serialize a SAT proof (original clauses + model) to the `.rmproof`
    /// text format.
    pub fn write_sat(num_vars: u32, clauses: &[Vec<i32>], values: &[bool]) -> (out: String)
        ensures
            out@ == unlines(sat_lines(num_vars, logic::clause_views(clauses@), values@)),
    {
        let ghost all = logic::clause_views(clauses@);
        let ghost lines = sat_lines(num_vars, all, values@);
        let ghost base = problem_lines(num_vars, all).len() as int;
        let mut out: String = String::new();
        push_problem(&mut out, num_vars, clauses);
        proof {
            assert(lines.take(base) =~= problem_lines(num_vars, all));
        }
        out.append("s SAT");
        out.push('\n');
        proof {
            assert(lines.take(base + 1) =~= lines.take(base).push("s SAT"@));
            unlines_push(lines.take(base), "s SAT"@);
            assert(out@ =~= unlines(lines.take(base + 1)));
        }
        let ghost before = out@;
        out.append("v ");
        let ghost toks = decimals(model_ints(num_vars, values@));
        let mut i: u32 = 0;
        assert(toks.take(0) =~= Seq::<text::Text>::empty());
        assert(out@ =~= before + "v "@ + spaced(toks.take(0)));
        while i < num_vars
            invariant
                i <= num_vars,
                toks == decimals(model_ints(num_vars, values@)),
                out@ == before + "v "@ + spaced(toks.take(i as int)),
            decreases num_vars - i,
        {
            let ghost now = out@;
            if i > 0 {
                out.push(' ');
            }
            let v: u32 = i + 1;
            let value: bool = (v as usize) < values.len() && values[v as usize];
            if value {
                text::push_decimal_i64(&mut out, v as i64);
            } else {
                text::push_decimal_i64(&mut out, -(v as i64));
            }
            proof {
                let t = toks[i as int];
                assert(t == text::decimal_int(model_ints(num_vars, values@)[i as int]));
                assert(toks.take(i + 1) =~= toks.take(i as int).push(t));
                spaced_push(toks.take(i as int), t);
                assert(out@ =~= before + "v "@ + spaced(toks.take(i + 1)));
            }
            i += 1;
        }
        out.append(" 0");
        out.push('\n');
        proof {
            assert(toks.take(num_vars as int) =~= toks);
            let l = lines[base + 1];
            assert(lines.take(base + 2) =~= lines.take(base + 1).push(l));
            unlines_push(lines.take(base + 1), l);
            assert(out@ =~= before + l + seq!['\n']);
            assert(lines.take(base + 2) =~= lines);
        }
        out
    }
}

// ---------------------------------------------------------------------------
// Reading back
// ---------------------------------------------------------------------------

/// A text without white space at either end is its own trimmed form.
pub(crate) proof fn trimmed_is(s: text::Text)
    requires
        s.len() > 0,
        !text::is_space(s[0]),
        !text::is_space(s.last()),
    ensures
        text::trimmed(s) == s,
{
}

/// A non-empty text without white space.
pub open spec fn solid(t: text::Text) -> bool {
    t.len() > 0 && forall|i: int| 0 <= i < t.len() ==> !text::is_space(#[trigger] t[i])
}

/// Words separated by single spaces are read back one by one.
pub(crate) proof fn words_spaced(toks: Seq<text::Text>)
    requires
        forall|i: int| 0 <= i < toks.len() ==> solid(#[trigger] toks[i]),
    ensures
        text::words(spaced(toks)) == toks,
    decreases toks.len(),
{
    let s = spaced(toks);
    if toks.len() == 0 {
        assert(text::words(s) =~= toks);
    } else {
        let t = toks[0];
        let rest = toks.drop_first();
        assert(solid(t));
        assert forall|i: int| 0 <= i < rest.len() implies solid(#[trigger] rest[i]) by {
            assert(rest[i] == toks[i + 1]);
        }
        words_spaced(rest);
        assert(s[0] == t[0]);
        assert(!text::is_space(t[0]));
        assert(text::trim_start(s) == s);
        assert forall|j: int| 0 <= j < t.len() implies !text::is_space(#[trigger] s[j]) by {
            assert(s[j] == t[j]);
        }
        if toks.len() > 1 {
            assert(s[t.len() as int] == ' ');
        }
        text::word_len_is(s, t.len() as int);
        assert(s.take(t.len() as int) =~= t);
        let after = s.skip(t.len() as int);
        if toks.len() == 1 {
            assert(after =~= Seq::<char>::empty());
            assert(text::trim_start(after) == after);
            assert(text::words(after) =~= Seq::<text::Text>::empty());
            assert(rest =~= Seq::<text::Text>::empty());
        } else {
            assert(after[0] == ' ');
            assert(after.drop_first() =~= spaced(rest));
            words_leading_space(after);
        }
        assert(text::words(s) =~= toks);
    }
}

/// Leading white space does not matter for the words.
pub(crate) proof fn words_leading_space(s: text::Text)
    requires
        s.len() > 0,
        text::is_space(s[0]),
    ensures
        text::words(s) == text::words(s.drop_first()),
{
    assert(text::trim_start(s) == text::trim_start(s.drop_first()));
}

/// Lines without line feeds are read back one by one.
pub(crate) proof fn pieces_unlines(lines: Seq<text::Text>)
    requires
        forall|i: int| 0 <= i < lines.len() ==> no_feed(#[trigger] lines[i]),
    ensures
        text::pieces(unlines(lines), '\n') == lines.push(Seq::empty()),
    decreases lines.len(),
{
    let s = unlines(lines);
    if lines.len() == 0 {
        assert(text::find(s, '\n') == 0);
        assert(text::pieces(s, '\n') =~= lines.push(Seq::empty()));
    } else {
        let l = lines[0];
        let rest = lines.drop_first();
        assert(no_feed(l));
        assert forall|i: int| 0 <= i < rest.len() implies no_feed(#[trigger] rest[i]) by {
            assert(rest[i] == lines[i + 1]);
        }
        pieces_unlines(rest);
        assert(s[l.len() as int] == '\n');
        assert forall|j: int| 0 <= j < l.len() implies s[j] != '\n' by {
            assert(s[j] == l[j]);
        }
        text::find_is(s, '\n', l.len() as int);
        assert(s.take(l.len() as int) =~= l);
        assert(s.skip(l.len() as int + 1) =~= unlines(rest));
        assert(text::pieces(s, '\n') =~= lines.push(Seq::empty()));
    }
}

pub open spec fn no_feed(t: text::Text) -> bool {
    forall|i: int| 0 <= i < t.len() ==> #[trigger] t[i] != '\n'
}

/// Decimal forms are solid and start with a digit or a minus sign.
pub(crate) proof fn decimal_int_solid(n: int)
    ensures
        solid(text::decimal_int(n)),
        no_feed(text::decimal_int(n)),
        text::is_digit(text::decimal_int(n)[0]) || text::decimal_int(n)[0] == '-',
{
    let d = text::decimal_int(n);
    let m = (if n < 0 { -n } else { n }) as nat;
    text::decimal_round_trip(m);
    assert forall|i: int| 0 <= i < d.len() implies !text::is_space(#[trigger] d[i]) && d[i]
        != '\n' by {
        if n < 0 {
            if i > 0 {
                assert(d[i] == text::decimal(m)[i - 1]);
                assert(text::is_digit(text::decimal(m)[i - 1]));
            }
        } else {
            assert(text::is_digit(text::decimal(m)[i]));
        }
    }
}

pub(crate) proof fn zero_word()
    ensures
        solid("0"@),
        "0"@ == text::decimal_int(0),
        " 0"@ =~= seq![' '] + "0"@,
        no_feed("0"@),
        "0"@.len() == 1,
{
    reveal_strlit("0");
    reveal_strlit(" 0");
    assert("0"@ =~= seq!['0']);
    assert(text::decimal_int(0) =~= seq!['0']);
}

/// The text of a line of numbers ended by a zero, and its words.
pub(crate) proof fn number_line(c: Seq<int>)
    requires
        c.len() > 0,
    ensures
        ({
            let line = spaced(decimals(c)) + " 0"@;
            &&& text::words(line) == decimals(c).push("0"@)
            &&& line.len() >= 3
            &&& text::is_digit(line[0]) || line[0] == '-'
            &&& !text::is_space(line.last())
            &&& no_feed(line)
        }),
{
    let toks = decimals(c);
    zero_word();
    let all = toks.push("0"@);
    assert forall|i: int| 0 <= i < all.len() implies solid(#[trigger] all[i]) by {
        if i < toks.len() {
            decimal_int_solid(c[i]);
            assert(all[i] == text::decimal_int(c[i]));
        }
    }
    words_spaced(all);
    spaced_push(toks, "0"@);
    let line = spaced(toks) + " 0"@;
    assert(line =~= spaced(all));
    decimal_int_solid(c[0]);
    assert(toks[0] == text::decimal_int(c[0]));
    spaced_head(toks);
    assert(line[0] == toks[0][0]);
    assert forall|i: int| 0 <= i < all.len() implies no_feed(#[trigger] all[i]) by {
        if i < toks.len() {
            decimal_int_solid(c[i]);
            assert(all[i] == text::decimal_int(c[i]));
        }
    }
    spaced_no_feed(all);
    assert(line.last() == "0"@.last());
    assert("0"@[0] == text::decimal_int(0)[0]);
}

pub(crate) proof fn spaced_head(toks: Seq<text::Text>)
    requires
        toks.len() > 0,
        toks[0].len() > 0,
    ensures
        spaced(toks).len() > 0,
        spaced(toks)[0] == toks[0][0],
{
}

pub(crate) proof fn spaced_no_feed(toks: Seq<text::Text>)
    requires
        forall|i: int| 0 <= i < toks.len() ==> no_feed(#[trigger] toks[i]),
    ensures
        no_feed(spaced(toks)),
    decreases toks.len(),
{
    if toks.len() > 1 {
        let rest = toks.drop_first();
        assert forall|i: int| 0 <= i < rest.len() implies no_feed(#[trigger] rest[i]) by {
            assert(rest[i] == toks[i + 1]);
        }
        spaced_no_feed(rest);
        assert(no_feed(toks[0]));
    } else if toks.len() == 1 {
        assert(no_feed(toks[0]));
    }
}

/// Nonzero literals followed by a zero are read back.
proof fn lits_of_decimals(c: Seq<i32>)
    requires
        forall|i: int| 0 <= i < c.len() ==> #[trigger] c[i] != 0,
    ensures
        proof_file::lits_of(decimals(ints(c)).push("0"@)) == Some(c),
    decreases c.len(),
{
    let w = decimals(ints(c)).push("0"@);
    if c.len() == 0 {
        assert(w[0] == "0"@);
        assert(proof_file::lits_of(w) == Some(Seq::<i32>::empty()));
        assert(c =~= Seq::<i32>::empty());
    } else {
        let rest = c.drop_first();
        assert forall|i: int| 0 <= i < rest.len() implies #[trigger] rest[i] != 0 by {
            assert(rest[i] == c[i + 1]);
        }
        lits_of_decimals(rest);
        assert(w.drop_first() =~= decimals(ints(rest)).push("0"@));
        assert(w[0] == text::decimal_int(c[0] as int));
        text::i32_round_trip(c[0]);
        text::i32_round_trip(0);
        zero_word();
        assert(w[0] != "0"@);
        assert(seq![c[0]] + rest =~= c);
    }
}

/// Nonzero model literals followed by a zero are read back.
proof fn model_lits_of_decimals(c: Seq<i32>)
    requires
        forall|i: int| 0 <= i < c.len() ==> #[trigger] c[i] != 0,
    ensures
        proof_file::model_lits_of(decimals(ints(c)).push("0"@)) == Ok::<Seq<i32>, text::Text>(c),
    decreases c.len(),
{
    let w = decimals(ints(c)).push("0"@);
    zero_word();
    text::i32_round_trip(0);
    if c.len() == 0 {
        assert(w[0] == "0"@);
        assert(c =~= Seq::<i32>::empty());
    } else {
        let rest = c.drop_first();
        assert forall|i: int| 0 <= i < rest.len() implies #[trigger] rest[i] != 0 by {
            assert(rest[i] == c[i + 1]);
        }
        model_lits_of_decimals(rest);
        assert(w.drop_first() =~= decimals(ints(rest)).push("0"@));
        assert(w[0] == text::decimal_int(c[0] as int));
        text::i32_round_trip(c[0]);
        assert(seq![c[0]] + rest =~= c);
    }
}

/// What the fixed words of the format look like.
pub(crate) proof fn format_words()
    ensures
        "c"@ =~= seq!['c'],
        "p cnf "@ =~= seq!['p', ' ', 'c', 'n', 'f', ' '],
        "s SAT"@ =~= seq!['s', ' ', 'S', 'A', 'T'],
        "s UNSAT"@ =~= seq!['s', ' ', 'U', 'N', 'S', 'A', 'T'],
        "v "@ =~= seq!['v', ' '],
        "d "@ =~= seq!['d', ' '],
        "0"@ =~= seq!['0'],
        " 0"@ =~= seq![' ', '0'],
{
    reveal_strlit("c");
    reveal_strlit("p cnf ");
    reveal_strlit("s SAT");
    reveal_strlit("s UNSAT");
    reveal_strlit("v ");
    reveal_strlit("d ");
    reveal_strlit("0");
    reveal_strlit(" 0");
}

/// A text that starts with another character does not have the prefix.
pub(crate) proof fn not_prefix(p: text::Text, line: text::Text)
    requires
        p.len() > 0,
        line.len() > 0,
        p[0] != line[0],
    ensures
        !p.is_prefix_of(line),
        p != line,
{
}

/// The effect of the line of an empty clause.
proof fn empty_clause_line_read(d: Draft, c: Seq<i32>)
    requires
        d.num_vars is Some,
        d.status is None,
        c.len() == 0,
    ensures
        proof_file::with_line(d, text::trimmed(clause_line(c))) == Ok::<Draft, text::Text>(
            Draft { clauses: d.clauses.push(c), ..d },
        ),
        no_feed(clause_line(c)),
{
    let line = clause_line(c);
    let zero = "0"@;
    format_words();
    zero_word();
    lits_of_decimals(c);
    let none = Seq::<text::Text>::empty();
    assert(decimals(ints(c)) =~= none);
    assert(spaced(none) =~= Seq::<char>::empty());
    assert(line =~= seq![' ', '0']);
    assert(line.drop_first() =~= zero);
    assert(text::trim_start(line) == text::trim_start(zero));
    assert(text::trim_start(zero) == zero);
    trimmed_is(zero);
    not_prefix("c"@, zero);
    not_prefix("p cnf "@, zero);
    not_prefix("s SAT"@, zero);
    not_prefix("s UNSAT"@, zero);
    not_prefix("v "@, zero);
    not_prefix("d "@, zero);
    let one = seq![zero];
    assert forall|i: int| 0 <= i < one.len() implies solid(#[trigger] one[i]) by {}
    words_spaced(one);
    assert(decimals(ints(c)).push(zero) =~= one);
}

/// The effect of a clause line.
proof fn clause_line_read(d: Draft, c: Seq<i32>)
    requires
        d.num_vars is Some,
        d.status is None,
        forall|i: int| 0 <= i < c.len() ==> #[trigger] c[i] != 0,
    ensures
        proof_file::with_line(d, text::trimmed(clause_line(c))) == Ok::<Draft, text::Text>(
            Draft { clauses: d.clauses.push(c), ..d },
        ),
        no_feed(clause_line(c)),
{
    lits_of_decimals(c);
    format_words();
    if c.len() == 0 {
        empty_clause_line_read(d, c);
    } else {
        let line = clause_line(c);
        number_line(ints(c));
        trimmed_is(line);
        not_prefix("c"@, line);
        not_prefix("p cnf "@, line);
        not_prefix("s SAT"@, line);
        not_prefix("s UNSAT"@, line);
        not_prefix("v "@, line);
        not_prefix("d "@, line);
        assert(line != "0"@);
    }
}

/// The effect of a proof step line.
proof fn step_line_read(d: Draft, c: Seq<i32>)
    requires
        forall|i: int| 0 <= i < c.len() ==> #[trigger] c[i] != 0,
    ensures
        proof_file::with_line(d, text::trimmed(step_line(c))) == Ok::<Draft, text::Text>(
            Draft { drup: d.drup.push(c), ..d },
        ),
        no_feed(step_line(c)),
{
    let line = step_line(c);
    format_words();
    if c.len() == 0 {
        reveal_strlit("d 0");
        zero_word();
        trimmed_is(line);
        not_prefix("c"@, line);
        not_prefix("p cnf "@, line);
        not_prefix("s SAT"@, line);
        not_prefix("s UNSAT"@, line);
        not_prefix("v "@, line);
        assert(line.take(2) =~= "d "@);
        assert("d "@.is_prefix_of(line));
        assert(line.skip("d "@.len() as int) =~= "0"@);
        let one = seq!["0"@];
        assert forall|i: int| 0 <= i < one.len() implies solid(#[trigger] one[i]) by {}
        words_spaced(one);
        assert(c =~= Seq::<i32>::empty());
    } else {
        number_line(ints(c));
        lits_of_decimals(c);
        let tail = spaced(decimals(ints(c))) + " 0"@;
        assert(line =~= "d "@ + tail);
        assert(line[0] == 'd');
        assert(line.last() == tail.last());
        trimmed_is(line);
        not_prefix("c"@, line);
        not_prefix("p cnf "@, line);
        not_prefix("s SAT"@, line);
        not_prefix("s UNSAT"@, line);
        not_prefix("v "@, line);
        assert(line.take(2) =~= "d "@);
        assert("d "@.is_prefix_of(line));
        assert(line.skip("d "@.len() as int) =~= tail);
        assert forall|i: int| 0 <= i < line.len() implies #[trigger] line[i] != '\n' by {
            if i >= 2 {
                assert(line[i] == tail[i - 2]);
            }
        }
    }
}

/// The effects of the fixed lines.
pub(crate) proof fn fixed_lines_read(d: Draft)
    ensures
        proof_file::with_line(d, text::trimmed("c reasonmesh proof v0.2"@)) == Ok::<
            Draft,
            text::Text,
        >(d),
        no_feed("c reasonmesh proof v0.2"@),
        proof_file::with_line(d, text::trimmed("s SAT"@)) == Ok::<Draft, text::Text>(
            Draft { status: Some(Status::Sat), ..d },
        ),
        no_feed("s SAT"@),
        proof_file::with_line(d, text::trimmed("s UNSAT"@)) == Ok::<Draft, text::Text>(
            Draft { status: Some(Status::Unsat), ..d },
        ),
        no_feed("s UNSAT"@),
        proof_file::with_line(d, text::trimmed(Seq::<char>::empty())) == Ok::<Draft, text::Text>(
            d,
        ),
{
    format_words();
    reveal_strlit("c reasonmesh proof v0.2");
    let c = "c reasonmesh proof v0.2"@;
    trimmed_is(c);
    assert(c.take(1) =~= "c"@);
    assert("c"@.is_prefix_of(c));
    trimmed_is("s SAT"@);
    not_prefix("c"@, "s SAT"@);
    not_prefix("p cnf "@, "s SAT"@);
    trimmed_is("s UNSAT"@);
    not_prefix("c"@, "s UNSAT"@);
    not_prefix("p cnf "@, "s UNSAT"@);
    assert("s SAT"@.len() != "s UNSAT"@.len());
    let e = Seq::<char>::empty();
    assert(text::trim_start(e) == e);
    assert(text::trim_end(e) == e);
}

/// The effect of the header line.
proof fn header_line_read(d: Draft, num_vars: u32, count: nat)
    requires
        count <= u32::MAX,
    ensures
        ({
            let line = "p cnf "@ + spaced(
                seq![text::decimal(num_vars as nat), text::decimal(count)],
            );
            &&& proof_file::with_line(d, text::trimmed(line)) == Ok::<Draft, text::Text>(
                Draft { num_vars: Some(num_vars), ..d },
            )
            &&& no_feed(line)
        }),
{
    let a = text::decimal(num_vars as nat);
    let b = text::decimal(count);
    let toks = seq![a, b];
    let line = "p cnf "@ + spaced(toks);
    decimal_int_solid(num_vars as int);
    decimal_int_solid(count as int);
    assert(text::decimal_int(num_vars as int) == a);
    assert(text::decimal_int(count as int) == b);
    assert forall|i: int| 0 <= i < toks.len() implies solid(#[trigger] toks[i]) && no_feed(
        toks[i],
    ) by {}
    words_spaced(toks);
    spaced_no_feed(toks);
    text::u32_round_trip(num_vars);
    text::u32_round_trip(count as u32);
    format_words();
    assert(toks.drop_first() =~= seq![b]);
    assert(spaced(toks.drop_first()) == b);
    assert(spaced(toks) =~= a + seq![' '] + b);
    assert(line.last() == b.last());
    assert(line[0] == 'p');
    trimmed_is(line);
    not_prefix("c"@, line);
    assert(line.take(6) =~= "p cnf "@);
    assert("p cnf "@.is_prefix_of(line));
    assert(line.skip("p cnf "@.len() as int) =~= spaced(toks));
    assert forall|i: int| 0 <= i < line.len() implies #[trigger] line[i] != '\n' by {
        if i >= 6 {
            assert(line[i] == spaced(toks)[i - 6]);
        }
    }
}

/// Reading some lines and then others.
pub(crate) proof fn with_lines_append(d: Draft, a: Seq<text::Text>, b: Seq<text::Text>, before: nat, mid: Draft)
    requires
        proof_file::with_lines(d, a, before) == Ok::<Draft, Fault>(mid),
    ensures
        proof_file::with_lines(d, a + b, before) == proof_file::with_lines(
            mid,
            b,
            before + a.len(),
        ),
    decreases a.len(),
{
    if a.len() == 0 {
        assert(a + b =~= b);
    } else {
        assert((a + b).drop_first() =~= a.drop_first() + b);
        let next = proof_file::with_line(d, text::trimmed(a[0]))->Ok_0;
        with_lines_append(next, a.drop_first(), b, before + 1, mid);
    }
}

/// Reading one more line.
proof fn with_lines_push(d: Draft, a: Seq<text::Text>, l: text::Text, before: nat, mid: Draft)
    requires
        proof_file::with_lines(d, a, before) == Ok::<Draft, Fault>(mid),
        proof_file::with_line(mid, text::trimmed(l)) is Ok,
    ensures
        proof_file::with_lines(d, a.push(l), before) == Ok::<Draft, Fault>(
            proof_file::with_line(mid, text::trimmed(l))->Ok_0,
        ),
{
    assert(a.push(l) =~= a + seq![l]);
    with_lines_append(d, a, seq![l], before, mid);
    let next = proof_file::with_line(mid, text::trimmed(l))->Ok_0;
    assert(seq![l].drop_first() =~= Seq::<text::Text>::empty());
    assert(proof_file::with_lines(next, seq![l].drop_first(), before + a.len() + 1) == Ok::<
        Draft,
        Fault,
    >(next));
}

/// Literals of a proof file are written as nonzero numbers.
pub open spec fn nonzero(cs: Seq<Seq<i32>>) -> bool {
    forall|i: int, j: int| 0 <= i < cs.len() && 0 <= j < cs[i].len() ==> #[trigger] cs[i][j] != 0
}

/// What the comment, the header and the first `k` clause lines leave.
proof fn problem_read(num_vars: u32, clauses: Seq<Seq<i32>>, k: int)
    requires
        0 <= k <= clauses.len(),
        clauses.len() <= u32::MAX,
        nonzero(clauses),
    ensures
        proof_file::with_lines(
            proof_file::empty_draft(),
            problem_lines(num_vars, clauses).take(k + 2),
            0,
        ) == Ok::<Draft, Fault>(
            Draft {
                num_vars: Some(num_vars),
                clauses: clauses.take(k),
                ..proof_file::empty_draft()
            },
        ),
        forall|i: int|
            0 <= i < k + 2 ==> no_feed(#[trigger] problem_lines(num_vars, clauses)[i]),
    decreases k,
{
    let lines = problem_lines(num_vars, clauses);
    let d0 = proof_file::empty_draft();
    if k == 0 {
        fixed_lines_read(d0);
        header_line_read(d0, num_vars, clauses.len());
        let none = Seq::<text::Text>::empty();
        assert(proof_file::with_lines(d0, none, 0) == Ok::<Draft, Fault>(d0));
        with_lines_push(d0, none, lines[0], 0, d0);
        with_lines_push(d0, none.push(lines[0]), lines[1], 0, d0);
        assert(lines.take(2) =~= none.push(lines[0]).push(lines[1]));
        assert(clauses.take(0) =~= Seq::<Seq<i32>>::empty());
    } else {
        problem_read(num_vars, clauses, k - 1);
        let d = Draft { num_vars: Some(num_vars), clauses: clauses.take(k - 1), ..d0 };
        let c = clauses[k - 1];
        assert(lines[k + 1] == clause_lines(clauses)[k - 1]);
        assert(lines[k + 1] == clause_line(c));
        assert forall|i: int| 0 <= i < c.len() implies #[trigger] c[i] != 0 by {
            assert(clauses[k - 1][i] != 0);
        }
        clause_line_read(d, c);
        with_lines_push(d0, lines.take(k + 1), lines[k + 1], 0, d);
        assert(lines.take(k + 2) =~= lines.take(k + 1).push(lines[k + 1]));
        assert(clauses.take(k) =~= clauses.take(k - 1).push(c));
    }
}

/// What the lines of an UNSAT proof up to the first `k` steps leave.
proof fn unsat_read(num_vars: u32, clauses: Seq<Seq<i32>>, steps: Seq<Seq<i32>>, k: int)
    requires
        0 <= k <= steps.len(),
        clauses.len() <= u32::MAX,
        nonzero(clauses),
        nonzero(steps),
    ensures
        proof_file::with_lines(
            proof_file::empty_draft(),
            unsat_lines(num_vars, clauses, steps).take(clauses.len() + 3 + k),
            0,
        ) == Ok::<Draft, Fault>(
            Draft {
                num_vars: Some(num_vars),
                clauses,
                status: Some(Status::Unsat),
                drup: steps.take(k),
                ..proof_file::empty_draft()
            },
        ),
        forall|i: int|
            0 <= i < clauses.len() + 3 + k ==> no_feed(
                #[trigger] unsat_lines(num_vars, clauses, steps)[i],
            ),
    decreases k,
{
    let n = clauses.len() as int;
    let lines = unsat_lines(num_vars, clauses, steps);
    let head = problem_lines(num_vars, clauses);
    let d0 = proof_file::empty_draft();
    if k == 0 {
        problem_read(num_vars, clauses, n);
        let d = Draft { num_vars: Some(num_vars), clauses, ..d0 };
        assert(clauses.take(n) =~= clauses);
        assert(head.take(n + 2) =~= head);
        fixed_lines_read(d);
        with_lines_push(d0, head, "s UNSAT"@, 0, d);
        assert(lines.take(n + 3) =~= head.push("s UNSAT"@));
        assert(steps.take(0) =~= Seq::<Seq<i32>>::empty());
        assert forall|i: int| 0 <= i < n + 3 implies no_feed(#[trigger] lines[i]) by {
            if i < n + 2 {
                assert(lines[i] == head[i]);
            }
        }
    } else {
        unsat_read(num_vars, clauses, steps, k - 1);
        let d = Draft {
            num_vars: Some(num_vars),
            clauses,
            status: Some(Status::Unsat),
            drup: steps.take(k - 1),
            ..d0
        };
        let c = steps[k - 1];
        let l = lines[n + 2 + k];
        assert(l == step_lines(steps)[k - 1]);
        assert(l == step_line(c));
        assert forall|i: int| 0 <= i < c.len() implies #[trigger] c[i] != 0 by {
            assert(steps[k - 1][i] != 0);
        }
        step_line_read(d, c);
        with_lines_push(d0, lines.take(n + 2 + k), l, 0, d);
        assert(lines.take(n + 3 + k) =~= lines.take(n + 2 + k).push(l));
        assert(steps.take(k) =~= steps.take(k - 1).push(c));
    }
}

/// Reading back an UNSAT proof file gives what was written: the variables,
/// the clauses, the status and the proof steps. Literals are nonzero, and the
/// number of clauses fits the header.
pub proof fn unsat_round_trip(num_vars: u32, clauses: Seq<Seq<i32>>, steps: Seq<Seq<i32>>)
    requires
        clauses.len() <= u32::MAX,
        nonzero(clauses),
        nonzero(steps),
    ensures
        proof_file::contents_of(unlines(unsat_lines(num_vars, clauses, steps))) == Ok::<
            Contents,
            Fault,
        >(
            Contents {
                num_vars,
                clauses,
                status: Status::Unsat,
                model: Seq::new(proof_file::model_size(num_vars), |i: int| false),
                drup: steps,
            },
        ),
{
    let lines = unsat_lines(num_vars, clauses, steps);
    let d0 = proof_file::empty_draft();
    unsat_read(num_vars, clauses, steps, steps.len() as int);
    assert(lines.take(clauses.len() as int + 3 + steps.len()) =~= lines);
    assert(steps.take(steps.len() as int) =~= steps);
    let d = Draft {
        num_vars: Some(num_vars),
        clauses,
        status: Some(Status::Unsat),
        drup: steps,
        ..d0
    };
    pieces_unlines(lines);
    fixed_lines_read(d);
    with_lines_push(d0, lines, Seq::empty(), 0, d);
    let lits = Seq::<i32>::empty();
    assert(d.model_lits =~= lits);
    assert forall|j: int| !(#[trigger] model::first_out_of_range(num_vars, d.model_lits, j)) by {}
}

/// The truth values that a model gives to the declared variables.
pub open spec fn declared_values(num_vars: u32, values: Seq<bool>) -> Seq<bool> {
    Seq::new(
        (num_vars + 1) as nat,
        |i: int| 0 < i < values.len() && values[i],
    )
}

/// Making the literals of a model true gives the model back.
proof fn with_model_lits(num_vars: u32, values: Seq<bool>, lits: Seq<i32>, k: int)
    requires
        num_vars <= i32::MAX,
        num_vars < usize::MAX,
        0 <= k <= num_vars,
        lits.len() == num_vars,
        ints(lits) == model_ints(num_vars, values),
    ensures
        ({
            let got = proof_file::with_lits(
                Seq::new(proof_file::model_size(num_vars), |i: int| false),
                lits.take(k),
            );
            &&& got.len() == num_vars + 1
            &&& forall|i: int|
                0 <= i <= k ==> #[trigger] got[i] == declared_values(num_vars, values)[i]
            &&& forall|i: int| k < i <= num_vars ==> !#[trigger] got[i]
        }),
    decreases k,
{
    if k > 0 {
        with_model_lits(num_vars, values, lits, k - 1);
        assert(lits.take(k).drop_last() =~= lits.take(k - 1));
        assert(lits.take(k).last() == lits[k - 1]);
        assert(ints(lits)[k - 1] == lits[k - 1]);
        assert(model_ints(num_vars, values)[k - 1] == lits[k - 1]);
    }
}

/// Reading back a SAT proof file gives what was written: the variables, the
/// clauses, the status and the truth values of the declared variables.
/// Literals are nonzero, and the number of clauses and the variables fit the
/// format.
pub proof fn sat_round_trip(num_vars: u32, clauses: Seq<Seq<i32>>, values: Seq<bool>)
    requires
        num_vars <= i32::MAX,
        clauses.len() <= u32::MAX,
        nonzero(clauses),
    ensures
        proof_file::contents_of(unlines(sat_lines(num_vars, clauses, values))) == Ok::<
            Contents,
            Fault,
        >(
            Contents {
                num_vars,
                clauses,
                status: Status::Sat,
                model: declared_values(num_vars, values),
                drup: Seq::empty(),
            },
        ),
{
    let n = clauses.len() as int;
    let lines = sat_lines(num_vars, clauses, values);
    let head = problem_lines(num_vars, clauses);
    let d0 = proof_file::empty_draft();
    problem_read(num_vars, clauses, n);
    let d1 = Draft { num_vars: Some(num_vars), clauses, ..d0 };
    assert(clauses.take(n) =~= clauses);
    assert(head.take(n + 2) =~= head);
    fixed_lines_read(d1);
    with_lines_push(d0, head, "s SAT"@, 0, d1);
    let d2 = Draft { status: Some(Status::Sat), ..d1 };
    let m = model_ints(num_vars, values);
    let lits = Seq::new(num_vars as nat, |i: int| m[i] as i32);
    assert(ints(lits) =~= m);
    let vline = "v "@ + spaced(decimals(m)) + " 0"@;
    model_line_read(d2, lits);
    with_lines_push(d0, head.push("s SAT"@), vline, 0, d2);
    assert(lines =~= head.push("s SAT"@).push(vline));
    let d3 = Draft { model_lits: lits, ..d2 };
    assert(d2.model_lits + lits =~= lits);
    assert forall|i: int| 0 <= i < lines.len() implies no_feed(#[trigger] lines[i]) by {
        if i < n + 2 {
            assert(lines[i] == head[i]);
        }
    }
    pieces_unlines(lines);
    fixed_lines_read(d3);
    with_lines_push(d0, lines, Seq::empty(), 0, d3);
    assert forall|j: int| !(#[trigger] model::first_out_of_range(num_vars, lits, j)) by {}
    with_model_lits(num_vars, values, lits, num_vars as int);
    assert(lits.take(num_vars as int) =~= lits);
    let got = proof_file::with_lits(
        Seq::new(proof_file::model_size(num_vars), |i: int| false),
        lits,
    );
    assert(got =~= declared_values(num_vars, values));
}

/// The effect of a model line.
proof fn model_line_read(d: Draft, c: Seq<i32>)
    requires
        forall|i: int| 0 <= i < c.len() ==> #[trigger] c[i] != 0,
    ensures
        ({
            let line = "v "@ + spaced(decimals(ints(c))) + " 0"@;
            &&& proof_file::with_line(d, text::trimmed(line)) == Ok::<Draft, text::Text>(
                Draft { model_lits: d.model_lits + c, ..d },
            )
            &&& no_feed(line)
        }),
{
    let line = "v "@ + spaced(decimals(ints(c))) + " 0"@;
    let tail = spaced(decimals(ints(c))) + " 0"@;
    format_words();
    zero_word();
    model_lits_of_decimals(c);
    assert(line =~= "v "@ + tail);
    if c.len() > 0 {
        number_line(ints(c));
    } else {
        let none = Seq::<text::Text>::empty();
        assert(decimals(ints(c)) =~= none);
        assert(spaced(none) =~= Seq::<char>::empty());
        assert(tail =~= seq![' ', '0']);
        assert(tail.drop_first() =~= "0"@);
        words_leading_space(tail);
        let one = seq!["0"@];
        assert forall|i: int| 0 <= i < one.len() implies solid(#[trigger] one[i]) by {}
        words_spaced(one);
        assert(decimals(ints(c)).push("0"@) =~= one);
    }
    assert(line[0] == 'v');
    assert(line.last() == tail.last());
    trimmed_is(line);
    not_prefix("c"@, line);
    not_prefix("p cnf "@, line);
    not_prefix("s SAT"@, line);
    not_prefix("s UNSAT"@, line);
    assert(line.take(2) =~= "v "@);
    assert("v "@.is_prefix_of(line));
    assert(line.skip("v "@.len() as int) =~= tail);
    assert forall|i: int| 0 <= i < line.len() implies #[trigger] line[i] != '\n' by {
        if i >= 2 {
            assert(line[i] == tail[i - 2]);
        }
    }
}

} // verus!
