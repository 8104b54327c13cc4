//! What the DIMACS reader makes of a text: clauses that are written out are
//! read back, and what is read is what the text says, word by word.

use vstd::prelude::*;

#[allow(unused_imports)]
use crate::certify::proof_text;
#[allow(unused_imports)]
use crate::sat::dimacs;
#[allow(unused_imports)]
use crate::sat::dimacs::{DimacsError, Header};
#[allow(unused_imports)]
use crate::text;
#[allow(unused_imports)]
use crate::text::Text;

verus! {

/// The absolute value of a literal: its variable.
pub open spec fn magnitude(l: int) -> int {
    if l < 0 {
        -l
    } else {
        l
    }
}

/// A word that is a nonzero number within the declared variables.
pub open spec fn names_literal(header: Option<Header>, word: Text, l: int) -> bool {
    &&& text::parsed_i32(word) == Some(l)
    &&& l != 0
    &&& header is Some
    &&& magnitude(l) <= header->0.vars
}

/// The first `n` words are literals.
pub open spec fn literals_up_to(header: Option<Header>, w: Seq<Text>, n: int) -> bool {
    forall|k: int|
        0 <= k < n ==> text::parsed_i32(#[trigger] w[k]) is Some && names_literal(
            header,
            w[k],
            text::parsed_i32(w[k])->0,
        )
}

/// A clause line is read word by word: literal `k` is the number that word `k`
/// denotes, and there are as many literals as words before the first zero. It
/// is refused exactly at the first word that is neither a literal within the
/// declared variables nor a zero.
pub proof fn clauses_are_their_words(header: Option<Header>, w: Seq<Text>)
    ensures
        match dimacs::clause_of(header, w) {
            Ok(c) => {
                &&& c.len() <= w.len()
                &&& forall|k: int|
                    0 <= k < c.len() ==> names_literal(header, w[k], (#[trigger] c[k]) as int)
                &&& c.len() < w.len() ==> text::parsed_i32(w[c.len() as int]) == Some(0int)
            },
            Err(e) => exists|n: int|
                {
                    &&& 0 <= n < w.len()
                    &&& #[trigger] literals_up_to(header, w, n)
                    &&& match e {
                        DimacsError::MalformedHeader => text::parsed_i32(w[n]) is None,
                        DimacsError::MissingHeader => header is None && text::parsed_i32(
                            w[n],
                        ) is Some && text::parsed_i32(w[n]) != Some(0int),
                        DimacsError::VarOutOfRange { num_vars, lit, ref_var } => {
                            &&& header is Some
                            &&& num_vars == header->0.vars
                            &&& text::parsed_i32(w[n]) == Some(lit as int)
                            &&& ref_var == magnitude(lit as int)
                            &&& ref_var > num_vars
                        },
                        _ => false,
                    }
                },
        },
    decreases w.len(),
{
    if w.len() > 0 {
        text::parsed_i32_range(w[0]);
        let rest = w.drop_first();
        clauses_are_their_words(header, rest);
        match text::parsed_i32(w[0]) {
            None => {
                assert(literals_up_to(header, w, 0));
            },
            Some(l) => {
                let lit = l as i32;
                if lit == 0 {
                } else if header is None || magnitude(l) > header->0.vars {
                    assert(literals_up_to(header, w, 0));
                } else {
                    assert(names_literal(header, w[0], l));
                    match dimacs::clause_of(header, rest) {
                        Ok(c) => {
                            let all = dimacs::clause_of(header, w)->Ok_0;
                            assert(all =~= seq![lit] + c);
                            assert forall|k: int| 0 <= k < all.len() implies names_literal(
                                header,
                                w[k],
                                (#[trigger] all[k]) as int,
                            ) by {
                                if k > 0 {
                                    assert(all[k] == c[k - 1]);
                                    assert(w[k] == rest[k - 1]);
                                }
                            }
                            if c.len() < rest.len() {
                                assert(w[all.len() as int] == rest[c.len() as int]);
                            }
                        },
                        Err(e) => {
                            let n = choose|n: int|
                                {
                                    &&& 0 <= n < rest.len()
                                    &&& #[trigger] literals_up_to(header, rest, n)
                                    &&& match e {
                                        DimacsError::MalformedHeader => text::parsed_i32(
                                            rest[n],
                                        ) is None,
                                        DimacsError::MissingHeader => header is None
                                            && text::parsed_i32(rest[n]) is Some
                                            && text::parsed_i32(rest[n]) != Some(0int),
                                        DimacsError::VarOutOfRange {
                                            num_vars,
                                            lit,
                                            ref_var,
                                        } => {
                                            &&& header is Some
                                            &&& num_vars == header->0.vars
                                            &&& text::parsed_i32(rest[n]) == Some(lit as int)
                                            &&& ref_var == magnitude(lit as int)
                                            &&& ref_var > num_vars
                                        },
                                        _ => false,
                                    }
                                };
                            assert forall|k: int| 0 <= k < n + 1 implies text::parsed_i32(
                                #[trigger] w[k],
                            ) is Some && names_literal(
                                header,
                                w[k],
                                text::parsed_i32(w[k])->0,
                            ) by {
                                if k > 0 {
                                    assert(w[k] == rest[k - 1]);
                                }
                            }
                            assert(literals_up_to(header, w, n + 1));
                            assert(w[n + 1] == rest[n]);
                        },
                    }
                }
            },
        }
    }
}

// ---------------------------------------------------------------------------
// Round trip
// ---------------------------------------------------------------------------

/// Some numbers in decimal form, each followed by a space, and then a zero.
pub open spec fn numbers_then_zero(c: Seq<i32>) -> Text
    decreases c.len(),
{
    if c.len() == 0 {
        seq!['0']
    } else {
        text::decimal_int(c[0] as int) + seq![' '] + numbers_then_zero(c.drop_first())
    }
}

/// The lines of a DIMACS file: the header and one line for each clause.
pub open spec fn dimacs_lines(num_vars: u32, clauses: Seq<Seq<i32>>) -> Seq<Text> {
    seq![
        "p cnf "@ + text::decimal(num_vars as nat) + seq![' '] + text::decimal(clauses.len()),
    ] + clauses.map_values(|c: Seq<i32>| numbers_then_zero(c))
}

/// A DIMACS file.
pub open spec fn dimacs_text(num_vars: u32, clauses: Seq<Seq<i32>>) -> Text {
    proof_text::unlines(dimacs_lines(num_vars, clauses))
}

/// Every literal is nonzero and within the variables.
pub open spec fn over_variables(num_vars: u32, clauses: Seq<Seq<i32>>) -> bool {
    forall|i: int, j: int|
        0 <= i < clauses.len() && 0 <= j < clauses[i].len() ==> {
            &&& #[trigger] clauses[i][j] != 0
            &&& magnitude(clauses[i][j] as int) <= num_vars
        }
}

/// A text of a clause line or a header: no line feed, no semicolon.
spec fn clean(t: Text) -> bool {
    forall|i: int| 0 <= i < t.len() ==> #[trigger] t[i] != '\n' && t[i] != ';'
}

proof fn decimal_clean(n: int)
    ensures
        proof_text::solid(text::decimal_int(n)),
        clean(text::decimal_int(n)),
        text::is_digit(text::decimal_int(n)[0]) || text::decimal_int(n)[0] == '-',
{
    proof_text::decimal_int_solid(n);
    let d = text::decimal_int(n);
    let m = (if n < 0 { -n } else { n }) as nat;
    text::decimal_round_trip(m);
    assert forall|i: int| 0 <= i < d.len() implies #[trigger] d[i] != '\n' && d[i] != ';' by {
        if n < 0 {
            if i > 0 {
                assert(d[i] == text::decimal(m)[i - 1]);
                assert(text::is_digit(text::decimal(m)[i - 1]));
            }
        } else {
            assert(text::is_digit(text::decimal(m)[i]));
        }
    }
}

/// The words of a clause line, and what it looks like.
proof fn clause_line_words(c: Seq<i32>)
    ensures
        ({
            let t = numbers_then_zero(c);
            let w = text::words(t);
            &&& w.len() == c.len() + 1
            &&& forall|k: int| 0 <= k < c.len() ==> #[trigger] w[k] == text::decimal_int(c[k] as int)
            &&& w[c.len() as int] == seq!['0']
            &&& clean(t)
            &&& t.len() > 0
            &&& !text::is_space(t.last())
            &&& text::is_digit(t[0]) || t[0] == '-'
        }),
    decreases c.len(),
{
    let t = numbers_then_zero(c);
    if c.len() == 0 {
        assert(text::trim_start(t) == t);
        text::word_len_is(t, 1);
        assert(t.take(1) =~= t);
        assert(t.skip(1) =~= Seq::<char>::empty());
        assert(text::words(t.skip(1)) =~= Seq::<Text>::empty());
        assert(text::words(t) =~= seq![t]);
    } else {
        let d = text::decimal_int(c[0] as int);
        let rest = numbers_then_zero(c.drop_first());
        decimal_clean(c[0] as int);
        clause_line_words(c.drop_first());
        assert(t[0] == d[0]);
        assert(text::trim_start(t) == t);
        assert forall|j: int| 0 <= j < d.len() implies !text::is_space(#[trigger] t[j]) by {
            assert(t[j] == d[j]);
        }
        assert(t[d.len() as int] == ' ');
        text::word_len_is(t, d.len() as int);
        assert(t.take(d.len() as int) =~= d);
        let after = t.skip(d.len() as int);
        assert(after[0] == ' ');
        assert(after.drop_first() =~= rest);
        proof_text::words_leading_space(after);
        assert(text::words(t) =~= seq![d] + text::words(rest));
        assert forall|i: int| 0 <= i < t.len() implies #[trigger] t[i] != '\n' && t[i] != ';' by {
            if i < d.len() {
                assert(t[i] == d[i]);
            } else if i > d.len() {
                assert(t[i] == rest[i - d.len() - 1]);
            }
        }
        assert(t.last() == rest.last());
        let w = text::words(t);
        assert forall|k: int| 0 <= k < c.len() implies #[trigger] w[k] == text::decimal_int(
            c[k] as int,
        ) by {
            if k > 0 {
                assert(w[k] == text::words(rest)[k - 1]);
                assert(c.drop_first()[k - 1] == c[k]);
            }
        }
        assert(w[c.len() as int] == text::words(rest)[c.len() - 1]);
    }
}

/// A clean text without white space at its ends is its own content.
proof fn content_is(t: Text)
    requires
        clean(t),
        t.len() > 0,
        !text::is_space(t[0]),
        !text::is_space(t.last()),
    ensures
        dimacs::content(t) == t,
{
    text::find_is(t, ';', t.len() as int);
    assert(t.take(t.len() as int) =~= t);
    proof_text::trimmed_is(t);
}

/// The words of a written clause denote the clause.
proof fn clause_reads_back(h: Header, c: Seq<i32>)
    requires
        forall|j: int| 0 <= j < c.len() ==> #[trigger] c[j] != 0 && magnitude(c[j] as int) <= h.vars,
    ensures
        dimacs::clause_of(Some(h), text::words(numbers_then_zero(c))) == Ok::<
            Seq<i32>,
            DimacsError,
        >(c),
{
    clause_line_words(c);
    let w = text::words(numbers_then_zero(c));
    text::i32_round_trip(0);
    assert(text::decimal_int(0) =~= seq!['0']);
    clauses_are_their_words(Some(h), w);
    assert forall|k: int| 0 <= k < c.len() implies names_literal(
        Some(h),
        #[trigger] w[k],
        c[k] as int,
    ) by {
        text::i32_round_trip(c[k]);
    }
    match dimacs::clause_of(Some(h), w) {
        Ok(d) => {
            if d.len() > c.len() {
                assert(names_literal(Some(h), w[c.len() as int], d[c.len() as int] as int));
                assert(false);
            }
            if d.len() < c.len() {
                assert(names_literal(Some(h), w[d.len() as int], c[d.len() as int] as int));
                assert(false);
            }
            assert forall|k: int| 0 <= k < c.len() implies d[k] == c[k] by {
                assert(names_literal(Some(h), w[k], d[k] as int));
                assert(names_literal(Some(h), w[k], c[k] as int));
            }
            assert(d =~= c);
        },
        Err(e) => {
            let n = choose|n: int|
                {
                    &&& 0 <= n < w.len()
                    &&& #[trigger] literals_up_to(Some(h), w, n)
                    &&& match e {
                        DimacsError::MalformedHeader => text::parsed_i32(w[n]) is None,
                        DimacsError::MissingHeader => false,
                        DimacsError::VarOutOfRange { num_vars, lit, ref_var } => {
                            &&& num_vars == h.vars
                            &&& text::parsed_i32(w[n]) == Some(lit as int)
                            &&& ref_var == magnitude(lit as int)
                            &&& ref_var > num_vars
                        },
                        _ => false,
                    }
                };
            if n < c.len() {
                assert(names_literal(Some(h), w[n], c[n] as int));
            }
        },
    }
}

/// The header line declares what it was written from.
proof fn header_reads_back(num_vars: u32, count: nat)
    requires
        count <= u32::MAX,
    ensures
        ({
            let t = "p cnf "@ + text::decimal(num_vars as nat) + seq![' '] + text::decimal(count);
            &&& clean(t)
            &&& dimacs::content(t) == t
            &&& t[0] == 'p'
            &&& dimacs::header_of(t) == Some(Header { vars: num_vars, clauses: count as u32 })
        }),
{
    let a = text::decimal(num_vars as nat);
    let b = text::decimal(count);
    decimal_clean(num_vars as int);
    decimal_clean(count as int);
    text::u32_round_trip(num_vars);
    text::u32_round_trip(count as u32);
    reveal_strlit("p cnf ");
    reveal_strlit("cnf");
    assert("p cnf "@ =~= seq!['p', ' ', 'c', 'n', 'f', ' ']);
    let t = "p cnf "@ + a + seq![' '] + b;
    assert forall|i: int| 0 <= i < t.len() implies #[trigger] t[i] != '\n' && t[i] != ';' by {
        if i < 6 {
        } else if i < 6 + a.len() {
            assert(t[i] == a[i - 6]);
        } else if i > 6 + a.len() {
            assert(t[i] == b[i - 7 - a.len()]);
        }
    }
    assert(t.last() == b.last());
    content_is(t);
    let toks = seq!["cnf"@, a, b];
    assert("cnf"@ =~= seq!['c', 'n', 'f']);
    assert(proof_text::solid("cnf"@)) by {
        let x = "cnf"@;
        assert forall|i: int| 0 <= i < x.len() implies !text::is_space(#[trigger] x[i]) by {
            if i == 0 {
                assert(x[0] == 'c');
            } else if i == 1 {
                assert(x[1] == 'n');
            } else {
                assert(x[2] == 'f');
            }
        }
    }
    assert forall|i: int| 0 <= i < toks.len() implies proof_text::solid(#[trigger] toks[i]) by {}
    proof_text::words_spaced(toks);
    let s = proof_text::spaced(toks);
    let two = seq![a, b];
    let one = seq![b];
    assert(toks.drop_first() =~= two);
    assert(two.drop_first() =~= one);
    assert(proof_text::spaced(one) == b);
    assert(proof_text::spaced(two) == a + seq![' '] + b);
    assert(s =~= seq!['c', 'n', 'f', ' '] + a + seq![' '] + b);
    let rest = t.skip(1);
    assert(rest.drop_first() =~= s);
    assert(rest[0] == ' ');
    assert(text::trim_start(rest) == text::trim_start(s));
    assert(s[0] == 'c');
    assert(s.last() == b.last());
    proof_text::trimmed_is(s);
    assert(text::trim_start(s) == s);
    assert(text::trimmed(rest) == s);
}

/// The clause lines from `k` on.
proof fn clauses_read_back(num_vars: u32, clauses: Seq<Seq<i32>>, k: int)
    requires
        0 <= k <= clauses.len() <= u32::MAX,
        over_variables(num_vars, clauses),
    ensures
        dimacs::read_lines(
            dimacs_lines(num_vars, clauses).push(Seq::empty()).skip(k + 1),
            Some(Header { vars: num_vars, clauses: clauses.len() as u32 }),
            clauses.take(k),
        ) == Ok::<(u32, Seq<Seq<i32>>), DimacsError>((num_vars, clauses)),
    decreases clauses.len() - k,
{
    let h = Header { vars: num_vars, clauses: clauses.len() as u32 };
    let all = dimacs_lines(num_vars, clauses).push(Seq::empty());
    let lines = all.skip(k + 1);
    assert(all.len() == clauses.len() + 2);
    if k == clauses.len() {
        let e = Seq::<char>::empty();
        assert(lines[0] == e);
        text::find_is(e, ';', 0);
        assert(e.take(0) =~= e);
        assert(text::trim_start(e) == e);
        assert(text::trim_end(e) == e);
        assert(dimacs::content(e) == e);
        assert(lines.drop_first() =~= Seq::<Text>::empty());
        assert(clauses.take(k) =~= clauses);
        assert(dimacs::read_lines(lines.drop_first(), Some(h), clauses) == Ok::<
            (u32, Seq<Seq<i32>>),
            DimacsError,
        >((num_vars, clauses)));
    } else {
        let c = clauses[k];
        let t = numbers_then_zero(c);
        assert(lines[0] == t) by {
            assert(all[k + 1] == dimacs_lines(num_vars, clauses)[k + 1]);
        }
        clause_line_words(c);
        content_is(t);
        assert forall|j: int| 0 <= j < c.len() implies #[trigger] c[j] != 0 && magnitude(
            c[j] as int,
        ) <= h.vars by {
            assert(clauses[k][j] != 0);
        }
        clause_reads_back(h, c);
        assert(lines.drop_first() =~= all.skip(k + 2));
        assert(clauses.take(k + 1) =~= clauses.take(k).push(c));
        clauses_read_back(num_vars, clauses, k + 1);
    }
}

/// Clauses that are written as DIMACS are read back: the same number of
/// variables, and the same clauses with the same literals in the same order.
pub proof fn dimacs_round_trip(num_vars: u32, clauses: Seq<Seq<i32>>)
    requires
        clauses.len() <= u32::MAX,
        over_variables(num_vars, clauses),
    ensures
        dimacs::dimacs_of(dimacs_text(num_vars, clauses)) == Ok::<
            (u32, Seq<Seq<i32>>),
            DimacsError,
        >((num_vars, clauses)),
{
    let lines = dimacs_lines(num_vars, clauses);
    let all = lines.push(Seq::empty());
    header_reads_back(num_vars, clauses.len());
    assert forall|i: int| 0 <= i < lines.len() implies proof_text::no_feed(#[trigger] lines[i]) by {
        if i > 0 {
            clause_line_words(clauses[i - 1]);
            assert(lines[i] == numbers_then_zero(clauses[i - 1]));
        }
    }
    proof_text::pieces_unlines(lines);
    assert(all[0] == lines[0]);
    assert(all.drop_first() =~= all.skip(1));
    assert(clauses.take(0) =~= Seq::<Seq<i32>>::empty());
    clauses_read_back(num_vars, clauses, 0);
}

// ---------------------------------------------------------------------------
// Whole texts
// ---------------------------------------------------------------------------

/// A line that holds no clause: it is empty up to its first semicolon, or a
/// comment, or the header.
pub open spec fn holds_clause(line: Text) -> bool {
    let t = dimacs::content(line);
    t.len() > 0 && t[0] != 'c' && t[0] != 'p'
}

/// How many lines hold clauses.
pub open spec fn clause_count(lines: Seq<Text>) -> nat
    decreases lines.len(),
{
    if lines.len() == 0 {
        0
    } else {
        clause_count(lines.drop_first()) + (if holds_clause(lines[0]) {
            1nat
        } else {
            0
        })
    }
}

/// A header line that declares these numbers of variables and clauses: after
/// the `p` come the word `cnf` and the two numbers.
pub open spec fn declares(line: Text, vars: nat, clauses: nat) -> bool {
    let t = dimacs::content(line);
    let w = text::words(text::trimmed(t.skip(1)));
    &&& t.len() > 0 && t[0] == 'p'
    &&& w.len() >= 3
    &&& w[0] == "cnf"@
    &&& text::parsed_unsigned(w[1], u32::MAX as nat) == Some(vars)
    &&& text::parsed_unsigned(w[2], u32::MAX as nat) == Some(clauses)
}

/// The clauses read from some lines: one for each line that holds one, behind
/// those read before; their number is the one that a header declares.
proof fn lines_accepted(lines: Seq<Text>, header: Option<Header>, before: Seq<Seq<i32>>)
    ensures
        dimacs::read_lines(lines, header, before) matches Ok((n, cs)) ==> {
            &&& cs.len() == before.len() + clause_count(lines)
            &&& before.is_prefix_of(cs)
            &&& {
                ||| exists|i: int|
                    0 <= i < lines.len() && #[trigger] declares(lines[i], n as nat, cs.len())
                ||| header == Some(Header { vars: n, clauses: cs.len() as u32 }) && cs.len()
                    <= u32::MAX
            }
        },
    decreases lines.len(),
{
    if lines.len() == 0 {
        assert(before.take(before.len() as int) =~= before);
    } else {
        let t = dimacs::content(lines[0]);
        let rest = lines.drop_first();
        let (h2, b2) = if t.len() == 0 || t[0] == 'c' {
            (header, before)
        } else if t[0] == 'p' {
            (
                match dimacs::header_of(t) {
                    Some(h) => Some(h),
                    None => header,
                },
                before,
            )
        } else {
            (
                header,
                match dimacs::clause_of(header, text::words(t)) {
                    Ok(c) => before.push(c),
                    Err(_) => before,
                },
            )
        };
        lines_accepted(rest, h2, b2);
        if let Ok((n, cs)) = dimacs::read_lines(lines, header, before) {
            assert(dimacs::read_lines(rest, h2, b2) == Ok::<(u32, Seq<Seq<i32>>), DimacsError>(
                (n, cs),
            ));
            assert(before.is_prefix_of(cs)) by {
                assert(cs.take(b2.len() as int) =~= b2);
                assert(cs.take(before.len() as int) =~= before) by {
                    assert forall|i: int| 0 <= i < before.len() implies cs[i] == before[i] by {
                        assert(cs.take(b2.len() as int)[i] == b2[i]);
                    }
                }
            }
            if exists|i: int|
                0 <= i < rest.len() && #[trigger] declares(rest[i], n as nat, cs.len()) {
                let i = choose|i: int|
                    0 <= i < rest.len() && #[trigger] declares(rest[i], n as nat, cs.len());
                assert(lines[i + 1] == rest[i]);
                assert(declares(lines[i + 1], n as nat, cs.len()));
            } else if t.len() > 0 && t[0] == 'p' {
                assert(declares(lines[0], n as nat, cs.len()));
            }
        }
    }
}

/// A text that is accepted has a header line that declares the number of
/// variables and the number of clauses, and there are as many clauses as lines
/// that hold one.
pub proof fn accepted_texts(input: Text)
    ensures
        dimacs::dimacs_of(input) matches Ok((n, cs)) ==> {
            let lines = text::pieces(input, '\n');
            &&& cs.len() == clause_count(lines)
            &&& exists|i: int|
                0 <= i < lines.len() && #[trigger] declares(lines[i], n as nat, cs.len())
        },
{
    lines_accepted(text::pieces(input, '\n'), None, Seq::empty());
}

/// Lines without a clause and without a header may be left out or added
/// anywhere.
pub proof fn comments_do_not_matter(
    a: Seq<Text>,
    comment: Text,
    b: Seq<Text>,
    header: Option<Header>,
    clauses: Seq<Seq<i32>>,
)
    requires
        dimacs::content(comment).len() == 0 || dimacs::content(comment)[0] == 'c',
    ensures
        dimacs::read_lines(a + seq![comment] + b, header, clauses) == dimacs::read_lines(
            a + b,
            header,
            clauses,
        ),
    decreases a.len(),
{
    let with = a + seq![comment] + b;
    if a.len() == 0 {
        assert(with.drop_first() =~= a + b);
        assert(with[0] == comment);
    } else {
        let rest = a.drop_first();
        let t = dimacs::content(a[0]);
        assert(with.drop_first() =~= rest + seq![comment] + b);
        assert((a + b).drop_first() =~= rest + b);
        assert(with[0] == a[0] && (a + b)[0] == a[0]);
        comments_do_not_matter(rest, comment, b, header, clauses);
        if t.len() > 0 && t[0] == 'p' {
            if let Some(h) = dimacs::header_of(t) {
                comments_do_not_matter(rest, comment, b, Some(h), clauses);
            }
        } else if t.len() > 0 && t[0] != 'c' {
            if let Ok(c) = dimacs::clause_of(header, text::words(t)) {
                comments_do_not_matter(rest, comment, b, header, clauses.push(c));
            }
        }
    }
}

/// A semicolon ends a line: what follows it does not matter.
pub proof fn text_after_a_semicolon_does_not_matter(t: Text, more: Text)
    requires
        forall|i: int| 0 <= i < t.len() ==> #[trigger] t[i] != ';',
    ensures
        dimacs::content(t + seq![';'] + more) == text::trimmed(t),
{
    let s = t + seq![';'] + more;
    assert forall|j: int| 0 <= j < t.len() implies s[j] != ';' by {
        assert(s[j] == t[j]);
    }
    text::find_is(s, ';', t.len() as int);
    assert(s.take(t.len() as int) =~= t);
}

} // verus!
