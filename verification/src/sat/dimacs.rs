//! Minimal DIMACS CNF parser.
//!
//! Input format (standard SAT competition DIMACS):
//! ```text
//! c comment
//! p cnf <num_vars> <num_clauses>
//! 1 -2 3 0
//! -4 0
//! ```
//! Each clause is a line of signed integers terminated by `0`.

use vstd::prelude::*;

use crate::certify::model::var_of;
use crate::text;
#[allow(unused_imports)]
use crate::akx::logic;

verus! {

/// Error parsing DIMACS input.
#[derive(Clone, Copy, Debug, PartialEq, Eq, Structural)]
pub enum DimacsError {
    /// missing `p cnf` header
    MissingHeader,
    /// malformed `p cnf` header or literal
    MalformedHeader,
    /// literal 0 inside a clause
    ZeroLiteral,
    /// a literal refers to a variable beyond the declared ones
    VarOutOfRange { num_vars: u32, lit: i32, ref_var: u32 },
    /// the number of clauses is not the declared one
    WrongClauseCount { expected: u32, found: usize },
}

/// A parsed DIMACS instance: the number of variables and a list of clauses
/// (each clause is a list of nonzero signed literals).
#[derive(Debug, Clone, PartialEq, Eq)]
pub struct DimacsCnf {
    pub num_vars: u32,
    pub clauses: Vec<Vec<i32>>,
}

/// What a header line declares.
#[derive(Clone, Copy, Debug, PartialEq, Eq, Structural)]
pub struct Header {
    pub vars: u32,
    pub clauses: u32,
}

/// A line up to its first semicolon, trimmed.
pub open spec fn content(raw: text::Text) -> text::Text {
    text::trimmed(raw.take(text::find(raw, ';')))
}

/// The numbers of variables and clauses that a header line declares.
pub open spec fn header_of(line: text::Text) -> Option<Header> {
    let w = text::words(text::trimmed(line.skip(1)));
    if w.len() >= 3 && w[0] == "cnf"@ {
        match (
            text::parsed_unsigned(w[1], u32::MAX as nat),
            text::parsed_unsigned(w[2], u32::MAX as nat),
        ) {
            (Some(vars), Some(clauses)) => Some(
                Header { vars: vars as u32, clauses: clauses as u32 },
            ),
            _ => None,
        }
    } else {
        None
    }
}

/// The clause that a line of words denotes: its literals up to the first 0.
pub open spec fn clause_of(header: Option<Header>, w: Seq<text::Text>) -> Result<
    Seq<i32>,
    DimacsError,
>
    decreases w.len(),
{
    if w.len() == 0 {
        Ok(Seq::empty())
    } else {
        match text::parsed_i32(w[0]) {
            None => Err(DimacsError::MalformedHeader),
            Some(l) => {
                let lit = l as i32;
                if lit == 0 {
                    Ok(Seq::empty())
                } else if header is None {
                    Err(DimacsError::MissingHeader)
                } else if logic::dimacs_var(lit) > header->0.vars {
                    Err(
                        DimacsError::VarOutOfRange {
                            num_vars: header->0.vars,
                            lit,
                            ref_var: logic::dimacs_var(lit) as u32,
                        },
                    )
                } else {
                    match clause_of(header, w.drop_first()) {
                        Ok(rest) => Ok(seq![lit] + rest),
                        Err(e) => Err(e),
                    }
                }
            },
        }
    }
}

/// What the lines denote, after the header and the clauses read so far.
pub open spec fn read_lines(
    lines: Seq<text::Text>,
    header: Option<Header>,
    clauses: Seq<Seq<i32>>,
) -> Result<(u32, Seq<Seq<i32>>), DimacsError>
    decreases lines.len(),
{
    if lines.len() == 0 {
        match header {
            None => Err(DimacsError::MissingHeader),
            Some(h) => if clauses.len() != h.clauses {
                Err(
                    DimacsError::WrongClauseCount {
                        expected: h.clauses,
                        found: clauses.len() as usize,
                    },
                )
            } else {
                Ok((h.vars, clauses))
            },
        }
    } else {
        let line = content(lines[0]);
        let rest = lines.drop_first();
        if line.len() == 0 || line[0] == 'c' {
            read_lines(rest, header, clauses)
        } else if line[0] == 'p' {
            match header_of(line) {
                Some(h) => read_lines(rest, Some(h), clauses),
                None => Err(DimacsError::MalformedHeader),
            }
        } else {
            match clause_of(header, text::words(line)) {
                Ok(c) => read_lines(rest, header, clauses.push(c)),
                Err(e) => Err(e),
            }
        }
    }
}

/// What a DIMACS text denotes.
pub open spec fn dimacs_of(input: text::Text) -> Result<(u32, Seq<Seq<i32>>), DimacsError> {
    read_lines(text::pieces(input, '\n'), None, Seq::empty())
}

fn parse_header(line: &[char]) -> (h: Option<Header>)
    requires
        line@.len() > 0,
    ensures
        h == header_of(line@),
{
    let rest = vstd::slice::slice_subrange(line, 1, line.len());
    assert(rest@ =~= line@.skip(1));
    let w: Vec<Vec<char>> = text::split_words(text::trim(rest));
    let ghost spec_w = text::words(text::trimmed(line@.skip(1)));
    assert(text::texts(w@).len() == w@.len());
    if w.len() < 3 {
        return None;
    }
    assert(spec_w[0] == w@[0]@ && spec_w[1] == w@[1]@ && spec_w[2] == w@[2]@);
    if !text::is_text(w[0].as_slice(), "cnf") {
        return None;
    }
    match (text::parse_u32(w[1].as_slice()), text::parse_u32(w[2].as_slice())) {
        (Some(vars), Some(clauses)) => Some(Header { vars, clauses }),
        _ => None,
    }
}

fn parse_clause(header: Option<Header>, w: &Vec<Vec<char>>) -> (r: Result<
    Vec<i32>,
    DimacsError,
>)
    ensures
        match r {
            Ok(c) => clause_of(header, text::texts(w@)) == Ok::<Seq<i32>, DimacsError>(c@),
            Err(e) => clause_of(header, text::texts(w@)) == Err::<Seq<i32>, DimacsError>(e),
        },
{
    let ghost all = text::texts(w@);
    let mut clause: Vec<i32> = Vec::new();
    let mut i: usize = 0;
    assert(all.skip(0) =~= all);
    while i < w.len()
        invariant
            i <= w@.len(),
            all == text::texts(w@),
            match clause_of(header, all.skip(i as int)) {
                Ok(rest) => clause_of(header, all) == Ok::<Seq<i32>, DimacsError>(clause@ + rest),
                Err(e) => clause_of(header, all) == Err::<Seq<i32>, DimacsError>(e),
            },
        decreases w@.len() - i,
    {
        let ghost here = all.skip(i as int);
        assert(here[0] == w@[i as int]@);
        assert(here.drop_first() =~= all.skip(i + 1));
        match text::parse_i32(w[i].as_slice()) {
            None => {
                return Err(DimacsError::MalformedHeader);
            },
            Some(lit) => {
                if lit == 0 {
                    assert(clause@ + Seq::<i32>::empty() =~= clause@);
                    return Ok(clause);
                }
                match header {
                    None => {
                        return Err(DimacsError::MissingHeader);
                    },
                    Some(h) => {
                        let vars: u32 = h.vars;
                        let ref_var: u32 = var_of(lit);
                        if ref_var > vars {
                            return Err(
                                DimacsError::VarOutOfRange { num_vars: vars, lit, ref_var },
                            );
                        }
                        let ghost before = clause@;
                        clause.push(lit);
                        proof {
                            match clause_of(header, all.skip(i + 1)) {
                                Ok(rest) => {
                                    assert(before + (seq![lit] + rest) =~= clause@ + rest);
                                },
                                Err(e) => {},
                            }
                        }
                    },
                }
            },
        }
        i += 1;
    }
    assert(clause@ + Seq::<i32>::empty() =~= clause@);
    Ok(clause)
}

/// Parse a DIMACS CNF instance from its textual form.
pub fn parse_dimacs(input: &str) -> (r: Result<DimacsCnf, DimacsError>)
    ensures
        match r {
            Ok(cnf) => dimacs_of(input@) == Ok::<(u32, Seq<Seq<i32>>), DimacsError>(
                (cnf.num_vars, logic::clause_views(cnf.clauses@)),
            ),
            Err(e) => dimacs_of(input@) == Err::<(u32, Seq<Seq<i32>>), DimacsError>(e),
        },
{
    let chars: Vec<char> = text::to_chars(input);
    let lines: Vec<Vec<char>> = text::split(chars.as_slice(), '\n');
    let ghost all = text::texts(lines@);
    let mut header: Option<Header> = None;
    let mut clauses: Vec<Vec<i32>> = Vec::new();
    let mut i: usize = 0;
    assert(all.skip(0) =~= all);
    assert(logic::clause_views(clauses@) =~= Seq::<Seq<i32>>::empty());
    while i < lines.len()
        invariant
            i <= lines@.len(),
            all == text::texts(lines@),
            all == text::pieces(input@, '\n'),
            read_lines(all.skip(i as int), header, logic::clause_views(clauses@)) == dimacs_of(
                input@,
            ),
        decreases lines@.len() - i,
    {
        let ghost here = all.skip(i as int);
        let raw: &Vec<char> = &lines[i];
        assert(here[0] == raw@);
        assert(here.drop_first() =~= all.skip(i + 1));
        let cut: usize = text::find_char(raw.as_slice(), ';');
        let kept = vstd::slice::slice_subrange(raw.as_slice(), 0, cut);
        assert(kept@ =~= raw@.take(text::find(raw@, ';')));
        let line = text::trim(kept);
        assert(line@ == content(here[0]));
        if line.len() == 0 || line[0] == 'c' {
        } else if line[0] == 'p' {
            match parse_header(line) {
                Some(h) => {
                    header = Some(h);
                },
                None => {
                    return Err(DimacsError::MalformedHeader);
                },
            }
        } else {
            let w: Vec<Vec<char>> = text::split_words(line);
            match parse_clause(header, &w) {
                Ok(clause) => {
                    let ghost before = clauses@;
                    clauses.push(clause);
                    assert(logic::clause_views(clauses@) =~= logic::clause_views(before).push(
                        clause@,
                    ));
                },
                Err(e) => {
                    return Err(e);
                },
            }
        }
        i += 1;
    }
    assert(all.skip(i as int) =~= Seq::<text::Text>::empty());
    match header {
        None => Err(DimacsError::MissingHeader),
        Some(h) => {
            if clauses.len() as u64 != h.clauses as u64 {
                return Err(
                    DimacsError::WrongClauseCount { expected: h.clauses, found: clauses.len() },
                );
            }
            Ok(DimacsCnf { num_vars: h.vars, clauses })
        },
    }
}

/// Every literal of a parsed clause is nonzero and within the variables that
/// the header in force declares.
pub proof fn clause_of_valid(header: Option<Header>, w: Seq<text::Text>)
    ensures
        clause_of(header, w) matches Ok(c) ==> forall|k: int|
            0 <= k < c.len() ==> #[trigger] c[k] != 0 && header is Some && logic::dimacs_var(c[k])
                <= header->0.vars,
    decreases w.len(),
{
    if w.len() > 0 {
        clause_of_valid(header, w.drop_first());
        if clause_of(header, w) is Ok && text::parsed_i32(w[0]) is Some {
            let lit = text::parsed_i32(w[0])->0 as i32;
            if lit != 0 {
                let c = clause_of(header, w)->Ok_0;
                let rest = clause_of(header, w.drop_first())->Ok_0;
                assert(c == seq![lit] + rest);
                assert forall|k: int| 0 <= k < c.len() implies #[trigger] c[k] != 0
                    && logic::dimacs_var(c[k]) <= header->0.vars by {
                    if k > 0 {
                        assert(c[k] == rest[k - 1]);
                    }
                }
            }
        }
    }
}

} // verus!
