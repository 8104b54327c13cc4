//! ReasonMesh proof file format (`.rmproof`).
//!
//! A `.rmproof` file is a UTF-8 text file. Comment lines start with `c`.
//! The supported sections are:
//!
//! ```text
//! c reasonmesh proof v0.2
//! p cnf <num_vars> <num_clauses>
//! [clause lines: space-separated literals, terminated by 0]
//! s SAT | UNSAT
//! v <lit1> <lit2> ... 0   ; one or more model lines for SAT results
//! d <lit1> <lit2> ... 0   ; DRUP proof lines for UNSAT results
//! ```
//!
//! The clauses section may be omitted if the proof is self-contained via a
//! companion `.cnf` file; in that case the command line program resolves it by
//! filename.
//!
//! Model lines (`v ...`) follow the DIMACS SAT competition convention: positive
//! literal = variable is true, negative literal = variable is false, `0` ends
//! the model. Multiple `v` lines are concatenated.
//!
//! DRUP proof lines (`d ...`) are clause addition steps in DRUP format.
//! The last `d` line must be the empty clause `d 0` (the contradiction).

use vstd::prelude::*;

use crate::certify::drup;
use crate::certify::drup::DrupError;
use crate::certify::model;
use crate::certify::model::{var_of, ModelCheckError};
use crate::text;
#[allow(unused_imports)]
use crate::akx::logic;

verus! {

/// Errors parsing or validating a proof file.
#[derive(Debug)]
pub enum ProofError {
    /// A line that does not follow the format.
    Malformed { line: usize, msg: String },
    /// A model literal refers to a variable beyond the declared ones.
    ModelTooLarge { declared: u32, found: u32 },
    /// An UNSAT status without proof steps.
    UnsatNotSupported,
    /// No `p cnf ...` line.
    MissingHeader,
    /// No `s SAT` or `s UNSAT` line.
    MissingStatus,
    /// The model could not be evaluated.
    CheckFailed(ModelCheckError),
    /// The model falsifies a clause.
    BadModel,
    /// The proof steps do not refute the clauses.
    Drup(DrupError),
}

#[derive(Debug, Clone, Copy, PartialEq, Eq, Structural)]
pub enum Status {
    Sat,
    Unsat,
}

/// A parsed proof file, ready for validation.
#[derive(Debug)]
pub struct ProofFile {
    pub num_vars: u32,
    pub clauses: Vec<Vec<i32>>,
    pub status: Status,
    /// Model truth values (1-indexed; index 0 unused) for SAT proofs.
    pub model: Vec<bool>,
    /// DRUP proof steps for UNSAT proofs (`d` lines). Empty for SAT.
    pub drup: Vec<Vec<i32>>,
}

/// The contents of a proof file.
#[verifier::ext_equal]
pub struct Contents {
    pub num_vars: u32,
    pub clauses: Seq<Seq<i32>>,
    pub status: Status,
    pub model: Seq<bool>,
    pub drup: Seq<Seq<i32>>,
}

impl View for ProofFile {
    type V = Contents;

    open spec fn view(&self) -> Contents {
        Contents {
            num_vars: self.num_vars,
            clauses: logic::clause_views(self.clauses@),
            status: self.status,
            model: self.model@,
            drup: logic::clause_views(self.drup@),
        }
    }
}

/// What has been read of a proof file so far.
#[verifier::ext_equal]
pub struct Draft {
    pub num_vars: Option<u32>,
    pub clauses: Seq<Seq<i32>>,
    pub status: Option<Status>,
    pub model_lits: Seq<i32>,
    pub drup: Seq<Seq<i32>>,
}

/// Why a text is not a proof file.
pub enum Fault {
    Malformed { line: nat, msg: text::Text },
    ModelTooLarge { declared: u32, found: u32 },
    MissingHeader,
    MissingStatus,
}

/// Whether an error reports a fault.
pub open spec fn reports(e: ProofError, f: Fault) -> bool {
    match (e, f) {
        (ProofError::Malformed { line, msg }, Fault::Malformed { line: l, msg: m }) => line == l
            && msg@ == m,
        (
            ProofError::ModelTooLarge { declared, found },
            Fault::ModelTooLarge { declared: d, found: x },
        ) => declared == d && found == x,
        (ProofError::MissingHeader, Fault::MissingHeader) => true,
        (ProofError::MissingStatus, Fault::MissingStatus) => true,
        _ => false,
    }
}

/// The literals before the first word `0`, if all of them are numbers.
pub open spec fn lits_of(w: Seq<text::Text>) -> Option<Seq<i32>>
    decreases w.len(),
{
    if w.len() == 0 || w[0] == "0"@ {
        Some(Seq::empty())
    } else {
        match (text::parsed_i32(w[0]), lits_of(w.drop_first())) {
            (Some(l), Some(rest)) => Some(seq![l as i32] + rest),
            _ => None,
        }
    }
}

/// The literals before the first zero; or the first word that is no number.
pub open spec fn model_lits_of(w: Seq<text::Text>) -> Result<Seq<i32>, text::Text>
    decreases w.len(),
{
    if w.len() == 0 {
        Ok(Seq::empty())
    } else {
        match text::parsed_i32(w[0]) {
            None => Err(w[0]),
            Some(l) => if l == 0 {
                Ok(Seq::empty())
            } else {
                match model_lits_of(w.drop_first()) {
                    Ok(rest) => Ok(seq![l as i32] + rest),
                    Err(t) => Err(t),
                }
            },
        }
    }
}

/// The draft after a header line with the given words.
pub open spec fn with_header(d: Draft, w: Seq<text::Text>) -> Result<Draft, text::Text> {
    if w.len() < 2 {
        Err("p cnf needs two integers"@)
    } else {
        match text::parsed_unsigned(w[0], u32::MAX as nat) {
            None => Err("bad num_vars"@),
            Some(v) => match text::parsed_unsigned(w[1], u32::MAX as nat) {
                None => Err("bad num_clauses"@),
                Some(_) => Ok(Draft { num_vars: Some(v as u32), ..d }),
            },
        }
    }
}

/// The draft after a trimmed line, or what is wrong with the line.
pub open spec fn with_line(d: Draft, line: text::Text) -> Result<Draft, text::Text> {
    if line.len() == 0 || "c"@.is_prefix_of(line) {
        Ok(d)
    } else if "p cnf "@.is_prefix_of(line) {
        with_header(d, text::words(line.skip("p cnf "@.len() as int)))
    } else if line == "s SAT"@ {
        Ok(Draft { status: Some(Status::Sat), ..d })
    } else if line == "s UNSAT"@ {
        Ok(Draft { status: Some(Status::Unsat), ..d })
    } else if "v "@.is_prefix_of(line) {
        match model_lits_of(text::words(line.skip("v "@.len() as int))) {
            Ok(lits) => Ok(Draft { model_lits: d.model_lits + lits, ..d }),
            Err(tok) => Err("bad literal: "@ + tok),
        }
    } else if "d "@.is_prefix_of(line) {
        match lits_of(text::words(line.skip("d "@.len() as int))) {
            Some(lits) => Ok(Draft { drup: d.drup.push(lits), ..d }),
            None => Err("bad drup literal in: "@ + line),
        }
    } else if line == "0"@ && d.status == Some(Status::Unsat) {
        Ok(Draft { drup: d.drup.push(Seq::empty()), ..d })
    } else if d.num_vars is Some {
        match lits_of(text::words(line)) {
            Some(lits) => Ok(Draft { clauses: d.clauses.push(lits), ..d }),
            None => Err("bad clause: "@ + line),
        }
    } else {
        Ok(d)
    }
}

/// The draft after all lines; `before` lines precede them.
pub open spec fn with_lines(d: Draft, lines: Seq<text::Text>, before: nat) -> Result<Draft, Fault>
    decreases lines.len(),
{
    if lines.len() == 0 {
        Ok(d)
    } else {
        match with_line(d, text::trimmed(lines[0])) {
            Ok(next) => with_lines(next, lines.drop_first(), before + 1),
            Err(msg) => Err(Fault::Malformed { line: before + 1, msg }),
        }
    }
}

/// Truth values with some literals made true, a later one prevailing.
pub open spec fn with_lits(values: Seq<bool>, lits: Seq<i32>) -> Seq<bool>
    decreases lits.len(),
{
    if lits.len() == 0 {
        values
    } else {
        let earlier = with_lits(values, lits.drop_last());
        let lit = lits.last();
        if logic::dimacs_var(lit) > 0 {
            earlier.update(logic::dimacs_var(lit), lit > 0)
        } else {
            earlier
        }
    }
}

/// How many truth values a model of `num_vars` variables has.
pub open spec fn model_size(num_vars: u32) -> nat {
    if num_vars < usize::MAX {
        (num_vars + 1) as nat
    } else {
        usize::MAX as nat
    }
}

/// The contents that a complete draft describes.
pub open spec fn completed(d: Draft) -> Result<Contents, Fault> {
    if d.num_vars is None {
        Err(Fault::MissingHeader)
    } else if d.status is None {
        Err(Fault::MissingStatus)
    } else {
        let n = d.num_vars->0;
        if exists|j: int| #[trigger] model::first_out_of_range(n, d.model_lits, j) {
            let j = choose|j: int| #[trigger] model::first_out_of_range(n, d.model_lits, j);
            Err(
                Fault::ModelTooLarge {
                    declared: n,
                    found: logic::dimacs_var(d.model_lits[j]) as u32,
                },
            )
        } else {
            Ok(
                Contents {
                    num_vars: n,
                    clauses: d.clauses,
                    status: d.status->0,
                    model: with_lits(Seq::new(model_size(n), |i: int| false), d.model_lits),
                    drup: d.drup,
                },
            )
        }
    }
}

pub open spec fn empty_draft() -> Draft {
    Draft {
        num_vars: None,
        clauses: Seq::empty(),
        status: None,
        model_lits: Seq::empty(),
        drup: Seq::empty(),
    }
}

/// What a proof file text describes.
pub open spec fn contents_of(input: text::Text) -> Result<Contents, Fault> {
    match with_lines(empty_draft(), text::pieces(input, '\n'), 0) {
        Ok(d) => completed(d),
        Err(f) => Err(f),
    }
}

fn read_lits(w: &Vec<Vec<char>>) -> (r: Option<Vec<i32>>)
    ensures
        match lits_of(text::texts(w@)) {
            Some(lits) => r matches Some(v) && v@ == lits,
            None => r is None,
        },
{
    let ghost all = text::texts(w@);
    let mut lits: Vec<i32> = Vec::new();
    let mut i: usize = 0;
    assert(all.skip(0) =~= all);
    while i < w.len()
        invariant
            i <= w@.len(),
            all == text::texts(w@),
            match lits_of(all.skip(i as int)) {
                Some(rest) => lits_of(all) == Some(lits@ + rest),
                None => lits_of(all) is None,
            },
        decreases w@.len() - i,
    {
        let ghost here = all.skip(i as int);
        assert(here[0] == w@[i as int]@);
        assert(here.drop_first() =~= all.skip(i + 1));
        if text::is_text(w[i].as_slice(), "0") {
            assert(lits@ + Seq::<i32>::empty() =~= lits@);
            return Some(lits);
        }
        match text::parse_i32(w[i].as_slice()) {
            None => {
                return None;
            },
            Some(l) => {
                let ghost before = lits@;
                lits.push(l);
                proof {
                    match lits_of(all.skip(i + 1)) {
                        Some(rest) => {
                            assert(before + (seq![l] + rest) =~= lits@ + rest);
                        },
                        None => {},
                    }
                }
            },
        }
        i += 1;
    }
    assert(lits@ + Seq::<i32>::empty() =~= lits@);
    Some(lits)
}

/// The position of the first word that is no number, or the literals.
fn read_model_lits(w: &Vec<Vec<char>>) -> (r: Result<Vec<i32>, usize>)
    ensures
        match model_lits_of(text::texts(w@)) {
            Ok(lits) => r matches Ok(v) && v@ == lits,
            Err(tok) => r matches Err(i) && i < w@.len() && w@[i as int]@ == tok,
        },
{
    let ghost all = text::texts(w@);
    let mut lits: Vec<i32> = Vec::new();
    let mut i: usize = 0;
    assert(all.skip(0) =~= all);
    while i < w.len()
        invariant
            i <= w@.len(),
            all == text::texts(w@),
            match model_lits_of(all.skip(i as int)) {
                Ok(rest) => model_lits_of(all) == Ok::<Seq<i32>, text::Text>(lits@ + rest),
                Err(t) => model_lits_of(all) == Err::<Seq<i32>, text::Text>(t),
            },
        decreases w@.len() - i,
    {
        let ghost here = all.skip(i as int);
        assert(here[0] == w@[i as int]@);
        assert(here.drop_first() =~= all.skip(i + 1));
        match text::parse_i32(w[i].as_slice()) {
            None => {
                return Err(i);
            },
            Some(l) => {
                if l == 0 {
                    assert(lits@ + Seq::<i32>::empty() =~= lits@);
                    return Ok(lits);
                }
                let ghost before = lits@;
                lits.push(l);
                proof {
                    match model_lits_of(all.skip(i + 1)) {
                        Ok(rest) => {
                            assert(before + (seq![l] + rest) =~= lits@ + rest);
                        },
                        Err(t) => {},
                    }
                }
            },
        }
        i += 1;
    }
    assert(lits@ + Seq::<i32>::empty() =~= lits@);
    Ok(lits)
}

/// What has been read so far.
struct Reader {
    num_vars: Option<u32>,
    clauses: Vec<Vec<i32>>,
    status: Option<Status>,
    model_lits: Vec<i32>,
    drup: Vec<Vec<i32>>,
}

impl View for Reader {
    type V = Draft;

    closed spec fn view(&self) -> Draft {
        Draft {
            num_vars: self.num_vars,
            clauses: logic::clause_views(self.clauses@),
            status: self.status,
            model_lits: self.model_lits@,
            drup: logic::clause_views(self.drup@),
        }
    }
}

/// The text behind a prefix.
fn behind<'a>(line: &'a [char], prefix: &str) -> (r: Option<&'a [char]>)
    ensures
        r is Some <==> prefix@.is_prefix_of(line@),
        r matches Some(t) ==> t@ == line@.skip(prefix@.len() as int),
{
    if text::starts_with(line, prefix) {
        let p: Vec<char> = text::to_chars(prefix);
        let t = vstd::slice::slice_subrange(line, p.len(), line.len());
        assert(t@ =~= line@.skip(prefix@.len() as int));
        Some(t)
    } else {
        None
    }
}

fn quoting(what: &str, quoted: &[char]) -> (s: String)
    ensures
        s@ == what@ + quoted@,
{
    let mut s: String = String::new();
    s.append(what);
    text::push_chars(&mut s, quoted);
    assert(s@ =~= what@ + quoted@);
    s
}

impl Reader {
    fn push_drup(&mut self, lits: Vec<i32>)
        ensures
            final(self)@ == (Draft { drup: old(self)@.drup.push(lits@), ..old(self)@ }),
    {
        self.drup.push(lits);
        assert(logic::clause_views(self.drup@) =~= logic::clause_views(old(self).drup@).push(
            lits@,
        ));
    }

    fn push_clause(&mut self, lits: Vec<i32>)
        ensures
            final(self)@ == (Draft { clauses: old(self)@.clauses.push(lits@), ..old(self)@ }),
    {
        self.clauses.push(lits);
        assert(logic::clause_views(self.clauses@) =~= logic::clause_views(
            old(self).clauses@,
        ).push(lits@));
    }

    fn read_header(&mut self, rest: &[char]) -> (r: Result<(), String>)
        ensures
            match with_header(old(self)@, text::words(rest@)) {
                Ok(d) => r is Ok && final(self)@ == d,
                Err(msg) => r matches Err(m) && m@ == msg,
            },
    {
        let w: Vec<Vec<char>> = text::split_words(rest);
        let ghost all = text::words(rest@);
        assert(text::texts(w@).len() == w@.len());
        if w.len() < 2 {
            return Err(String::from_str("p cnf needs two integers"));
        }
        assert(all[0] == w@[0]@ && all[1] == w@[1]@);
        match text::parse_u32(w[0].as_slice()) {
            None => Err(String::from_str("bad num_vars")),
            Some(v) => match text::parse_u32(w[1].as_slice()) {
                None => Err(String::from_str("bad num_clauses")),
                Some(_) => {
                    self.num_vars = Some(v);
                    Ok(())
                },
            },
        }
    }

    /// Take in a trimmed line.
    fn read_line(&mut self, line: &[char]) -> (r: Result<(), String>)
        ensures
            match with_line(old(self)@, line@) {
                Ok(d) => r is Ok && final(self)@ == d,
                Err(msg) => r matches Err(m) && m@ == msg,
            },
    {
        if line.len() == 0 || text::starts_with(line, "c") {
            return Ok(());
        }
        if let Some(rest) = behind(line, "p cnf ") {
            return self.read_header(rest);
        }
        if text::is_text(line, "s SAT") {
            self.status = Some(Status::Sat);
            return Ok(());
        }
        if text::is_text(line, "s UNSAT") {
            self.status = Some(Status::Unsat);
            return Ok(());
        }
        if let Some(rest) = behind(line, "v ") {
            let w: Vec<Vec<char>> = text::split_words(rest);
            match read_model_lits(&w) {
                Ok(lits) => {
                    let mut lits: Vec<i32> = lits;
                    self.model_lits.append(&mut lits);
                    return Ok(());
                },
                Err(i) => {
                    return Err(quoting("bad literal: ", w[i].as_slice()));
                },
            }
        }
        if let Some(rest) = behind(line, "d ") {
            let w: Vec<Vec<char>> = text::split_words(rest);
            match read_lits(&w) {
                Some(lits) => {
                    self.push_drup(lits);
                    return Ok(());
                },
                None => {
                    return Err(quoting("bad drup literal in: ", line));
                },
            }
        }
        let unsat: bool = match self.status {
            Some(s) => s == Status::Unsat,
            None => false,
        };
        if text::is_text(line, "0") && unsat {
            self.push_drup(Vec::new());
            return Ok(());
        }
        if self.num_vars.is_some() {
            let w: Vec<Vec<char>> = text::split_words(line);
            match read_lits(&w) {
                Some(lits) => {
                    self.push_clause(lits);
                },
                None => {
                    return Err(quoting("bad clause: ", line));
                },
            }
        }
        Ok(())
    }

    /// Build the proof file.
    fn complete(self) -> (r: Result<ProofFile, ProofError>)
        ensures
            match completed(self@) {
                Ok(c) => r matches Ok(pf) && pf@ == c,
                Err(f) => r matches Err(e) && reports(e, f),
            },
    {
        let num_vars: u32 = match self.num_vars {
            None => {
                return Err(ProofError::MissingHeader);
            },
            Some(n) => n,
        };
        let status: Status = match self.status {
            None => {
                return Err(ProofError::MissingStatus);
            },
            Some(s) => s,
        };
        let size: usize = (num_vars as usize).saturating_add(1);
        let mut values: Vec<bool> = vec![false; size];
        let ghost start = Seq::new(model_size(num_vars), |i: int| false);
        assert(values@ =~= start);
        let ghost lits = self.model_lits@;
        let mut i: usize = 0;
        assert(lits.take(0) =~= Seq::<i32>::empty());
        while i < self.model_lits.len()
            invariant
                i <= self.model_lits@.len(),
                lits == self.model_lits@,
                self@.num_vars == Some(num_vars),
                self@.status == Some(status),
                self@.model_lits == lits,
                start == Seq::new(model_size(num_vars), |i: int| false),
                values@ == with_lits(start, lits.take(i as int)),
                values@.len() == model_size(num_vars),
                forall|k: int| 0 <= k < i ==> logic::dimacs_var(#[trigger] lits[k]) <= num_vars,
            decreases self.model_lits@.len() - i,
        {
            let lit: i32 = self.model_lits[i];
            let var: u32 = var_of(lit);
            if var > num_vars {
                proof {
                    assert(model::first_out_of_range(num_vars, lits, i as int));
                    let j = choose|j: int| #[trigger]
                        model::first_out_of_range(num_vars, lits, j);
                    assert(logic::dimacs_var(lits[j]) > num_vars);
                    assert(logic::dimacs_var(lits[i as int]) > num_vars);
                    assert(j == i);
                }
                return Err(ProofError::ModelTooLarge { declared: num_vars, found: var });
            }
            if var > 0 {
                values[var as usize] = lit > 0;
            }
            assert(lits.take(i + 1).drop_last() =~= lits.take(i as int));
            i += 1;
        }
        assert(lits.take(lits.len() as int) =~= lits);
        assert(!(exists|j: int| #[trigger] model::first_out_of_range(num_vars, lits, j)));
        let pf = ProofFile {
            num_vars,
            clauses: self.clauses,
            status,
            model: values,
            drup: self.drup,
        };
        assert(pf@ =~= completed(self@)->Ok_0);
        Ok(pf)
    }
}

impl ProofFile {
    /// Parse the text of an `.rmproof` file.
    pub fn parse(input: &str) -> (r: Result<ProofFile, ProofError>)
        ensures
            match contents_of(input@) {
                Ok(c) => r matches Ok(pf) && pf@ == c,
                Err(f) => r matches Err(e) && reports(e, f),
            },
    {
        let chars: Vec<char> = text::to_chars(input);
        let lines: Vec<Vec<char>> = text::split(chars.as_slice(), '\n');
        let ghost all = text::texts(lines@);
        let mut reader = Reader {
            num_vars: None,
            clauses: Vec::new(),
            status: None,
            model_lits: Vec::new(),
            drup: Vec::new(),
        };
        assert(reader@ =~= empty_draft());
        let mut i: usize = 0;
        assert(all.skip(0) =~= all);
        while i < lines.len()
            invariant
                i <= lines@.len(),
                all == text::texts(lines@),
                all == text::pieces(input@, '\n'),
                with_lines(reader@, all.skip(i as int), i as nat) == with_lines(
                    empty_draft(),
                    all,
                    0,
                ),
            decreases lines@.len() - i,
        {
            let ghost here = all.skip(i as int);
            assert(here[0] == lines@[i as int]@);
            assert(here.drop_first() =~= all.skip(i + 1));
            match reader.read_line(text::trim(lines[i].as_slice())) {
                Ok(_) => {},
                Err(msg) => {
                    return Err(ProofError::Malformed { line: i + 1, msg });
                },
            }
            i += 1;
        }
        assert(all.skip(i as int) =~= Seq::<text::Text>::empty());
        reader.complete()
    }

    /// Verify the proof. Returns `Ok(())` if the proof is valid.
    pub fn verify(&self) -> (r: Result<(), ProofError>)
        requires
            self.num_vars <= i32::MAX || drup::no_min(self@.drup),
        ensures
            self.status == Status::Unsat && self@.drup.len() == 0
                <==> r matches Err(ProofError::UnsatNotSupported),
            self.status == Status::Unsat && self@.drup.len() > 0 ==> match r {
                Ok(_) => exists|n: usize| #[trigger]
                    drup::drup_result(self.num_vars, self@.clauses, self@.drup, Ok(n)),
                Err(ProofError::Drup(e)) => drup::drup_result(
                    self.num_vars,
                    self@.clauses,
                    self@.drup,
                    Err(e),
                ),
                _ => false,
            },
            self.status == Status::Sat ==> match r {
                Ok(_) => self@.model.len() > self.num_vars && model::good_before(
                    self.num_vars,
                    self@.clauses,
                    self@.model,
                    self@.clauses.len() as int,
                ),
                Err(ProofError::BadModel) => self@.model.len() > self.num_vars && exists|i: int|
                    #[trigger] model::stops_at(
                        self.num_vars,
                        self@.clauses,
                        self@.model,
                        i,
                        Ok(false),
                    ),
                Err(ProofError::CheckFailed(e)) => if self@.model.len() <= self.num_vars {
                    e == (ModelCheckError::SizeMismatch {
                        model_vars: self@.model.len() as usize,
                        num_vars: self.num_vars,
                    })
                } else {
                    exists|i: int| #[trigger]
                        model::stops_at(self.num_vars, self@.clauses, self@.model, i, Err(e))
                },
                _ => false,
            },
            r is Ok && self.status == Status::Unsat ==> logic::dimacs_unsatisfiable(self@.clauses),
            r is Ok && self.status == Status::Sat ==> logic::dimacs_formula_holds(
                model::model_valuation(self@.model),
                self@.clauses,
            ),
    {
        match self.status {
            Status::Unsat => {
                if self.drup.len() == 0 {
                    return Err(ProofError::UnsatNotSupported);
                }
                match drup::verify_drup(
                    self.num_vars,
                    self.clauses.as_slice(),
                    self.drup.as_slice(),
                ) {
                    Ok(n) => {
                        assert(drup::drup_result(
                            self.num_vars,
                            self@.clauses,
                            self@.drup,
                            Ok(n),
                        ));
                        Ok(())
                    },
                    Err(e) => Err(ProofError::Drup(e)),
                }
            },
            Status::Sat => {
                let verdict: Result<bool, ModelCheckError> = model::check_dimacs_model(
                    self.num_vars,
                    self.clauses.as_slice(),
                    self.model.as_slice(),
                );
                proof {
                    if self.model@.len() > self.num_vars && verdict != Ok::<bool, ModelCheckError>(
                        true,
                    ) {
                        let i = choose|i: int| #[trigger]
                            model::stops_at(
                                self.num_vars,
                                self@.clauses,
                                self@.model,
                                i,
                                verdict,
                            );
                        assert(verdict is Ok ==> model::stops_at(
                            self.num_vars,
                            self@.clauses,
                            self@.model,
                            i,
                            Ok(false),
                        ));
                        assert(verdict is Err ==> model::stops_at(
                            self.num_vars,
                            self@.clauses,
                            self@.model,
                            i,
                            Err(verdict->Err_0),
                        ));
                    }
                }
                match verdict {
                    Ok(ok) => if ok {
                        Ok(())
                    } else {
                        Err(ProofError::BadModel)
                    },
                    Err(e) => Err(ProofError::CheckFailed(e)),
                }
            },
        }
    }
}

} // verus!
