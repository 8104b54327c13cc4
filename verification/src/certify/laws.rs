//! How proof files are read: line by line, word by word.

use vstd::prelude::*;

#[allow(unused_imports)]
use crate::akx::logic;
#[allow(unused_imports)]
use crate::certify::drup;
#[allow(unused_imports)]
use crate::certify::drup::DrupError;
#[allow(unused_imports)]
use crate::certify::model;
#[allow(unused_imports)]
use crate::certify::proof_file;
#[allow(unused_imports)]
use crate::certify::proof_file::{Contents, Draft, Fault, Status};
#[allow(unused_imports)]
use crate::certify::proof_text;
#[allow(unused_imports)]
use crate::text;
use crate::text::Text;

verus! {

/// The literals of a line are the numbers of its words, one for each, up to the
/// first word that is a zero or to the end.
pub proof fn literals_are_their_words(w: Seq<Text>)
    ensures
        match proof_file::lits_of(w) {
            Some(c) => {
                &&& c.len() <= w.len()
                &&& c.len() < w.len() ==> w[c.len() as int] == "0"@
                &&& forall|k: int| 0 <= k < c.len() ==> #[trigger] w[k] != "0"@
                &&& forall|k: int|
                    0 <= k < c.len() ==> text::parsed_i32(w[k]) == Some(#[trigger] c[k] as int)
            },
            None => exists|k: int|
                0 <= k < w.len() && text::parsed_i32(#[trigger] w[k]) is None && forall|j: int|
                    0 <= j < k ==> #[trigger] w[j] != "0"@,
        },
    decreases w.len(),
{
    if w.len() > 0 && w[0] != "0"@ {
        let rest = w.drop_first();
        literals_are_their_words(rest);
        text::parsed_i32_range(w[0]);
        match (text::parsed_i32(w[0]), proof_file::lits_of(rest)) {
            (Some(l), Some(r)) => {
                let c = seq![l as i32] + r;
                assert(proof_file::lits_of(w) == Some(c));
                assert forall|k: int| 0 <= k < c.len() implies #[trigger] w[k] != "0"@ by {
                    if k > 0 {
                        assert(w[k] == rest[k - 1]);
                    }
                }
                assert forall|k: int| 0 <= k < c.len() implies text::parsed_i32(w[k]) == Some(
                    #[trigger] c[k] as int,
                ) by {
                    if k > 0 {
                        assert(c[k] == r[k - 1]);
                        assert(w[k] == rest[k - 1]);
                    }
                }
                if c.len() < w.len() {
                    assert(w[c.len() as int] == rest[r.len() as int]);
                }
            },
            (Some(_), None) => {
                let k = choose|k: int|
                    0 <= k < rest.len() && text::parsed_i32(#[trigger] rest[k]) is None && forall|
                        j: int,
                    |
                        0 <= j < k ==> #[trigger] rest[j] != "0"@;
                assert(w[k + 1] == rest[k]);
                assert forall|j: int| 0 <= j < k + 1 implies #[trigger] w[j] != "0"@ by {
                    if j > 0 {
                        assert(w[j] == rest[j - 1]);
                    }
                }
            },
            (None, _) => {
                assert(text::parsed_i32(w[0]) is None);
            },
        }
    }
}

/// The literals of a model line are the numbers of its words, one for each, up
/// to the first that is zero or to the end; what is reported is the first word
/// that is no number.
pub proof fn model_literals_are_their_words(w: Seq<Text>)
    ensures
        match proof_file::model_lits_of(w) {
            Ok(c) => {
                &&& c.len() <= w.len()
                &&& c.len() < w.len() ==> text::parsed_i32(w[c.len() as int]) == Some(0int)
                &&& forall|k: int|
                    0 <= k < c.len() ==> #[trigger] c[k] != 0 && text::parsed_i32(w[k]) == Some(
                        c[k] as int,
                    )
            },
            Err(t) => exists|k: int|
                0 <= k < w.len() && #[trigger] w[k] == t && text::parsed_i32(t) is None && forall|
                    j: int,
                |
                    0 <= j < k ==> text::parsed_i32(#[trigger] w[j]) is Some && text::parsed_i32(
                        w[j],
                    ) != Some(0int),
        },
    decreases w.len(),
{
    if w.len() > 0 && text::parsed_i32(w[0]) is Some && text::parsed_i32(w[0]) != Some(0int) {
        let rest = w.drop_first();
        model_literals_are_their_words(rest);
        text::parsed_i32_range(w[0]);
        let l = text::parsed_i32(w[0])->0;
        match proof_file::model_lits_of(rest) {
            Ok(r) => {
                let c = seq![l as i32] + r;
                assert forall|k: int| 0 <= k < c.len() implies #[trigger] c[k] != 0
                    && text::parsed_i32(w[k]) == Some(c[k] as int) by {
                    if k > 0 {
                        assert(c[k] == r[k - 1]);
                        assert(w[k] == rest[k - 1]);
                    }
                }
                if c.len() < w.len() {
                    assert(w[c.len() as int] == rest[r.len() as int]);
                }
            },
            Err(t) => {
                let k = choose|k: int|
                    0 <= k < rest.len() && #[trigger] rest[k] == t && text::parsed_i32(t) is None
                        && forall|j: int|
                        0 <= j < k ==> text::parsed_i32(#[trigger] rest[j]) is Some
                            && text::parsed_i32(rest[j]) != Some(0int);
                assert(w[k + 1] == t);
                assert forall|j: int| 0 <= j < k + 1 implies text::parsed_i32(
                    #[trigger] w[j],
                ) is Some && text::parsed_i32(w[j]) != Some(0int) by {
                    if j > 0 {
                        assert(w[j] == rest[j - 1]);
                    }
                }
            },
        }
    } else if w.len() > 0 {
        assert(w[0] == w[0]);
    }
}

/// What the first characters of a line make of it: a comment changes nothing,
/// a status line sets the status, `v` adds literals to the model, `d` adds a
/// step to the proof, and a line of numbers after the header adds a clause.
pub proof fn lines_by_their_start(d: Draft, t: Text)
    ensures
        proof_file::with_line(d, seq!['c'] + t) == Ok::<Draft, Text>(d),
        proof_file::with_line(d, Seq::empty()) == Ok::<Draft, Text>(d),
        proof_file::with_line(d, "s SAT"@) == Ok::<Draft, Text>(
            Draft { status: Some(Status::Sat), ..d },
        ),
        proof_file::with_line(d, "s UNSAT"@) == Ok::<Draft, Text>(
            Draft { status: Some(Status::Unsat), ..d },
        ),
        proof_file::model_lits_of(text::words(t)) matches Ok(c) ==> proof_file::with_line(
            d,
            seq!['v', ' '] + t,
        ) == Ok::<Draft, Text>(Draft { model_lits: d.model_lits + c, ..d }),
        proof_file::lits_of(text::words(t)) matches Some(c) ==> proof_file::with_line(
            d,
            seq!['d', ' '] + t,
        ) == Ok::<Draft, Text>(Draft { drup: d.drup.push(c), ..d }),
        d.num_vars is Some && t.len() > 0 && (text::is_digit(t[0]) || t[0] == '-') && t != "0"@
            ==> (
        proof_file::lits_of(text::words(t)) matches Some(c) ==> proof_file::with_line(d, t)
            == Ok::<Draft, Text>(Draft { clauses: d.clauses.push(c), ..d })),
{
    proof_text::format_words();
    proof_text::fixed_lines_read(d);
    proof_text::trimmed_is("s SAT"@);
    proof_text::trimmed_is("s UNSAT"@);
    let c = seq!['c'] + t;
    assert(c.take(1) =~= "c"@);
    assert("c"@.is_prefix_of(c));
    let v = seq!['v', ' '] + t;
    assert(v[0] == 'v');
    assert(v.take(2) =~= "v "@);
    assert("v "@.is_prefix_of(v));
    assert(v.skip(2) =~= t);
    proof_text::not_prefix("c"@, v);
    proof_text::not_prefix("p cnf "@, v);
    proof_text::not_prefix("s SAT"@, v);
    proof_text::not_prefix("s UNSAT"@, v);
    let s = seq!['d', ' '] + t;
    assert(s[0] == 'd');
    assert(s.take(2) =~= "d "@);
    assert("d "@.is_prefix_of(s));
    assert(s.skip(2) =~= t);
    proof_text::not_prefix("c"@, s);
    proof_text::not_prefix("p cnf "@, s);
    proof_text::not_prefix("s SAT"@, s);
    proof_text::not_prefix("s UNSAT"@, s);
    proof_text::not_prefix("v "@, s);
    if t.len() > 0 && (text::is_digit(t[0]) || t[0] == '-') {
        proof_text::not_prefix("c"@, t);
        proof_text::not_prefix("p cnf "@, t);
        proof_text::not_prefix("s SAT"@, t);
        proof_text::not_prefix("s UNSAT"@, t);
        proof_text::not_prefix("v "@, t);
        proof_text::not_prefix("d "@, t);
    }
}

/// A fault names the line that it is in, the first line being line one.
pub proof fn faults_name_their_line(
    d: Draft,
    a: Seq<Text>,
    line: Text,
    b: Seq<Text>,
    mid: Draft,
    msg: Text,
)
    requires
        proof_file::with_lines(d, a, 0) == Ok::<Draft, Fault>(mid),
        proof_file::with_line(mid, text::trimmed(line)) == Err::<Draft, Text>(msg),
    ensures
        proof_file::with_lines(d, a + seq![line] + b, 0) == Err::<Draft, Fault>(
            Fault::Malformed { line: a.len() + 1, msg },
        ),
{
    let rest = seq![line] + b;
    assert(a + seq![line] + b =~= a + rest);
    proof_text::with_lines_append(d, a, rest, 0, mid);
    assert(rest[0] == line);
}

/// A literal of a model sets its variable and no other, and a later literal
/// prevails.
pub proof fn literals_set_their_variables(values: Seq<bool>, lits: Seq<i32>, l: i32, v: int)
    requires
        l != 0,
        l != i32::MIN,
        0 <= v < values.len(),
        (if l > 0 {
            l as int
        } else {
            -(l as int)
        }) < values.len(),
        forall|k: int| 0 <= k < lits.len() ==> logic::dimacs_var(#[trigger] lits[k]) < values.len(),
    ensures
        ({
            let x = if l > 0 {
                l as int
            } else {
                -(l as int)
            };
            let after = proof_file::with_lits(values, lits.push(l));
            &&& proof_file::with_lits(values, Seq::empty()) == values
            &&& after.len() == values.len()
            &&& after[x] == (l > 0)
            &&& v != x ==> after[v] == proof_file::with_lits(values, lits)[v]
        }),
{
    lits_len(values, lits);
    assert(lits.push(l).drop_last() =~= lits);
}

proof fn lits_len(values: Seq<bool>, lits: Seq<i32>)
    requires
        forall|k: int| 0 <= k < lits.len() ==> logic::dimacs_var(#[trigger] lits[k]) < values.len(),
    ensures
        proof_file::with_lits(values, lits).len() == values.len(),
    decreases lits.len(),
{
    if lits.len() > 0 {
        let rest = lits.drop_last();
        assert forall|k: int| 0 <= k < rest.len() implies logic::dimacs_var(#[trigger] rest[k])
            < values.len() by {
            assert(rest[k] == lits[k]);
        }
        lits_len(values, rest);
        assert(logic::dimacs_var(lits[lits.len() - 1]) < values.len());
    }
}

/// A file without a header or a status is refused; else its contents are those
/// that its lines gave, and the model has a value for each variable.
pub proof fn complete_files(d: Draft)
    ensures
        d.num_vars is None <==> proof_file::completed(d) == Err::<Contents, Fault>(
            Fault::MissingHeader,
        ),
        d.num_vars is Some && d.status is None <==> proof_file::completed(d) == Err::<
            Contents,
            Fault,
        >(Fault::MissingStatus),
        proof_file::completed(d) matches Ok(c) ==> {
            &&& Some(c.num_vars) == d.num_vars
            &&& Some(c.status) == d.status
            &&& c.clauses == d.clauses
            &&& c.drup == d.drup
        },
{
}

// ---------------------------------------------------------------------------
// Models
// ---------------------------------------------------------------------------

/// A literal is within the variables.
pub open spec fn within(lit: i32, num_vars: u32) -> bool {
    -(num_vars as int) <= lit <= num_vars
}

/// A literal is true in a model: its variable is true for a positive one, and
/// false for another.
pub open spec fn true_in(model: Seq<bool>, lit: i32) -> bool {
    if lit > 0 {
        model[lit as int]
    } else {
        !model[-(lit as int)]
    }
}

/// A clause is within the variables and has a literal that is true in a model.
pub open spec fn satisfied_in(num_vars: u32, c: Seq<i32>, m: Seq<bool>) -> bool {
    &&& forall|j: int| 0 <= j < c.len() ==> within(#[trigger] c[j], num_vars)
    &&& exists|j: int| 0 <= j < c.len() && true_in(m, #[trigger] c[j])
}

proof fn clause_satisfied(num_vars: u32, c: Seq<i32>, m: Seq<bool>)
    requires
        m.len() > num_vars,
    ensures
        model::in_range(num_vars, c) && logic::dimacs_clause_holds(model::model_valuation(m), c)
            <==> satisfied_in(num_vars, c, m),
{
    let val = model::model_valuation(m);
    assert(model::in_range(num_vars, c) <==> forall|j: int|
        0 <= j < c.len() ==> within(#[trigger] c[j], num_vars)) by {
        if model::in_range(num_vars, c) {
            assert forall|j: int| 0 <= j < c.len() implies within(#[trigger] c[j], num_vars) by {
                assert(logic::dimacs_var(c[j]) <= num_vars);
            }
        }
        if forall|j: int| 0 <= j < c.len() ==> within(#[trigger] c[j], num_vars) {
            assert forall|j: int| 0 <= j < c.len() implies logic::dimacs_var(#[trigger] c[j])
                <= num_vars by {
                assert(within(c[j], num_vars));
            }
        }
    }
    if model::in_range(num_vars, c) {
        assert forall|j: int| 0 <= j < c.len() implies logic::dimacs_holds(
            val,
            #[trigger] c[j],
        ) == true_in(m, c[j]) by {
            assert(logic::dimacs_var(c[j]) <= num_vars);
        }
        if logic::dimacs_clause_holds(val, c) {
            let j = choose|j: int| 0 <= j < c.len() && logic::dimacs_holds(val, #[trigger] c[j]);
            assert(true_in(m, c[j]));
        }
        if exists|j: int| 0 <= j < c.len() && true_in(m, #[trigger] c[j]) {
            let j = choose|j: int| 0 <= j < c.len() && true_in(m, #[trigger] c[j]);
            assert(logic::dimacs_holds(val, c[j]));
        }
    }
}

/// A model is accepted exactly if every clause is within the variables and has
/// a literal that is true in the model.
pub proof fn accepted_models(num_vars: u32, clauses: Seq<Seq<i32>>, m: Seq<bool>)
    requires
        m.len() > num_vars,
    ensures
        model::good_before(num_vars, clauses, m, clauses.len() as int) <==> forall|i: int|
            0 <= i < clauses.len() ==> satisfied_in(num_vars, #[trigger] clauses[i], m),
{
    assert forall|i: int| 0 <= i < clauses.len() implies (model::in_range(
        num_vars,
        #[trigger] clauses[i],
    ) && logic::dimacs_clause_holds(model::model_valuation(m), clauses[i])) == satisfied_in(
        num_vars,
        clauses[i],
        m,
    ) by {
        clause_satisfied(num_vars, clauses[i], m);
    }
}

// ---------------------------------------------------------------------------
// Proofs
// ---------------------------------------------------------------------------

/// What is said of a proof that is refused: it has no steps; it does not end
/// with the empty clause; or the step that is named, which is a step of the
/// proof, is the first that does not follow.
pub proof fn refused_proofs(
    num_vars: u32,
    original: Seq<Seq<i32>>,
    steps: Seq<Seq<i32>>,
    r: Result<usize, DrupError>,
)
    requires
        drup::drup_result(num_vars, original, steps, r),
    ensures
        r matches Err(DrupError::EmptyProof) <==> steps.len() == 0,
        r matches Err(DrupError::NoEmptyClause) <==> steps.len() > 0 && steps.last().len() > 0,
        r matches Err(DrupError::NotRup { step, clause }) ==> {
            &&& step < steps.len()
            &&& clause@ == steps[step as int]
            &&& !drup::rup(original, steps, step as int)
            &&& forall|t: int| 0 <= t < step ==> drup::rup(original, steps, t) && (
            #[trigger] steps[t]).len() > 0
        },
        r matches Ok(n) ==> {
            &&& 1 <= n <= steps.len()
            &&& steps[n - 1].len() == 0
            &&& forall|t: int| 0 <= t < n ==> #[trigger] drup::rup(original, steps, t)
        },
        r matches Err(DrupError::OutOfRange { lit, var, num_vars: n }) ==> n == num_vars
            && !within(lit, num_vars) && (var == lit || var == -(lit as int)),
{
    if let Err(DrupError::OutOfRange { lit, .. }) = r {
        let all = original + steps;
        let (i, j) = choose|i: int, j: int| #[trigger]
            drup::first_out_of_range(num_vars, all, i, j) && all[i][j] == lit;
        assert(logic::dimacs_var(lit) > num_vars);
    }
}

proof fn negations_hold(c: Seq<i32>, n: int)
    requires
        0 <= n <= c.len(),
        forall|k: int| 0 <= k < c.len() ==> #[trigger] c[k] != 0 && c[k] != i32::MIN,
        forall|k: int, j: int|
            0 <= k < c.len() && 0 <= j < c.len() ==> #[trigger] c[k] != -(#[trigger] c[j]),
    ensures
        forall|k: int|
            0 <= k < n ==> drup::lit_false(
                drup::assume_all(drup::negated(c).take(n)),
                #[trigger] c[k],
            ),
    decreases n,
{
    if n > 0 {
        negations_hold(c, n - 1);
        let neg = drup::negated(c);
        let m = drup::assume_all(neg.take(n - 1));
        let after = drup::assume_all(neg.take(n));
        assert(neg.take(n).drop_last() =~= neg.take(n - 1));
        assert(neg.take(n).last() == neg[n - 1]);
        assert(after == drup::assign(m, neg[n - 1]));
        assert(c[n - 1] != 0 && c[n - 1] != i32::MIN);
        assert(neg[n - 1] == -(c[n - 1] as int));
        assert forall|k: int| 0 <= k < n implies drup::lit_false(after, #[trigger] c[k]) by {
            assert(c[k] != 0 && c[k] != i32::MIN);
            assert(c[k] != -(c[n - 1]));
            if k < n - 1 {
                assert(drup::lit_false(m, c[k]));
            }
        }
    }
}

/// A clause that is there already follows, unless it holds of itself: such a
/// step is never refused.
pub proof fn known_clauses_follow(original: Seq<Seq<i32>>, steps: Seq<Seq<i32>>, s: int, at: int)
    requires
        0 <= s < steps.len(),
        0 <= at < original.len(),
        original[at] == steps[s],
        forall|k: int|
            0 <= k < steps[s].len() ==> #[trigger] steps[s][k] != 0 && steps[s][k] != i32::MIN,
        forall|k: int, j: int|
            0 <= k < steps[s].len() && 0 <= j < steps[s].len() ==> #[trigger] steps[s][k] != -(
            #[trigger] steps[s][j]),
    ensures
        drup::rup(original, steps, s),
{
    let c = steps[s];
    let db = original + steps.take(s);
    let m = drup::assume_all(drup::negated(c));
    negations_hold(c, c.len() as int);
    assert(drup::negated(c).take(c.len() as int) =~= drup::negated(c));
    let chain = seq![m];
    assert(drup::up_chain(db, chain));
    assert(db[at] == c);
    assert(drup::falsified(chain.last(), db[at]));
    assert(drup::refuting_chain(db, m, chain));
}

} // verus!
