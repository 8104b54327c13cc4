//! What splits and reports are for: the branches of a split cover the search
//! space and do not overlap, the most frequent variables are tried, and a
//! report holds every value.

use vstd::prelude::*;

#[allow(unused_imports)]
use crate::api::emit;
#[allow(unused_imports)]
use crate::api::meaning;
#[allow(unused_imports)]
use crate::api::meaning::Value;
#[allow(unused_imports)]
use crate::coordinator::laws;
#[allow(unused_imports)]
use crate::ir::meaning as vectors;
#[allow(unused_imports)]
use crate::node::lookahead;
#[allow(unused_imports)]
use crate::node::lookahead::{DeclView, ProbeOutcome, SExpr, VarSort};
#[allow(unused_imports)]
use crate::node::solve;
#[allow(unused_imports)]
use crate::node::solve::{BindingView, SolveOutcome};
#[allow(unused_imports)]
use crate::text;
use crate::text::Text;
#[allow(unused_imports)]
use vstd::arithmetic::div_mod::lemma_div_denominator;
#[allow(unused_imports)]
use vstd::arithmetic::power2::{lemma2_to64, lemma_pow2_pos, lemma_pow2_unfold, pow2};

verus! {

// ---------------------------------------------------------------------------
// Splits
// ---------------------------------------------------------------------------

/// A value is of a sort.
pub open spec fn of_sort(v: Value, s: VarSort) -> bool {
    match s {
        VarSort::Bool => v is Truth,
        VarSort::Int => v is Int,
        VarSort::BitVec(w) => v matches Value::Bits(b) && b.len() == w,
    }
}

/// An assertion of a condition.
pub open spec fn asserts(condition: Text) -> Text {
    "(assert "@ + condition + ")"@
}

proof fn low_bits_value(n: nat, w: nat)
    requires
        n < pow2(w),
    ensures
        vectors::number(vectors::low_bits(n as int, w)) == n,
    decreases w,
{
    let b = vectors::low_bits(n as int, w);
    lemma2_to64();
    if w > 0 {
        let half = n / 2;
        lemma_pow2_unfold(w);
        let rest = vectors::low_bits(half as int, (w - 1) as nat);
        assert forall|i: int| 0 <= i < w - 1 implies #[trigger] b.drop_first()[i] == rest[i] by {
            lemma_pow2_unfold((i + 1) as nat);
            lemma_pow2_pos(i as nat);
            lemma_div_denominator(n as int, 2, pow2(i as nat) as int);
            assert(b.drop_first()[i] == b[i + 1]);
        }
        assert(b.drop_first() =~= rest);
        low_bits_value(half, (w - 1) as nat);
        assert(b[0] == (n as int / 1 % 2 == 1));
    }
}

/// The conditions of the branches of a split, as forms.
spec fn branches(d: DeclView) -> (Text, Text) {
    let x = d.name;
    match d.sort {
        VarSort::Bool => (x, meaning::applied1("not"@, x)),
        VarSort::BitVec(w) => {
            let c = meaning::applied2("bvult"@, x, emit::bv_text(lookahead::middle(w), w as nat));
            (c, meaning::applied1("not"@, c))
        },
        VarSort::Int => (
            meaning::applied2(">="@, x, "0"@),
            meaning::applied2("<"@, x, "0"@),
        ),
    }
}

proof fn negated_branch(c: Text)
    ensures
        "(assert (not "@ + c + "))"@ == asserts(meaning::applied1("not"@, c)),
{
    reveal(meaning::applied1);
    reveal_strlit("(assert (not ");
    reveal_strlit("(assert ");
    reveal_strlit("(");
    reveal_strlit("not");
    reveal_strlit(" ");
    reveal_strlit("))");
    reveal_strlit(")");
    assert("(assert (not "@ =~= "(assert "@ + ("("@ + "not"@ + " "@));
    assert("))"@ =~= ")"@ + ")"@);
    assert("(assert (not "@ + c + "))"@ =~= asserts(meaning::applied1("not"@, c)));
}

proof fn vector_branch(x: Text, a: Text, b: Text)
    ensures
        "(bvult "@ + x + " (_ bv"@ + a + " "@ + b + "))"@ == meaning::applied2(
            "bvult"@,
            x,
            "(_ bv"@ + a + " "@ + b + ")"@,
        ),
{
    reveal(meaning::applied2);
    reveal_strlit("(bvult ");
    reveal_strlit("bvult");
    reveal_strlit(" (_ bv");
    reveal_strlit("(_ bv");
    reveal_strlit("(");
    reveal_strlit(" ");
    reveal_strlit("))");
    reveal_strlit(")");
    assert("(bvult "@ =~= "("@ + "bvult"@ + " "@);
    assert(" (_ bv"@ =~= " "@ + "(_ bv"@);
    assert("))"@ =~= ")"@ + ")"@);
    assert("(bvult "@ + x + " (_ bv"@ + a + " "@ + b + "))"@ =~= meaning::applied2(
        "bvult"@,
        x,
        "(_ bv"@ + a + " "@ + b + ")"@,
    ));
}

proof fn integer_branches(x: Text)
    ensures
        "(>= "@ + x + " 0)"@ == meaning::applied2(">="@, x, "0"@),
        "(assert (< "@ + x + " 0))"@ == asserts(meaning::applied2("<"@, x, "0"@)),
{
    reveal(meaning::applied2);
    reveal_strlit("(assert (< ");
    reveal_strlit("(assert ");
    reveal_strlit("(>= ");
    reveal_strlit(">=");
    reveal_strlit("<");
    reveal_strlit("0");
    reveal_strlit(" 0)");
    reveal_strlit(" 0))");
    reveal_strlit("(");
    reveal_strlit(" ");
    reveal_strlit(")");
    assert("(>= "@ =~= "("@ + ">="@ + " "@);
    assert(" 0)"@ =~= " "@ + "0"@ + ")"@);
    assert("(assert (< "@ =~= "(assert "@ + ("("@ + "<"@ + " "@));
    assert(" 0))"@ =~= " "@ + "0"@ + ")"@ + ")"@);
    assert("(>= "@ + x + " 0)"@ =~= meaning::applied2(">="@, x, "0"@));
    assert("(assert (< "@ + x + " 0))"@ =~= asserts(meaning::applied2("<"@, x, "0"@)));
}

proof fn branch_texts(d: DeclView)
    ensures
        lookahead::split_of(d).pos == asserts(branches(d).0),
        lookahead::split_of(d).neg == asserts(branches(d).1),
{
    match d.sort {
        VarSort::Bool => {
            negated_branch(d.name);
        },
        VarSort::BitVec(w) => {
            vector_branch(d.name, text::decimal(lookahead::middle(w)), text::decimal(w as nat));
            negated_branch(lookahead::condition(d));
        },
        VarSort::Int => {
            integer_branches(d.name);
        },
    }
}

/// The literal in the middle of the range of a vector.
proof fn middle_is_read(
    w: u32,
    r: spec_fn(Text) -> Value,
    env: spec_fn(Text) -> Value,
    b: Seq<bool>,
)
    requires
        meaning::reads_words(r, env),
        b.len() == w,
    ensures
        meaning::form(emit::bv_text(lookahead::middle(w), w as nat)),
        vectors::number(b) < vectors::number(
            meaning::bits(r(emit::bv_text(lookahead::middle(w), w as nat))),
        ) <==> w > 0 && 2 * vectors::number(b) < pow2(w as nat),
{
    reveal(meaning::reads_words);
    let m = lookahead::middle(w);
    meaning::bv_is_form(m, w as nat);
    let da = text::decimal(m);
    let db = text::decimal(w as nat);
    assert(r("(_ bv"@ + da + " "@ + db + ")"@) == Value::Bits(
        vectors::low_bits(m as int, w as nat),
    ));
    lemma2_to64();
    if w > 0 {
        lemma_pow2_unfold(w as nat);
        lemma_pow2_pos((w - 1) as nat);
        low_bits_value(m, w as nat);
    } else {
        assert(vectors::low_bits(m as int, 0).len() == 0);
        assert(vectors::number(vectors::low_bits(m as int, 0)) == 0);
    }
}

/// The branches of a split: under every assignment exactly one of them holds.
/// The first is the branch in which a Boolean is true, a vector is in the lower
/// half of its range, or an integer is not negative.
pub proof fn splits_cover_and_exclude(
    d: DeclView,
    r: spec_fn(Text) -> Value,
    env: spec_fn(Text) -> Value,
) -> (p: (Text, Text))
    requires
        meaning::is_name(d.name),
        meaning::reads(r, env),
        of_sort(env(d.name), d.sort),
    ensures
        lookahead::split_of(d).pos == asserts(p.0),
        lookahead::split_of(d).neg == asserts(p.1),
        meaning::form(p.0),
        meaning::form(p.1),
        meaning::truth(r(p.0)) <==> !meaning::truth(r(p.1)),
        meaning::truth(r(p.0)) <==> (match env(d.name) {
            Value::Truth(b) => b,
            Value::Int(n) => n >= 0,
            Value::Bits(b) => b.len() > 0 && 2 * vectors::number(b) < pow2(b.len()),
        }),
{
    let x = d.name;
    branch_texts(d);
    assert(r(x) == env(x)) by {
        reveal(meaning::reads_words);
    }
    match d.sort {
        VarSort::Bool => {
            meaning::not_is_read(x, r);
        },
        VarSort::BitVec(w) => {
            middle_is_read(w, r, env, meaning::bits(env(x)));
            meaning::bvult_is_read(x, emit::bv_text(lookahead::middle(w), w as nat), r);
            meaning::not_is_read(branches(d).0, r);
        },
        VarSort::Int => {
            meaning::zero_is_read(x, r, env);
        },
    }
    branches(d)
}

/// The script that probes a branch asks for the cube of that branch alone.
pub proof fn probes_ask_for_their_branch(base: Text, branch: Text)
    ensures
        laws::asks_for(lookahead::probe_text(base, branch), base, seq![branch]),
{
    reveal_strlit("\n");
    reveal_strlit("\n(check-sat)\n");
    reveal_strlit("(check-sat)\n");
    let none = Seq::<Text>::empty();
    crate::certify::proof_text::unlines_push(none, branch);
    assert(none.push(branch) =~= seq![branch]);
    assert(lookahead::probe_text(base, branch) =~= base + seq!['\n']
        + crate::certify::proof_text::unlines(seq![branch]) + "(check-sat)\n"@);
}

// ---------------------------------------------------------------------------
// Occurrences
// ---------------------------------------------------------------------------

/// A name of identifier characters.
pub open spec fn is_identifier(t: Text) -> bool {
    &&& t.len() > 0
    &&& forall|i: int| 0 <= i < t.len() ==> lookahead::in_identifier(#[trigger] t[i])
}

proof fn before_separator(a: Text, c: char, b: Text, name: Text, n: int)
    requires
        is_identifier(name),
        !lookahead::in_identifier(c),
        0 <= n <= a.len(),
    ensures
        lookahead::occurrences(a + seq![c] + b, name, n) == lookahead::occurrences(a, name, n),
    decreases n,
{
    if n > 0 {
        before_separator(a, c, b, name, n - 1);
        let s = a + seq![c] + b;
        let i = n - 1;
        let k = name.len();
        assert(s[a.len() as int] == c);
        if i + k <= a.len() {
            assert(s.subrange(i, i + k) =~= a.subrange(i, i + k));
        } else if i + k <= s.len() {
            assert(s.subrange(i, i + k)[a.len() - i] == c);
            if s.subrange(i, i + k) == name {
                assert(lookahead::in_identifier(name[a.len() - i]));
            }
        }
    }
}

proof fn after_separator(a: Text, c: char, b: Text, name: Text, n: int)
    requires
        is_identifier(name),
        !lookahead::in_identifier(c),
        0 <= n <= b.len(),
    ensures
        lookahead::occurrences(a + seq![c] + b, name, a.len() + 1 + n) == lookahead::occurrences(
            a,
            name,
            a.len() as int,
        ) + lookahead::occurrences(b, name, n),
    decreases n,
{
    let s = a + seq![c] + b;
    let k = name.len();
    if n > 0 {
        after_separator(a, c, b, name, n - 1);
        let i = n - 1;
        let j = a.len() + 1 + i;
        assert(s[a.len() as int] == c);
        if i + k <= b.len() {
            assert(s.subrange(j, j + k) =~= b.subrange(i, i + k));
            if i + k < b.len() {
                assert(s[j + k] == b[i + k]);
            }
        }
        if i > 0 {
            assert(s[j - 1] == b[i - 1]);
        } else {
            assert(s[j - 1] == c);
        }
        assert(lookahead::occurs_at(s, name, j) <==> lookahead::occurs_at(b, name, i));
    } else {
        before_separator(a, c, b, name, a.len() as int);
        let at = a.len() as int;
        if lookahead::occurs_at(s, name, at) {
            assert(s.subrange(at, at + k)[0] == c);
            assert(lookahead::in_identifier(name[0]));
        }
    }
}

/// A name is counted in each of the parts between separators.
pub proof fn occurrences_add_up(a: Text, c: char, b: Text, name: Text)
    requires
        is_identifier(name),
        !lookahead::in_identifier(c),
    ensures
        lookahead::count_of(a + seq![c] + b, name) == lookahead::count_of(a, name)
            + lookahead::count_of(b, name),
{
    after_separator(a, c, b, name, b.len() as int);
}

/// A part without separators counts if it is the name, and only then.
pub proof fn whole_identifiers_count(part: Text, name: Text)
    requires
        is_identifier(name),
        is_identifier(part) || part.len() == 0,
    ensures
        lookahead::count_of(part, name) == (if part == name {
            1nat
        } else {
            0
        }),
{
    whole_until(part, name, part.len() as int);
}

proof fn whole_until(part: Text, name: Text, n: int)
    requires
        is_identifier(name),
        is_identifier(part) || part.len() == 0,
        0 <= n <= part.len(),
    ensures
        lookahead::occurrences(part, name, n) == (if part == name && n > 0 {
            1nat
        } else {
            0
        }),
    decreases n,
{
    if n > 0 {
        whole_until(part, name, n - 1);
        let i = n - 1;
        if i > 0 {
            assert(lookahead::in_identifier(part[i - 1]));
            assert(!lookahead::occurs_at(part, name, i));
        } else {
            if lookahead::occurs_at(part, name, 0) {
                if (name.len() as int) < part.len() {
                    assert(lookahead::in_identifier(part[name.len() as int]));
                }
                assert(part.subrange(0, part.len() as int) =~= part);
            }
            if part == name {
                assert(part.subrange(0, part.len() as int) =~= part);
            }
        }
    }
}

// ---------------------------------------------------------------------------
// Candidates
// ---------------------------------------------------------------------------

/// The candidates are among the declarations, no more than the limit, and no
/// declaration that was left out occurs more often than one of them.
pub proof fn candidates_are_most_frequent(script: Text, decls: Seq<DeclView>)
    ensures
        ({
            let c = lookahead::top(script, decls);
            &&& c.len() == (if decls.len() <= lookahead::MAX_CANDIDATES {
                decls.len() as int
            } else {
                lookahead::MAX_CANDIDATES as int
            })
            &&& exists|rest: Seq<DeclView>|
                #[trigger] (c + rest).to_multiset() == decls.to_multiset() && forall|i: int, j: int|
                    0 <= i < j < c.len() + rest.len() ==> lookahead::count_of(
                        script,
                        (#[trigger] (c + rest)[i]).name,
                    ) >= lookahead::count_of(script, (#[trigger] (c + rest)[j]).name)
            &&& forall|k: int|
                0 <= k < decls.len() && c.len() > 0 ==> lookahead::count_of(
                    script,
                    (#[trigger] decls[k]).name,
                ) <= lookahead::count_of(script, c[0].name)
        }),
{
    broadcast use vstd::seq_lib::group_to_multiset_ensures;

    let c = lookahead::top(script, decls);
    let sorted = lookahead::by_frequency(script, decls);
    lookahead::frequency_order(script, decls);
    let rest = sorted.skip(c.len() as int);
    assert(c + rest =~= sorted);
    assert((c + rest).to_multiset() == decls.to_multiset());
    assert forall|k: int| 0 <= k < decls.len() && c.len() > 0 implies lookahead::count_of(
        script,
        (#[trigger] decls[k]).name,
    ) <= lookahead::count_of(script, c[0].name) by {
        assert(decls.to_multiset().count(decls[k]) > 0);
        assert(sorted.to_multiset().count(decls[k]) > 0);
        let i = choose|i: int| 0 <= i < sorted.len() && sorted[i] == decls[k];
        assert(sorted[0] == c[0]);
        assert(lookahead::count_of(script, sorted[0].name) >= lookahead::count_of(
            script,
            sorted[i].name,
        ));
    }
}

/// The declarations of a longer script are those of its parts.
pub proof fn declarations_in_order(a: Seq<SExpr>, b: Seq<SExpr>)
    ensures
        lookahead::all_declared(a + b) == lookahead::all_declared(a) + lookahead::all_declared(b),
    decreases b.len(),
{
    if b.len() == 0 {
        assert(a + b =~= a);
        assert(lookahead::all_declared(a + b) =~= lookahead::all_declared(a)
            + lookahead::all_declared(b));
    } else {
        declarations_in_order(a, b.drop_last());
        assert((a + b).drop_last() =~= a + b.drop_last());
        assert(lookahead::all_declared(a + b) =~= lookahead::all_declared(a)
            + lookahead::all_declared(b));
    }
}

// ---------------------------------------------------------------------------
// Reports
// ---------------------------------------------------------------------------

/// The codes of reports: zero where the script is satisfiable, one where it is
/// not, and two where nothing is known.
pub proof fn report_codes(o: SolveOutcome)
    ensures
        o is Sat || o is EmptyProblem <==> solve::reported(o).0 == 0,
        o is Unsat <==> solve::reported(o).0 == 1,
        o is ParseError || o is SolverError || o is Unknown <==> solve::reported(o).0 == 2,
{
}

/// A report of one value is the name and the value in brackets, and a report of
/// more is the reports of its parts with a blank between them.
pub proof fn reports_hold_every_value(a: Seq<BindingView>, b: Seq<BindingView>, v: BindingView)
    requires
        a.len() > 0,
        b.len() > 0,
    ensures
        solve::model_text(seq![v]) == seq!['('] + v.name + seq![' '] + v.value + seq![')'],
        solve::model_text(a + b) == solve::model_text(a) + seq![' '] + solve::model_text(b),
    decreases b.len(),
{
    reveal_strlit("(");
    reveal_strlit(" ");
    reveal_strlit(")");
    assert(solve::model_text(seq![v]) =~= seq!['('] + v.name + seq![' '] + v.value + seq![')']);
    let s = a + b;
    assert(s.drop_last() =~= a + b.drop_last());
    assert(s.last() == b.last());
    if b.len() == 1 {
        assert(s.drop_last() =~= a);
        assert(solve::model_text(s) =~= solve::model_text(a) + seq![' '] + solve::model_text(b));
    } else {
        reports_hold_every_value(a, b.drop_last(), v);
        assert(solve::model_text(s) =~= solve::model_text(a) + seq![' '] + solve::model_text(b));
    }
}

// ---------------------------------------------------------------------------
// Declarations
// ---------------------------------------------------------------------------

/// A symbol.
pub open spec fn symbol(e: SExpr, t: Text) -> bool {
    e matches SExpr::Symbol(s) && s@ == t
}

/// An expression is a sort: `Bool`, `Int`, or `(_ BitVec n)`.
pub open spec fn writes_sort(e: SExpr, s: VarSort) -> bool {
    match s {
        VarSort::Bool => symbol(e, "Bool"@),
        VarSort::Int => symbol(e, "Int"@),
        VarSort::BitVec(w) => {
            &&& e matches SExpr::List(items) && items@.len() == 3 && symbol(items@[0], "_"@)
                && symbol(items@[1], "BitVec"@) && items@[2] == SExpr::Numeral(w as u64)
        },
    }
}

/// An expression declares a constant, in one of the two forms.
pub open spec fn writes_declaration(e: SExpr, name: Text, s: VarSort) -> bool {
    e matches SExpr::List(items) && {
        ||| {
            &&& items@.len() == 3
            &&& symbol(items@[0], "declare-const"@)
            &&& symbol(items@[1], name)
            &&& writes_sort(items@[2], s)
        }
        ||| {
            &&& items@.len() == 4
            &&& symbol(items@[0], "declare-fun"@)
            &&& symbol(items@[1], name)
            &&& items@[2] matches SExpr::List(args) && args@.len() == 0
            &&& writes_sort(items@[3], s)
        }
    }
}

/// A declaration is read as what it declares, wherever it stands in a script.
pub proof fn declarations_are_read(
    before: Seq<SExpr>,
    e: SExpr,
    after: Seq<SExpr>,
    name: Text,
    s: VarSort,
)
    requires
        writes_declaration(e, name, s),
    ensures
        lookahead::declared(e) == Some(DeclView { name, sort: s }),
        lookahead::all_declared(before + seq![e] + after) == lookahead::all_declared(before)
            + seq![DeclView { name, sort: s }] + lookahead::all_declared(after),
{
    reveal_strlit("Bool");
    reveal_strlit("Int");
    assert("Bool"@.len() == 4 && "Int"@.len() == 3);
    declarations_in_order(before, seq![e]);
    declarations_in_order(before + seq![e], after);
    assert(seq![e].drop_last() =~= Seq::<SExpr>::empty());
    assert(lookahead::all_declared(seq![e].drop_last()) =~= Seq::<DeclView>::empty());
    assert(lookahead::all_declared(seq![e]) =~= seq![DeclView { name, sort: s }]);
}

} // verus!
