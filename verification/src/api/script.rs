//! What a script holds: the logic that its assertions need, a declaration for
//! every constant, and every assertion, each on a line.

use vstd::prelude::*;

use crate::api::expr::{Expr, ExprNode};
#[allow(unused_imports)]
use crate::api::emit;
#[allow(unused_imports)]
use crate::api::expr;
#[allow(unused_imports)]
use crate::api::meaning;
#[allow(unused_imports)]
use crate::api::sort;
use crate::api::sort::Sort;
#[allow(unused_imports)]
use crate::certify::proof_text;
#[allow(unused_imports)]
use crate::text;
use crate::text::Text;

verus! {

/// Some node of an expression is of a kind.
pub open spec fn found(e: Expr, p: spec_fn(ExprNode) -> bool) -> bool
    decreases e, meaning::operands(*e.0).len() + 1,
{
    p(*e.0) || found_below(e, p, meaning::operands(*e.0).len())
}

/// Some node below the first `n` operands is of a kind.
pub open spec fn found_below(e: Expr, p: spec_fn(ExprNode) -> bool, n: nat) -> bool
    decreases e, n,
{
    0 < n <= meaning::operands(*e.0).len() && (found(meaning::operands(*e.0)[n - 1], p)
        || found_below(e, p, (n - 1) as nat))
}

/// Some node of some assertion is of a kind.
pub open spec fn found_in(es: Seq<Expr>, p: spec_fn(ExprNode) -> bool) -> bool {
    exists|k: int| 0 <= k < es.len() && found(#[trigger] es[k], p)
}

/// Some of the listed nodes is of a kind.
spec fn listed(es: Seq<Expr>, p: spec_fn(ExprNode) -> bool) -> bool {
    exists|i: int| 0 <= i < es.len() && p(*(#[trigger] es[i]).0)
}

proof fn listed_concat(a: Seq<Expr>, b: Seq<Expr>, p: spec_fn(ExprNode) -> bool)
    ensures
        listed(a + b, p) <==> listed(a, p) || listed(b, p),
{
    let s = a + b;
    if listed(s, p) {
        let i = choose|i: int| 0 <= i < s.len() && p(*(#[trigger] s[i]).0);
        if i < a.len() {
            assert(p(*a[i].0));
        } else {
            assert(p(*b[i - a.len()].0));
        }
    }
    if listed(a, p) {
        let i = choose|i: int| 0 <= i < a.len() && p(*(#[trigger] a[i]).0);
        assert(p(*s[i].0));
    }
    if listed(b, p) {
        let i = choose|i: int| 0 <= i < b.len() && p(*(#[trigger] b[i]).0);
        assert(p(*s[i + a.len()].0));
    }
}

proof fn operands_are_parts(e: Expr)
    ensures
        meaning::operands(*e.0) == expr::parts(*e.0),
{
}

/// The nodes that are visited are the nodes of an expression.
proof fn visited_is_found(e: Expr, p: spec_fn(ExprNode) -> bool)
    ensures
        listed(emit::visited(e), p) <==> found(e, p),
    decreases e, 1nat, 0nat,
{
    operands_are_parts(e);
    let head = seq![e];
    let rest = emit::visited_parts(e, parts_of(e).len());
    listed_concat(head, rest, p);
    visited_below(e, p, parts_of(e).len());
    assert(listed(head, p) <==> p(*e.0)) by {
        assert(head[0] == e);
    }
}

spec fn parts_of(e: Expr) -> Seq<Expr> {
    expr::parts(*e.0)
}

proof fn visited_below(e: Expr, p: spec_fn(ExprNode) -> bool, n: nat)
    requires
        n <= expr::parts(*e.0).len(),
    ensures
        listed(emit::visited_parts(e, n), p) <==> found_below(e, p, n),
    decreases e, 0nat, n,
{
    operands_are_parts(e);
    if n > 0 {
        expr::parts_are_smaller(e, n - 1);
        visited_is_found(parts_of(e)[n - 1], p);
        visited_below(e, p, (n - 1) as nat);
        listed_concat(
            emit::visited(parts_of(e)[n - 1]),
            emit::visited_parts(e, (n - 1) as nat),
            p,
        );
    }
}

proof fn visited_all_is_found(es: Seq<Expr>, p: spec_fn(ExprNode) -> bool)
    ensures
        listed(emit::visited_all(es), p) <==> found_in(es, p),
    decreases es.len(),
{
    if es.len() > 0 {
        let rest = es.drop_last();
        visited_all_is_found(rest, p);
        visited_is_found(es.last(), p);
        listed_concat(emit::visited(es.last()), emit::visited_all(rest), p);
        if found_in(es, p) {
            let k = choose|k: int| 0 <= k < es.len() && found(#[trigger] es[k], p);
            if k < rest.len() {
                assert(found(rest[k], p));
            }
        }
        if found_in(rest, p) {
            let k = choose|k: int| 0 <= k < rest.len() && found(#[trigger] rest[k], p);
            assert(found(es[k], p));
        }
        if found(es.last(), p) {
            assert(found(es[es.len() - 1], p));
        }
    }
}

// ---------------------------------------------------------------------------
// Declarations
// ---------------------------------------------------------------------------

/// A constant of a name and a sort.
pub open spec fn is_constant(node: ExprNode, name: Text, s: Sort) -> bool {
    node matches ExprNode::Const(n, t) && n@ == name && t == s
}

proof fn first_sort_is(nodes: Seq<Expr>, name: Text, s: Sort)
    ensures
        emit::first_sort(nodes, name) == Some(s) ==> listed(
            nodes,
            |n: ExprNode| is_constant(n, name, s),
        ),
        emit::first_sort(nodes, name) is None ==> !listed(
            nodes,
            |n: ExprNode| is_constant(n, name, s),
        ),
    decreases nodes.len(),
{
    if nodes.len() > 0 {
        let rest = nodes.drop_last();
        first_sort_is(rest, name, s);
        let p = |n: ExprNode| is_constant(n, name, s);
        if listed(nodes, p) {
            let i = choose|i: int| 0 <= i < nodes.len() && p(*(#[trigger] nodes[i]).0);
            if i < rest.len() {
                assert(p(*rest[i].0));
            }
        }
        if listed(rest, p) {
            let i = choose|i: int| 0 <= i < rest.len() && p(*(#[trigger] rest[i]).0);
            assert(p(*nodes[i].0));
        }
        assert(is_constant(*nodes.last().0, name, s) ==> p(*nodes[nodes.len() - 1].0));
    }
}

/// Every constant that occurs in an assertion is declared, once; what is
/// declared occurs, with its sort; and where each name has one sort, it is
/// declared with that.
pub proof fn constants_are_declared(assertions: Seq<Expr>, name: Text, s: Sort)
    ensures
        ({
            let decls = emit::decls_of(assertions);
            &&& found_in(assertions, |n: ExprNode| is_constant(n, name, s)) ==> exists|i: int|
                0 <= i < decls.len() && (#[trigger] decls[i]).0 == name
            &&& decls.contains((name, s)) ==> found_in(
                assertions,
                |n: ExprNode| is_constant(n, name, s),
            )
            &&& forall|i: int, j: int|
                0 <= i < j < decls.len() ==> (#[trigger] decls[i]).0 != (#[trigger] decls[j]).0
        }),
{
    let nodes = emit::visited_all(assertions);
    let decls = emit::decls_of(assertions);
    let p = |n: ExprNode| is_constant(n, name, s);
    emit::declared_once(nodes, name);
    first_sort_is(nodes, name, s);
    visited_all_is_found(assertions, p);
    if found_in(assertions, p) {
        assert(listed(nodes, |n: ExprNode| is_constant(n, name, s)));
        assert(emit::declares(decls, name));
    }
    if decls.contains((name, s)) {
        let i = choose|i: int| 0 <= i < decls.len() && decls[i] == (name, s);
        assert(decls[i].0 == name);
        assert(emit::first_sort(nodes, name) == Some(s));
    }
}

/// Sorts are written apart.
pub proof fn sorts_stay_apart(a: Sort, b: Sort)
    requires
        sort::sort_text(a) == sort::sort_text(b),
    ensures
        a == b,
{
    reveal_strlit("Bool");
    reveal_strlit("Int");
    reveal_strlit("(_ BitVec ");
    reveal_strlit(")");
    if let (Sort::BitVec(x), Sort::BitVec(y)) = (a, b) {
        let p = "(_ BitVec "@;
        let s = p + text::decimal(x as nat) + ")"@;
        let t = p + text::decimal(y as nat) + ")"@;
        assert(s == t);
        assert(text::decimal(x as nat) =~= s.subrange(p.len() as int, s.len() - 1));
        assert(text::decimal(y as nat) =~= t.subrange(p.len() as int, t.len() - 1));
        text::decimal_round_trip(x as nat);
        text::decimal_round_trip(y as nat);
        assert(x == y);
    } else {
        starts(a);
        starts(b);
    }
}

/// Sorts differ by their first characters.
proof fn starts(s: Sort)
    ensures
        sort::sort_text(s).len() > 0,
        sort::sort_text(s)[0] == (match s {
            Sort::Bool => 'B',
            Sort::Int => 'I',
            Sort::BitVec(_) => '(',
        }),
{
    reveal_strlit("Bool");
    reveal_strlit("Int");
    reveal_strlit("(_ BitVec ");
}

// ---------------------------------------------------------------------------
// Logics
// ---------------------------------------------------------------------------

/// A vector: a constant or a literal.
pub open spec fn is_vector(n: ExprNode) -> bool {
    match n {
        ExprNode::Const(_, s) => s is BitVec,
        ExprNode::BitVecLit(..) => true,
        _ => false,
    }
}

/// An integer: a constant or a literal.
pub open spec fn is_integer(n: ExprNode) -> bool {
    match n {
        ExprNode::Const(_, s) => s is Int,
        ExprNode::IntLit(..) => true,
        _ => false,
    }
}

/// A node of every logic: a Boolean, a connective, or an equality.
pub open spec fn is_core(n: ExprNode) -> bool {
    match n {
        ExprNode::Const(_, s) => s is Bool,
        ExprNode::BoolLit(..) => true,
        ExprNode::Not(..) => true,
        ExprNode::And(..) => true,
        ExprNode::Or(..) => true,
        ExprNode::Implies(..) => true,
        ExprNode::Iff(..) => true,
        ExprNode::Ite(..) => true,
        ExprNode::Eq(..) => true,
        ExprNode::Distinct(..) => true,
        _ => false,
    }
}

/// An operator on integers.
pub open spec fn is_arithmetic(n: ExprNode) -> bool {
    match n {
        ExprNode::Add(..) => true,
        ExprNode::Sub(..) => true,
        ExprNode::Mul(..) => true,
        ExprNode::Neg(..) => true,
        ExprNode::Lt(..) => true,
        ExprNode::Le(..) => true,
        ExprNode::Gt(..) => true,
        ExprNode::Ge(..) => true,
        _ => false,
    }
}

/// The logic is that of vectors where vectors occur; that of integers where
/// integers and no vectors occur; and the plain one where nothing but Booleans
/// occurs.
pub proof fn logics_fit(assertions: Seq<Expr>)
    ensures
        found_in(assertions, |n: ExprNode| is_vector(n)) ==> emit::logic_of(assertions)
            == "QF_BV"@,
        found_in(assertions, |n: ExprNode| is_integer(n)) && !found_in(
            assertions,
            |n: ExprNode| !is_core(n) && !is_integer(n) && !is_arithmetic(n),
        ) ==> emit::logic_of(assertions) == "QF_IDL"@,
        !found_in(assertions, |n: ExprNode| !is_core(n)) ==> emit::logic_of(assertions)
            == "QF_UF"@,
{
    let nodes = emit::visited_all(assertions);
    let vector = |n: ExprNode| is_vector(n);
    let integer = |n: ExprNode| is_integer(n);
    let other = |n: ExprNode| !is_core(n) && !is_integer(n) && !is_arithmetic(n);
    let beyond = |n: ExprNode| !is_core(n);
    visited_all_is_found(assertions, vector);
    visited_all_is_found(assertions, integer);
    visited_all_is_found(assertions, other);
    visited_all_is_found(assertions, beyond);
    if listed(nodes, vector) {
        let i = choose|i: int| 0 <= i < nodes.len() && vector(*(#[trigger] nodes[i]).0);
        assert(emit::is_bv(*nodes[i].0));
    }
    if !listed(nodes, other) {
        assert forall|i: int| 0 <= i < nodes.len() implies !emit::is_bv(
            *(#[trigger] nodes[i]).0,
        ) by {
            assert(!other(*nodes[i].0));
        }
    }
    if listed(nodes, integer) {
        let i = choose|i: int| 0 <= i < nodes.len() && integer(*(#[trigger] nodes[i]).0);
        assert(emit::is_int(*nodes[i].0));
    }
    if !listed(nodes, beyond) {
        assert forall|i: int| 0 <= i < nodes.len() implies !emit::is_bv(
            *(#[trigger] nodes[i]).0,
        ) && !emit::is_int(*nodes[i].0) by {
            assert(!beyond(*nodes[i].0));
        }
    }
}

// ---------------------------------------------------------------------------
// Scripts
// ---------------------------------------------------------------------------

pub open spec fn declaration(d: (Text, Sort)) -> Text {
    "(declare-const "@ + d.0 + " "@ + sort::sort_text(d.1) + ")"@
}

pub open spec fn assertion(e: Expr) -> Text {
    "(assert "@ + emit::expr_text(e) + ")"@
}

/// The lines of a script: the logic, the declarations, the assertions in order,
/// and the questions.
pub open spec fn script_lines(assertions: Seq<Expr>, logic: Text) -> Seq<Text> {
    seq!["(set-logic "@ + logic + ")"@] + emit::decls_of(assertions).map_values(
        |d: (Text, Sort)| declaration(d),
    ) + assertions.map_values(|e: Expr| assertion(e)) + seq!["(check-sat)"@, "(get-model)"@]
}

proof fn unlines_concat(a: Seq<Text>, b: Seq<Text>)
    ensures
        proof_text::unlines(a + b) == proof_text::unlines(a) + proof_text::unlines(b),
    decreases b.len(),
{
    if b.len() == 0 {
        assert(a + b =~= a);
        assert(proof_text::unlines(a + b) =~= proof_text::unlines(a) + proof_text::unlines(b));
    } else {
        let c = b.drop_last();
        unlines_concat(a, c);
        proof_text::unlines_push(a + c, b.last());
        proof_text::unlines_push(c, b.last());
        assert(c.push(b.last()) =~= b);
        assert((a + c).push(b.last()) =~= a + b);
        assert(proof_text::unlines(a + b) =~= proof_text::unlines(a) + proof_text::unlines(b));
    }
}

proof fn declarations_are(decls: Seq<(Text, Sort)>, n: nat)
    requires
        n <= decls.len(),
    ensures
        emit::decls_text(decls, n) == proof_text::unlines(
            decls.take(n as int).map_values(|d: (Text, Sort)| declaration(d)),
        ),
    decreases n,
{
    let f = |d: (Text, Sort)| declaration(d);
    let lines = decls.take(n as int).map_values(f);
    if n == 0 {
        assert(emit::decls_text(decls, n) =~= proof_text::unlines(lines));
    } else {
        declarations_are(decls, (n - 1) as nat);
        let before = decls.take(n - 1).map_values(f);
        assert(lines =~= before.push(declaration(decls[n - 1])));
        proof_text::unlines_push(before, declaration(decls[n - 1]));
        reveal_strlit(")\n");
        reveal_strlit(")");
        assert(")\n"@ =~= ")"@ + seq!['\n']);
        assert(emit::decls_text(decls, n) =~= proof_text::unlines(lines));
    }
}

proof fn assertions_are(es: Seq<Expr>, n: nat)
    requires
        n <= es.len(),
    ensures
        emit::asserts_text(es, n) == proof_text::unlines(
            es.take(n as int).map_values(|e: Expr| assertion(e)),
        ),
    decreases n,
{
    let f = |e: Expr| assertion(e);
    let lines = es.take(n as int).map_values(f);
    if n == 0 {
        assert(emit::asserts_text(es, n) =~= proof_text::unlines(lines));
    } else {
        assertions_are(es, (n - 1) as nat);
        let before = es.take(n - 1).map_values(f);
        assert(lines =~= before.push(assertion(es[n - 1])));
        proof_text::unlines_push(before, assertion(es[n - 1]));
        reveal_strlit(")\n");
        reveal_strlit(")");
        assert(")\n"@ =~= ")"@ + seq!['\n']);
        assert(emit::asserts_text(es, n) =~= proof_text::unlines(lines));
    }
}

/// A script is its lines: one for the logic, one for each declaration, one for
/// each assertion, in order, and the questions.
pub proof fn scripts_are_their_lines(assertions: Seq<Expr>, logic: Text)
    ensures
        emit::script_text(assertions, logic) == proof_text::unlines(
            script_lines(assertions, logic),
        ),
        script_lines(assertions, logic).len() == emit::decls_of(assertions).len()
            + assertions.len() + 3,
{
    let decls = emit::decls_of(assertions);
    let a = seq!["(set-logic "@ + logic + ")"@];
    let b = decls.map_values(|d: (Text, Sort)| declaration(d));
    let c = assertions.map_values(|e: Expr| assertion(e));
    let d = seq!["(check-sat)"@, "(get-model)"@];
    declarations_are(decls, decls.len());
    assert(decls.take(decls.len() as int) =~= decls);
    assertions_are(assertions, assertions.len());
    assert(assertions.take(assertions.len() as int) =~= assertions);
    unlines_concat(a, b);
    unlines_concat(a + b, c);
    unlines_concat(a + b + c, d);
    let none = Seq::<Text>::empty();
    proof_text::unlines_push(none, a[0]);
    assert(none.push(a[0]) =~= a);
    let first = seq!["(check-sat)"@];
    proof_text::unlines_push(none, "(check-sat)"@);
    assert(none.push("(check-sat)"@) =~= first);
    proof_text::unlines_push(first, "(get-model)"@);
    assert(first.push("(get-model)"@) =~= d);
    reveal_strlit(")\n");
    reveal_strlit(")");
    reveal_strlit("(check-sat)\n(get-model)\n");
    reveal_strlit("(check-sat)");
    reveal_strlit("(get-model)");
    assert(")\n"@ =~= ")"@ + seq!['\n']);
    assert("(check-sat)\n(get-model)\n"@ =~= "(check-sat)"@ + seq!['\n'] + "(get-model)"@ + seq![
        '\n',
    ]);
    assert(emit::script_text(assertions, logic) =~= proof_text::unlines(
        script_lines(assertions, logic),
    ));
}

} // verus!
