//! Emit an SMT-LIB 2 script from a list of [`Expr`] assertions.

use vstd::prelude::*;

#[allow(unused_imports)]
use crate::api::expr;
use crate::api::expr::{children, Expr, ExprNode};
#[allow(unused_imports)]
use crate::api::sort;
use crate::api::sort::Sort;
use crate::text;

verus! {

// ---------------------------------------------------------------------------
// Subexpressions
// ---------------------------------------------------------------------------

/// An expression and all its subexpressions: each before its parts, and later
/// parts before earlier ones.
pub open spec fn visited(e: Expr) -> Seq<Expr>
    decreases e, expr::parts(*e.0).len() + 1,
{
    seq![e] + visited_parts(e, expr::parts(*e.0).len())
}

/// The subexpressions of the first `n` parts of an expression.
pub open spec fn visited_parts(e: Expr, n: nat) -> Seq<Expr>
    decreases e, n,
{
    if 0 < n <= expr::parts(*e.0).len() {
        visited(expr::parts(*e.0)[n - 1]) + visited_parts(e, (n - 1) as nat)
    } else {
        seq![]
    }
}

/// The subexpressions of a list of expressions.
pub open spec fn visited_all(es: Seq<Expr>) -> Seq<Expr>
    decreases es.len(),
{
    if es.len() == 0 {
        seq![]
    } else {
        visited(es.last()) + visited_all(es.drop_last())
    }
}

proof fn visited_concat(a: Seq<Expr>, b: Seq<Expr>)
    ensures
        visited_all(a + b) == visited_all(b) + visited_all(a),
    decreases b.len(),
{
    if b.len() == 0 {
        assert(a + b =~= a);
        assert(visited_all(b) + visited_all(a) =~= visited_all(a));
    } else {
        visited_concat(a, b.drop_last());
        assert((a + b).drop_last() =~= a + b.drop_last());
        assert(visited_all(a + b) =~= visited_all(b) + visited_all(a));
    }
}

proof fn visited_parts_are(e: Expr, n: nat)
    requires
        n <= expr::parts(*e.0).len(),
    ensures
        visited_parts(e, n) == visited_all(expr::parts(*e.0).take(n as int)),
    decreases n,
{
    if n > 0 {
        visited_parts_are(e, (n - 1) as nat);
        assert(expr::parts(*e.0).take(n as int).drop_last() =~= expr::parts(*e.0).take(n - 1));
    }
}

fn visit(assertions: &[Expr]) -> (v: Vec<&Expr>)
    ensures
        expr::pointed(v@) == visited_all(assertions@),
{
    let mut stack: Vec<&Expr> = Vec::new();
    let mut i: usize = 0;
    while i < assertions.len()
        invariant
            i <= assertions@.len(),
            expr::pointed(stack@) == assertions@.take(i as int),
        decreases assertions@.len() - i,
    {
        let ghost prior = expr::pointed(stack@);
        let e: &Expr = &assertions[i];
        stack.push(e);
        assert(expr::pointed(stack@) =~= prior.push(*e));
        assert(expr::pointed(stack@) =~= assertions@.take(i + 1));
        i += 1;
    }
    assert(assertions@.take(i as int) =~= assertions@);
    let mut out: Vec<&Expr> = Vec::new();
    assert(expr::pointed(out@) + visited_all(expr::pointed(stack@)) =~= visited_all(assertions@));
    while !stack.is_empty()
        invariant
            expr::pointed(out@) + visited_all(expr::pointed(stack@)) == visited_all(assertions@),
        decreases visited_all(expr::pointed(stack@)).len(),
    {
        let ghost before = expr::pointed(stack@);
        let ghost done = expr::pointed(out@);
        let e: &Expr = stack.pop().unwrap();
        let ghost rest = expr::pointed(stack@);
        assert(before.drop_last() =~= rest);
        assert(before.last() == *e);
        out.push(e);
        assert(expr::pointed(out@) =~= done.push(*e));
        let mut more: Vec<&Expr> = children(e.node());
        let ghost fresh = expr::pointed(more@);
        stack.append(&mut more);
        proof {
            assert(expr::pointed(stack@) =~= rest + fresh);
            visited_concat(rest, fresh);
            visited_parts_are(*e, fresh.len());
            assert(fresh.take(fresh.len() as int) =~= fresh);
            assert(expr::pointed(out@) + visited_all(expr::pointed(stack@)) =~= done
                + visited_all(before));
        }
    }
    assert(expr::pointed(out@) =~= visited_all(assertions@));
    out
}

// ---------------------------------------------------------------------------
// Logic
// ---------------------------------------------------------------------------

/// A node of the theory of bit-vectors.
pub open spec fn is_bv(node: ExprNode) -> bool {
    match node {
        ExprNode::Const(_, s) => s is BitVec,
        ExprNode::BitVecLit(..) => true,
        ExprNode::BvAdd(..) => true,
        ExprNode::BvSub(..) => true,
        ExprNode::BvMul(..) => true,
        ExprNode::BvNeg(..) => true,
        ExprNode::BvAnd(..) => true,
        ExprNode::BvOr(..) => true,
        ExprNode::BvXor(..) => true,
        ExprNode::BvNot(..) => true,
        ExprNode::BvUlt(..) => true,
        ExprNode::BvUle(..) => true,
        ExprNode::BvSlt(..) => true,
        ExprNode::BvSle(..) => true,
        ExprNode::BvShl(..) => true,
        ExprNode::BvLshr(..) => true,
        ExprNode::BvAshr(..) => true,
        ExprNode::BvConcat(..) => true,
        ExprNode::BvExtract(..) => true,
        ExprNode::BvZeroExt(..) => true,
        ExprNode::BvSignExt(..) => true,
        _ => false,
    }
}

/// A node of the theory of integers.
pub open spec fn is_int(node: ExprNode) -> bool {
    match node {
        ExprNode::Const(_, s) => s is Int,
        ExprNode::IntLit(..) => true,
        ExprNode::Add(..) => true,
        ExprNode::Sub(..) => true,
        ExprNode::Mul(..) => true,
        ExprNode::Neg(..) => true,
        ExprNode::Lt(..) => true,
        ExprNode::Le(..) => true,
        ExprNode::Gt(..) => true,
        ExprNode::Ge(..) => true,
        _ => false,
    }
}

fn of_bv(node: &ExprNode) -> (r: bool)
    ensures
        r == is_bv(*node),
{
    match node {
        ExprNode::Const(_, Sort::BitVec(_)) => true,
        ExprNode::BitVecLit(..) => true,
        ExprNode::BvAdd(..) => true,
        ExprNode::BvSub(..) => true,
        ExprNode::BvMul(..) => true,
        ExprNode::BvNeg(..) => true,
        ExprNode::BvAnd(..) => true,
        ExprNode::BvOr(..) => true,
        ExprNode::BvXor(..) => true,
        ExprNode::BvNot(..) => true,
        ExprNode::BvUlt(..) => true,
        ExprNode::BvUle(..) => true,
        ExprNode::BvSlt(..) => true,
        ExprNode::BvSle(..) => true,
        ExprNode::BvShl(..) => true,
        ExprNode::BvLshr(..) => true,
        ExprNode::BvAshr(..) => true,
        ExprNode::BvConcat(..) => true,
        ExprNode::BvExtract(..) => true,
        ExprNode::BvZeroExt(..) => true,
        ExprNode::BvSignExt(..) => true,
        _ => false,
    }
}

fn of_int(node: &ExprNode) -> (r: bool)
    ensures
        r == is_int(*node),
{
    match node {
        ExprNode::Const(_, Sort::Int) => true,
        ExprNode::IntLit(..) => true,
        ExprNode::Add(..) => true,
        ExprNode::Sub(..) => true,
        ExprNode::Mul(..) => true,
        ExprNode::Neg(..) => true,
        ExprNode::Lt(..) => true,
        ExprNode::Le(..) => true,
        ExprNode::Gt(..) => true,
        ExprNode::Ge(..) => true,
        _ => false,
    }
}

/// Some expression is of the theory of bit-vectors.
pub open spec fn any_bv(es: Seq<Expr>) -> bool {
    exists|i: int| 0 <= i < es.len() && is_bv(*(#[trigger] es[i]).0)
}

/// Some expression is of the theory of integers.
pub open spec fn any_int(es: Seq<Expr>) -> bool {
    exists|i: int| 0 <= i < es.len() && is_int(*(#[trigger] es[i]).0)
}

/// The most specific logic for a set of assertions: by the theories that
/// their subexpressions are of.
pub open spec fn logic_of(assertions: Seq<Expr>) -> text::Text {
    if any_bv(visited_all(assertions)) {
        "QF_BV"@
    } else if any_int(visited_all(assertions)) {
        "QF_IDL"@
    } else {
        "QF_UF"@
    }
}

/// Infer the most specific SMT-LIB 2 logic for a set of assertions.
pub fn detect_logic(assertions: &[Expr]) -> (s: &'static str)
    ensures
        s@ == logic_of(assertions@),
{
    let nodes: Vec<&Expr> = visit(assertions);
    let ghost seen = expr::pointed(nodes@);
    let mut has_bv = false;
    let mut has_int = false;
    let mut i: usize = 0;
    while i < nodes.len()
        invariant
            i <= nodes@.len(),
            seen == expr::pointed(nodes@),
            has_bv == any_bv(seen.take(i as int)),
            has_int == any_int(seen.take(i as int)),
        decreases nodes@.len() - i,
    {
        let ghost part = seen.take(i + 1);
        let node: &ExprNode = nodes[i].node();
        assert(part[i as int] == *nodes@[i as int]);
        if of_bv(node) {
            has_bv = true;
        }
        if of_int(node) {
            has_int = true;
        }
        proof {
            assert forall|k: int| 0 <= k < i implies #[trigger] part[k] == seen.take(i as int)[k] by {
            }
            if any_bv(part) {
                let k = choose|k: int| 0 <= k < part.len() && is_bv(*(#[trigger] part[k]).0);
                if k < i {
                    assert(is_bv(*seen.take(i as int)[k].0));
                }
            }
            if any_int(part) {
                let k = choose|k: int| 0 <= k < part.len() && is_int(*(#[trigger] part[k]).0);
                if k < i {
                    assert(is_int(*seen.take(i as int)[k].0));
                }
            }
            if any_bv(seen.take(i as int)) {
                let k = choose|k: int|
                    0 <= k < i && is_bv(*(#[trigger] seen.take(i as int)[k]).0);
                assert(is_bv(*part[k].0));
            }
            if any_int(seen.take(i as int)) {
                let k = choose|k: int|
                    0 <= k < i && is_int(*(#[trigger] seen.take(i as int)[k]).0);
                assert(is_int(*part[k].0));
            }
        }
        i += 1;
    }
    assert(seen.take(i as int) =~= seen);
    if has_bv {
        "QF_BV"
    } else if has_int {
        "QF_IDL"
    } else {
        "QF_UF"
    }
}

// ---------------------------------------------------------------------------
// Declarations
// ---------------------------------------------------------------------------

/// A constant and its sort.
#[derive(Debug)]
pub struct Decl {
    pub name: String,
    pub sort: Sort,
}

/// The declarations of a list, by name and sort.
pub open spec fn decl_views(v: Seq<Decl>) -> Seq<(text::Text, Sort)> {
    v.map_values(|d: Decl| (d.name@, d.sort))
}

/// Order of names: at the first difference by code point, else the shorter
/// one first.
pub open spec fn before(a: text::Text, b: text::Text) -> bool
    decreases a.len(),
{
    if b.len() == 0 {
        false
    } else if a.len() == 0 {
        true
    } else if a[0] != b[0] {
        (a[0] as int) < (b[0] as int)
    } else {
        before(a.skip(1), b.skip(1))
    }
}

proof fn before_irreflexive(a: text::Text)
    ensures
        !before(a, a),
    decreases a.len(),
{
    if a.len() > 0 {
        before_irreflexive(a.skip(1));
    }
}

proof fn before_transitive(a: text::Text, b: text::Text, c: text::Text)
    requires
        before(a, b),
        before(b, c),
    ensures
        before(a, c),
    decreases a.len(),
{
    if a.len() > 0 && a[0] == b[0] && b[0] == c[0] {
        before_transitive(a.skip(1), b.skip(1), c.skip(1));
    }
}

proof fn before_total(a: text::Text, b: text::Text)
    requires
        a != b,
        !before(a, b),
    ensures
        before(b, a),
    decreases a.len(),
{
    if a.len() == 0 {
        assert(b.len() == 0);
        assert(a =~= b);
    } else if b.len() > 0 && a[0] == b[0] {
        if a.skip(1) == b.skip(1) {
            assert(a =~= seq![a[0]] + a.skip(1));
            assert(b =~= seq![b[0]] + b.skip(1));
        }
        before_total(a.skip(1), b.skip(1));
    } else if b.len() > 0 {
        assert((a[0] as int) != (b[0] as int));
    }
}

fn name_before(a: &str, b: &str) -> (r: bool)
    ensures
        r == before(a@, b@),
{
    let x: Vec<char> = text::to_chars(a);
    let y: Vec<char> = text::to_chars(b);
    let mut i: usize = 0;
    assert(x@.skip(0) =~= a@);
    assert(y@.skip(0) =~= b@);
    while i < x.len() && i < y.len() && x[i] == y[i]
        invariant
            i <= x@.len(),
            i <= y@.len(),
            before(a@, b@) == before(x@.skip(i as int), y@.skip(i as int)),
        decreases x@.len() - i,
    {
        assert(x@.skip(i as int).skip(1) =~= x@.skip(i + 1));
        assert(y@.skip(i as int).skip(1) =~= y@.skip(i + 1));
        i += 1;
    }
    if i == y.len() {
        false
    } else if i == x.len() {
        true
    } else {
        x[i] < y[i]
    }
}

/// A name is declared.
pub open spec fn declares(decls: Seq<(text::Text, Sort)>, name: text::Text) -> bool {
    exists|i: int| 0 <= i < decls.len() && (#[trigger] decls[i]).0 == name
}

/// The number of leading declarations whose names come before a name.
pub open spec fn rank(decls: Seq<(text::Text, Sort)>, name: text::Text) -> int
    decreases decls.len(),
{
    if decls.len() > 0 && before(decls[0].0, name) {
        1 + rank(decls.skip(1), name)
    } else {
        0
    }
}

/// A constant is declared at its place, unless its name is declared already.
pub open spec fn with_decl(decls: Seq<(text::Text, Sort)>, node: ExprNode) -> Seq<
    (text::Text, Sort),
> {
    match node {
        ExprNode::Const(name, sort) => if declares(decls, name@) {
            decls
        } else {
            decls.insert(rank(decls, name@), (name@, sort))
        },
        _ => decls,
    }
}

/// The declarations for a list of nodes, the first of a name deciding.
pub open spec fn decls_for(nodes: Seq<Expr>) -> Seq<(text::Text, Sort)>
    decreases nodes.len(),
{
    if nodes.len() == 0 {
        seq![]
    } else {
        with_decl(decls_for(nodes.drop_last()), *nodes.last().0)
    }
}

/// The declarations of a list of assertions.
pub open spec fn decls_of(assertions: Seq<Expr>) -> Seq<(text::Text, Sort)> {
    decls_for(visited_all(assertions))
}

/// Names ascend.
pub open spec fn ascending(decls: Seq<(text::Text, Sort)>) -> bool {
    forall|i: int, j: int|
        0 <= i < j < decls.len() ==> before((#[trigger] decls[i]).0, (#[trigger] decls[j]).0)
}

proof fn rank_is(decls: Seq<(text::Text, Sort)>, name: text::Text)
    ensures
        0 <= rank(decls, name) <= decls.len(),
        forall|i: int| 0 <= i < rank(decls, name) ==> before((#[trigger] decls[i]).0, name),
        rank(decls, name) < decls.len() ==> !before(decls[rank(decls, name)].0, name),
    decreases decls.len(),
{
    if decls.len() > 0 && before(decls[0].0, name) {
        let rest = decls.skip(1);
        rank_is(rest, name);
        assert forall|i: int| 0 <= i < rank(decls, name) implies before(
            (#[trigger] decls[i]).0,
            name,
        ) by {
            if i > 0 {
                assert(rest[i - 1] == decls[i]);
            }
        }
        let p = rank(decls, name);
        if p < decls.len() {
            assert(rest[p - 1] == decls[p]);
        }
    }
}

proof fn rank_from(decls: Seq<(text::Text, Sort)>, name: text::Text, n: int)
    requires
        0 <= n <= decls.len(),
        forall|i: int| 0 <= i < n ==> before((#[trigger] decls[i]).0, name),
        n < decls.len() ==> !before(decls[n].0, name),
    ensures
        rank(decls, name) == n,
    decreases n,
{
    if n > 0 {
        assert(before(decls[0].0, name));
        let rest = decls.skip(1);
        assert forall|i: int| 0 <= i < n - 1 implies before((#[trigger] rest[i]).0, name) by {
            assert(rest[i] == decls[i + 1]);
        }
        if n < decls.len() {
            assert(rest[n - 1] == decls[n]);
        }
        rank_from(rest, name, n - 1);
    }
}

/// The sort of the first constant of a name among nodes.
pub open spec fn first_sort(nodes: Seq<Expr>, name: text::Text) -> Option<Sort>
    decreases nodes.len(),
{
    if nodes.len() == 0 {
        None
    } else {
        match first_sort(nodes.drop_last(), name) {
            Some(s) => Some(s),
            None => match *nodes.last().0 {
                ExprNode::Const(n, s) => if n@ == name {
                    Some(s)
                } else {
                    None
                },
                _ => None,
            },
        }
    }
}

/// Declarations stand in the order of their names, none twice; a constant
/// that occurs is declared, with the sort that it was met with first, and
/// nothing else is.
pub proof fn declared_once(nodes: Seq<Expr>, name: text::Text)
    ensures
        ascending(decls_for(nodes)),
        forall|i: int, j: int|
            0 <= i < j < decls_for(nodes).len() ==> (#[trigger] decls_for(nodes)[i]).0 != (
            #[trigger] decls_for(nodes)[j]).0,
        declares(decls_for(nodes), name) <==> first_sort(nodes, name) is Some,
        forall|i: int|
            0 <= i < decls_for(nodes).len() && (#[trigger] decls_for(nodes)[i]).0 == name
                ==> first_sort(nodes, name) == Some(decls_for(nodes)[i].1),
    decreases nodes.len(),
{
    if nodes.len() > 0 {
        let prior = decls_for(nodes.drop_last());
        let after = decls_for(nodes);
        declared_once(nodes.drop_last(), name);
        if let ExprNode::Const(n, s) = *nodes.last().0 {
            if !declares(prior, n@) {
                let p = rank(prior, n@);
                rank_is(prior, n@);
                assert forall|i: int, j: int| 0 <= i < j < after.len() implies before(
                    (#[trigger] after[i]).0,
                    (#[trigger] after[j]).0,
                ) by {
                    let a = if i < p {
                        i
                    } else {
                        i - 1
                    };
                    let b = if j < p {
                        j
                    } else {
                        j - 1
                    };
                    if i != p && j != p {
                        assert(after[i] == prior[a] && after[j] == prior[b]);
                    } else if j == p {
                        assert(after[i] == prior[i]);
                    } else {
                        assert(after[j] == prior[b]);
                        assert(prior[p].0 != n@);
                        before_total(prior[p].0, n@);
                        if p < b {
                            before_transitive(n@, prior[p].0, prior[b].0);
                        }
                    }
                }
                assert(after[p] == (n@, s));
                assert forall|i: int| 0 <= i < after.len() && i != p implies #[trigger] after[i]
                    == prior[if i < p {
                    i
                } else {
                    i - 1
                }] by {
                }
                if declares(prior, name) {
                    let k = choose|k: int| 0 <= k < prior.len() && (#[trigger] prior[k]).0 == name;
                    assert(after[if k < p {
                        k
                    } else {
                        k + 1
                    }].0 == name);
                }
                if n@ != name && declares(after, name) {
                    let k = choose|k: int| 0 <= k < after.len() && (#[trigger] after[k]).0 == name;
                    assert(prior[if k < p {
                        k
                    } else {
                        k - 1
                    }].0 == name);
                }
            }
        }
    }
    let all = decls_for(nodes);
    assert forall|i: int, j: int| 0 <= i < j < all.len() implies (#[trigger] all[i]).0 != (
    #[trigger] all[j]).0 by {
        before_irreflexive(all[i].0);
    }
}

fn collect_decls(assertions: &[Expr]) -> (v: Vec<Decl>)
    ensures
        decl_views(v@) == decls_of(assertions@),
{
    let nodes: Vec<&Expr> = visit(assertions);
    let ghost seen = expr::pointed(nodes@);
    let mut decls: Vec<Decl> = Vec::new();
    let mut i: usize = 0;
    assert(seen.take(0) =~= seq![]);
    assert(decl_views(decls@) =~= decls_for(seen.take(0)));
    while i < nodes.len()
        invariant
            i <= nodes@.len(),
            seen == expr::pointed(nodes@),
            decl_views(decls@) == decls_for(seen.take(i as int)),
        decreases nodes@.len() - i,
    {
        let ghost prior = decl_views(decls@);
        assert(seen.take(i + 1).drop_last() =~= seen.take(i as int));
        assert(seen.take(i + 1).last() == *nodes@[i as int]);
        if let ExprNode::Const(name, sort) = nodes[i].node() {
            let ghost text_name = name@;
            let mut known = false;
            let mut at: usize = 0;
            let mut passed: usize = 0;
            while at < decls.len()
                invariant
                    at <= decls@.len(),
                    passed <= at,
                    prior == decl_views(decls@),
                    text_name == name@,
                    known == (exists|k: int| 0 <= k < at && (#[trigger] prior[k]).0 == text_name),
                    forall|k: int| 0 <= k < passed ==> before((#[trigger] prior[k]).0, text_name),
                    passed < at ==> !before(prior[passed as int].0, text_name),
                decreases decls@.len() - at,
            {
                assert(prior[at as int].0 == decls@[at as int].name@);
                if text::str_eq(decls[at].name.as_str(), name.as_str()) {
                    assert(prior[at as int].0 == text_name);
                    known = true;
                }
                if passed == at && name_before(decls[at].name.as_str(), name.as_str()) {
                    passed += 1;
                }
                at += 1;
            }
            proof {
                rank_from(prior, text_name, passed as int);
            }
            if !known {
                decls.insert(passed, Decl { name: text::copy_str(name.as_str()), sort: *sort });
                assert(decl_views(decls@) =~= prior.insert(passed as int, (text_name, *sort)));
            }
            assert(known == declares(prior, text_name));
        }
        i += 1;
    }
    assert(seen.take(i as int) =~= seen);
    decls
}

// ---------------------------------------------------------------------------
// Text
// ---------------------------------------------------------------------------

/// An integer as SMT-LIB writes it.
pub open spec fn int_text(n: int) -> text::Text {
    if n < 0 {
        "(- "@ + text::decimal((-n) as nat) + ")"@
    } else {
        text::decimal(n as nat)
    }
}

/// A bit-vector literal as SMT-LIB writes it.
pub open spec fn bv_text(value: nat, width: nat) -> text::Text {
    "(_ bv"@ + text::decimal(value) + " "@ + text::decimal(width) + ")"@
}

pub open spec fn bool_text(b: bool) -> text::Text {
    if b {
        "true"@
    } else {
        "false"@
    }
}

pub fn push_int(out: &mut String, n: i64)
    ensures
        final(out)@ == old(out)@ + int_text(n as int),
{
    let ghost start = out@;
    if n < 0 {
        out.append("(- ");
        text::push_decimal(out, (-(n as i128)) as u64);
        out.append(")");
        assert(out@ =~= start + int_text(n as int));
    } else {
        text::push_decimal(out, n as u64);
    }
}

pub fn push_bv(out: &mut String, value: u64, width: u32)
    ensures
        final(out)@ == old(out)@ + bv_text(value as nat, width as nat),
{
    let ghost start = out@;
    out.append("(_ bv");
    text::push_decimal(out, value);
    out.append(" ");
    text::push_decimal(out, width as u64);
    out.append(")");
    assert(out@ =~= start + bv_text(value as nat, width as nat));
}

pub fn push_bool(out: &mut String, b: bool)
    ensures
        final(out)@ == old(out)@ + bool_text(b),
{
    if b {
        out.append("true");
    } else {
        out.append("false");
    }
}

/// What a node without parts is written as.
pub open spec fn leaf_text(node: ExprNode) -> text::Text {
    match node {
        ExprNode::Const(name, _) => name@,
        ExprNode::BoolLit(b) => bool_text(b),
        ExprNode::IntLit(n) => int_text(n as int),
        ExprNode::BitVecLit(v, w) => bv_text(v as nat, w as nat),
        _ => ""@,
    }
}

/// The operator of a node with parts.
pub open spec fn head_text(node: ExprNode) -> text::Text {
    match node {
        ExprNode::Not(..) => "not"@,
        ExprNode::And(..) => "and"@,
        ExprNode::Or(..) => "or"@,
        ExprNode::Implies(..) => "=>"@,
        ExprNode::Iff(..) => "="@,
        ExprNode::Ite(..) => "ite"@,
        ExprNode::Eq(..) => "="@,
        ExprNode::Distinct(..) => "distinct"@,
        ExprNode::Add(..) => "+"@,
        ExprNode::Sub(..) => "-"@,
        ExprNode::Mul(..) => "*"@,
        ExprNode::Neg(..) => "-"@,
        ExprNode::Lt(..) => "<"@,
        ExprNode::Le(..) => "<="@,
        ExprNode::Gt(..) => ">"@,
        ExprNode::Ge(..) => ">="@,
        ExprNode::BvAdd(..) => "bvadd"@,
        ExprNode::BvSub(..) => "bvsub"@,
        ExprNode::BvMul(..) => "bvmul"@,
        ExprNode::BvNeg(..) => "bvneg"@,
        ExprNode::BvAnd(..) => "bvand"@,
        ExprNode::BvOr(..) => "bvor"@,
        ExprNode::BvXor(..) => "bvxor"@,
        ExprNode::BvNot(..) => "bvnot"@,
        ExprNode::BvUlt(..) => "bvult"@,
        ExprNode::BvUle(..) => "bvule"@,
        ExprNode::BvSlt(..) => "bvslt"@,
        ExprNode::BvSle(..) => "bvsle"@,
        ExprNode::BvShl(..) => "bvshl"@,
        ExprNode::BvLshr(..) => "bvlshr"@,
        ExprNode::BvAshr(..) => "bvashr"@,
        ExprNode::BvConcat(..) => "concat"@,
        ExprNode::BvExtract(hi, lo, _) => "(_ extract "@ + text::decimal(hi as nat) + " "@
            + text::decimal(lo as nat) + ")"@,
        ExprNode::BvZeroExt(n, _) => "(_ zero_extend "@ + text::decimal(n as nat) + ")"@,
        ExprNode::BvSignExt(n, _) => "(_ sign_extend "@ + text::decimal(n as nat) + ")"@,
        _ => ""@,
    }
}

/// An expression as SMT-LIB writes it: a leaf, or an operator and its parts
/// in brackets.
pub open spec fn expr_text(e: Expr) -> text::Text
    decreases e, expr::parts(*e.0).len() + 1,
{
    if expr::parts(*e.0).len() == 0 {
        leaf_text(*e.0)
    } else {
        "("@ + head_text(*e.0) + parts_text(e, expr::parts(*e.0).len()) + ")"@
    }
}

/// The first `n` parts of an expression, a blank before each.
pub open spec fn parts_text(e: Expr, n: nat) -> text::Text
    decreases e, n,
{
    if 0 < n <= expr::parts(*e.0).len() {
        parts_text(e, (n - 1) as nat) + " "@ + expr_text(expr::parts(*e.0)[n - 1])
    } else {
        seq![]
    }
}

fn push_head(out: &mut String, node: &ExprNode)
    ensures
        final(out)@ == old(out)@ + head_text(*node),
{
    let ghost start = out@;
    let word: &str = match node {
        ExprNode::Not(..) => "not",
        ExprNode::And(..) => "and",
        ExprNode::Or(..) => "or",
        ExprNode::Implies(..) => "=>",
        ExprNode::Iff(..) => "=",
        ExprNode::Ite(..) => "ite",
        ExprNode::Eq(..) => "=",
        ExprNode::Distinct(..) => "distinct",
        ExprNode::Add(..) => "+",
        ExprNode::Sub(..) => "-",
        ExprNode::Mul(..) => "*",
        ExprNode::Neg(..) => "-",
        ExprNode::Lt(..) => "<",
        ExprNode::Le(..) => "<=",
        ExprNode::Gt(..) => ">",
        ExprNode::Ge(..) => ">=",
        ExprNode::BvAdd(..) => "bvadd",
        ExprNode::BvSub(..) => "bvsub",
        ExprNode::BvMul(..) => "bvmul",
        ExprNode::BvNeg(..) => "bvneg",
        ExprNode::BvAnd(..) => "bvand",
        ExprNode::BvOr(..) => "bvor",
        ExprNode::BvXor(..) => "bvxor",
        ExprNode::BvNot(..) => "bvnot",
        ExprNode::BvUlt(..) => "bvult",
        ExprNode::BvUle(..) => "bvule",
        ExprNode::BvSlt(..) => "bvslt",
        ExprNode::BvSle(..) => "bvsle",
        ExprNode::BvShl(..) => "bvshl",
        ExprNode::BvLshr(..) => "bvlshr",
        ExprNode::BvAshr(..) => "bvashr",
        ExprNode::BvConcat(..) => "concat",
        ExprNode::BvExtract(hi, lo, _) => {
            out.append("(_ extract ");
            text::push_decimal(out, *hi as u64);
            out.append(" ");
            text::push_decimal(out, *lo as u64);
            ")"
        },
        ExprNode::BvZeroExt(n, _) => {
            out.append("(_ zero_extend ");
            text::push_decimal(out, *n as u64);
            ")"
        },
        ExprNode::BvSignExt(n, _) => {
            out.append("(_ sign_extend ");
            text::push_decimal(out, *n as u64);
            ")"
        },
        _ => "",
    };
    out.append(word);
    assert(out@ =~= start + head_text(*node));
}

fn push_expr(out: &mut String, expr: &Expr)
    ensures
        final(out)@ == old(out)@ + expr_text(*expr),
    decreases *expr,
{
    let ghost start = out@;
    match expr.node() {
        ExprNode::Const(name, _) => {
            out.append(name.as_str());
        },
        ExprNode::BoolLit(b) => {
            push_bool(out, *b);
        },
        ExprNode::IntLit(n) => {
            push_int(out, *n);
        },
        ExprNode::BitVecLit(v, w) => {
            push_bv(out, *v, *w);
        },
        node => {
            out.append("(");
            push_head(out, node);
            let parts: Vec<&Expr> = children(node);
            let ghost lead = "("@ + head_text(*node);
            let mut i: usize = 0;
            assert(out@ =~= start + lead + parts_text(*expr, 0));
            while i < parts.len()
                invariant
                    i <= parts@.len(),
                    *node == *expr.0,
                    expr::pointed(parts@) == expr::parts(*node),
                    out@ == start + lead + parts_text(*expr, i as nat),
                decreases parts@.len() - i,
            {
                out.append(" ");
                let part: &Expr = parts[i];
                assert(*part == expr::pointed(parts@)[i as int]);
                proof {
                    expr::parts_are_smaller(*expr, i as int);
                }
                push_expr(out, part);
                assert(out@ =~= start + lead + parts_text(*expr, (i + 1) as nat));
                i += 1;
            }
            out.append(")");
            assert(out@ =~= start + expr_text(*expr));
        },
    }
}

/// An expression as text.
pub fn emit_expr(expr: &Expr) -> (s: String)
    ensures
        s@ == expr_text(*expr),
{
    let mut out = String::new();
    push_expr(&mut out, expr);
    assert(out@ =~= expr_text(*expr));
    out
}

/// The first `n` declarations as commands.
pub open spec fn decls_text(decls: Seq<(text::Text, Sort)>, n: nat) -> text::Text
    decreases n,
{
    if n == 0 {
        seq![]
    } else {
        decls_text(decls, (n - 1) as nat) + "(declare-const "@ + decls[n - 1].0 + " "@
            + sort::sort_text(decls[n - 1].1) + ")\n"@
    }
}

/// The first `n` assertions as commands.
pub open spec fn asserts_text(assertions: Seq<Expr>, n: nat) -> text::Text
    decreases n,
{
    if n == 0 {
        seq![]
    } else {
        asserts_text(assertions, (n - 1) as nat) + "(assert "@ + expr_text(assertions[n - 1])
            + ")\n"@
    }
}

/// The script for a list of assertions.
pub open spec fn script_text(assertions: Seq<Expr>, logic: text::Text) -> text::Text {
    "(set-logic "@ + logic + ")\n"@ + decls_text(
        decls_of(assertions),
        decls_of(assertions).len(),
    ) + asserts_text(assertions, assertions.len()) + "(check-sat)\n(get-model)\n"@
}

/// Emit a complete SMT-LIB 2 script for the given assertions and logic name.
pub fn emit_smtlib(assertions: &[Expr], logic: &str) -> (s: String)
    ensures
        s@ == script_text(assertions@, logic@),
{
    let decls: Vec<Decl> = collect_decls(assertions);
    let ghost dv = decl_views(decls@);
    let mut out = String::new();
    out.append("(set-logic ");
    out.append(logic);
    out.append(")\n");
    let ghost lead = "(set-logic "@ + logic@ + ")\n"@;
    let mut i: usize = 0;
    assert(out@ =~= lead + decls_text(dv, 0));
    while i < decls.len()
        invariant
            i <= decls@.len(),
            dv == decl_views(decls@),
            out@ == lead + decls_text(dv, i as nat),
        decreases decls@.len() - i,
    {
        out.append("(declare-const ");
        out.append(decls[i].name.as_str());
        out.append(" ");
        out.append(decls[i].sort.smtlib().as_str());
        out.append(")\n");
        assert(dv[i as int] == (decls@[i as int].name@, decls@[i as int].sort));
        assert(out@ =~= lead + decls_text(dv, (i + 1) as nat));
        i += 1;
    }
    let ghost lead = out@;
    let mut k: usize = 0;
    assert(out@ =~= lead + asserts_text(assertions@, 0));
    while k < assertions.len()
        invariant
            k <= assertions@.len(),
            out@ == lead + asserts_text(assertions@, k as nat),
        decreases assertions@.len() - k,
    {
        out.append("(assert ");
        push_expr(&mut out, &assertions[k]);
        out.append(")\n");
        assert(out@ =~= lead + asserts_text(assertions@, (k + 1) as nat));
        k += 1;
    }
    out.append("(check-sat)\n(get-model)\n");
    assert(out@ =~= script_text(assertions@, logic@));
    out
}

} // verus!
