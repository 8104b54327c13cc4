//! Lower a term of the input language into the interned [`TermDag`]. Free
//! Boolean and bit-vector constants are mapped to fresh variable ids.

use vstd::prelude::*;

use crate::ir::bitvec::Bv;
#[allow(unused_imports)]
use crate::ir::dag;
#[allow(unused_imports)]
use crate::ir::dag::{NodeId, NodeView, Op, TermDag};
#[allow(unused_imports)]
use crate::ir::meaning;
use crate::text;

verus! {

/// A bit-vector operator of the input language.
#[derive(Clone, Copy, Debug, PartialEq, Eq, Structural)]
pub enum BvOp {
    BvNot,
    BvNeg,
    BvAdd,
    BvSub,
    BvMul,
    BvUdiv,
    BvUrem,
    BvSdiv,
    BvSrem,
    BvSmod,
    BvAnd,
    BvOr,
    BvXor,
    BvShl,
    BvLshr,
    BvAshr,
    BvUlt,
    BvUle,
    BvUgt,
    BvUge,
    BvSlt,
    BvSle,
    BvSgt,
    BvSge,
    Concat,
    Extract { high: u32, low: u32 },
    ZeroExtend { amount: u32 },
    SignExtend { amount: u32 },
}

/// A term and the width of its sort, if that is a bit-vector sort.
#[derive(Debug)]
pub struct Term {
    pub inner: TermInner,
    pub width: Option<u32>,
}

#[derive(Debug)]
pub enum TermInner {
    True,
    False,
    BvLiteral { bits: Vec<bool>, width: u32 },
    Variable(String),
    BvOp(BvOp, Vec<Term>),
    FunCall(String, Vec<Term>),
    Not(Box<Term>),
    And(Vec<Term>),
    Or(Vec<Term>),
    Ite(Box<Term>, Box<Term>, Box<Term>),
    Eq(Box<Term>, Box<Term>),
}

/// The number of subterms of a term.
pub open spec fn size(t: Term) -> nat
    decreases t, 0nat,
{
    match t.inner {
        TermInner::BvOp(_, args) => 1 + size_all(args@, args@.len()),
        TermInner::FunCall(_, args) => 1 + size_all(args@, args@.len()),
        TermInner::And(args) => 1 + size_all(args@, args@.len()),
        TermInner::Or(args) => 1 + size_all(args@, args@.len()),
        TermInner::Not(a) => 1 + size(*a),
        TermInner::Ite(c, a, b) => 1 + size(*c) + size(*a) + size(*b),
        TermInner::Eq(a, b) => 1 + size(*a) + size(*b),
        _ => 1,
    }
}

/// The number of subterms of the first `n` terms.
pub open spec fn size_all(ts: Seq<Term>, n: nat) -> nat
    decreases ts, n,
{
    if 0 < n <= ts.len() {
        size_all(ts, (n - 1) as nat) + size(ts[n - 1])
    } else {
        0
    }
}

/// Every literal has as many bits as its width says.
pub open spec fn valid(t: Term) -> bool
    decreases t, 0nat,
{
    match t.inner {
        TermInner::BvLiteral { bits, width } => bits@.len() == width,
        TermInner::BvOp(_, args) => valid_all(args@, args@.len()),
        TermInner::FunCall(_, args) => valid_all(args@, args@.len()),
        TermInner::And(args) => valid_all(args@, args@.len()),
        TermInner::Or(args) => valid_all(args@, args@.len()),
        TermInner::Not(a) => valid(*a),
        TermInner::Ite(c, a, b) => valid(*c) && valid(*a) && valid(*b),
        TermInner::Eq(a, b) => valid(*a) && valid(*b),
        _ => true,
    }
}

/// Every literal of the first `n` terms has as many bits as its width says.
pub open spec fn valid_all(ts: Seq<Term>, n: nat) -> bool
    decreases ts, n,
{
    0 < n <= ts.len() ==> valid_all(ts, (n - 1) as nat) && valid(ts[n - 1])
}

/// The DAG operator of an operator of the input language.
pub open spec fn mapped(op: BvOp) -> Op {
    match op {
        BvOp::BvNot => Op::BvNot,
        BvOp::BvNeg => Op::BvNeg,
        BvOp::BvAdd => Op::BvAdd,
        BvOp::BvSub => Op::BvSub,
        BvOp::BvMul => Op::BvMul,
        BvOp::BvUdiv => Op::BvUdiv,
        BvOp::BvUrem => Op::BvUrem,
        BvOp::BvSdiv => Op::BvSdiv,
        BvOp::BvSrem => Op::BvSrem,
        BvOp::BvSmod => Op::BvSmod,
        BvOp::BvAnd => Op::BvAnd,
        BvOp::BvOr => Op::BvOr,
        BvOp::BvXor => Op::BvXor,
        BvOp::BvShl => Op::BvShl,
        BvOp::BvLshr => Op::BvLshr,
        BvOp::BvAshr => Op::BvAshr,
        BvOp::BvUlt => Op::BvUlt,
        BvOp::BvUle => Op::BvUle,
        BvOp::BvUgt => Op::BvUgt,
        BvOp::BvUge => Op::BvUge,
        BvOp::BvSlt => Op::BvSlt,
        BvOp::BvSle => Op::BvSle,
        BvOp::BvSgt => Op::BvSgt,
        BvOp::BvSge => Op::BvSge,
        BvOp::Concat => Op::BvConcat,
        BvOp::Extract { high, low } => Op::BvExtract { hi: high, lo: low },
        BvOp::ZeroExtend { amount } => Op::BvZeroExtend { amount },
        BvOp::SignExtend { amount } => Op::BvSignExtend { amount },
    }
}

// ---------------------------------------------------------------------------
// Lowering
// ---------------------------------------------------------------------------

/// What a builder holds: its nodes, and the symbols in the order of their ids.
#[verifier::ext_equal]
pub struct Lowering {
    pub nodes: Seq<NodeView>,
    pub names: Seq<text::Text>,
}

/// Where a symbol is among those named so far.
pub open spec fn position(names: Seq<text::Text>, name: text::Text) -> int
    decreases names.len(),
{
    if names.len() == 0 || names[0] == name {
        0
    } else {
        1 + position(names.skip(1), name)
    }
}

/// A symbol is given the next id where it has none.
pub open spec fn named(s: Lowering, name: text::Text) -> Lowering {
    if s.names.contains(name) {
        s
    } else {
        Lowering { names: s.names.push(name), ..s }
    }
}

/// A node is interned.
pub open spec fn with_node(s: Lowering, v: NodeView) -> (Lowering, NodeId) {
    let (nodes, id) = dag::interned(s.nodes, v);
    (Lowering { nodes, ..s }, id)
}

/// A symbol is named and its variable interned.
pub open spec fn with_var(s: Lowering, name: text::Text, width: Option<u32>) -> (Lowering, NodeId) {
    let after = named(s, name);
    let id = position(after.names, name) as u32;
    match width {
        Some(width) => with_node(after, NodeView::BvVar { id, width }),
        None => with_node(after, NodeView::BoolVar { id }),
    }
}

/// An operator is applied to nodes.
pub open spec fn with_apply(s: Lowering, op: Op, children: Seq<NodeId>) -> (Lowering, NodeId) {
    with_node(s, NodeView::Apply { op, children })
}

/// The state after lowering a term, and the node of the term. Subterms are
/// lowered from left to right, each before the term that holds it.
pub open spec fn lowered(s: Lowering, t: Term) -> (Lowering, NodeId)
    decreases t, 0nat,
{
    match t.inner {
        TermInner::True => with_node(s, NodeView::BoolConst(true)),
        TermInner::False => with_node(s, NodeView::BoolConst(false)),
        TermInner::BvLiteral { bits, width } => with_node(
            s,
            NodeView::BvConst { width, bits: bits@ },
        ),
        TermInner::Variable(name) => with_var(s, name@, t.width),
        TermInner::BvOp(op, args) => {
            let (s1, ids) = lowered_all(s, args@, args@.len());
            with_apply(s1, mapped(op), ids)
        },
        TermInner::FunCall(name, args) => {
            let (s1, _ids) = lowered_all(s, args@, args@.len());
            with_var(s1, name@, t.width)
        },
        TermInner::Not(a) => {
            let (s1, ia) = lowered(s, *a);
            with_apply(s1, Op::Not, seq![ia])
        },
        TermInner::And(args) => {
            let (s1, ids) = lowered_all(s, args@, args@.len());
            with_apply(s1, Op::And, ids)
        },
        TermInner::Or(args) => {
            let (s1, ids) = lowered_all(s, args@, args@.len());
            with_apply(s1, Op::Or, ids)
        },
        TermInner::Ite(c, a, b) => {
            let (s1, ic) = lowered(s, *c);
            let (s2, ia) = lowered(s1, *a);
            let (s3, ib) = lowered(s2, *b);
            with_apply(s3, Op::Ite, seq![ic, ia, ib])
        },
        TermInner::Eq(a, b) => {
            let (s1, ia) = lowered(s, *a);
            let (s2, ib) = lowered(s1, *b);
            with_apply(s2, Op::Eq, seq![ia, ib])
        },
    }
}

/// The state after lowering the first `n` terms in turn, and their nodes.
pub open spec fn lowered_all(s: Lowering, ts: Seq<Term>, n: nat) -> (Lowering, Seq<NodeId>)
    decreases ts, n,
{
    if 0 < n <= ts.len() {
        let (s1, ids) = lowered_all(s, ts, (n - 1) as nat);
        let (s2, id) = lowered(s1, ts[n - 1]);
        (s2, ids.push(id))
    } else {
        (s, seq![])
    }
}

/// Nodes and symbols are distinct, and all of them have ids.
pub open spec fn sound(s: Lowering) -> bool {
    &&& dag::canonical(s.nodes)
    &&& s.names.no_duplicates()
    &&& s.nodes.len() <= u32::MAX + 1
    &&& s.names.len() <= u32::MAX + 1
}

/// There are ids left for so many more nodes and symbols.
pub open spec fn room(s: Lowering, n: nat) -> bool {
    &&& s.nodes.len() + n <= u32::MAX + 1
    &&& s.names.len() + n <= u32::MAX + 1
}

/// A later state keeps the ids of an earlier one.
pub open spec fn extends(s: Lowering, more: Lowering) -> bool {
    s.nodes.is_prefix_of(more.nodes) && s.names.is_prefix_of(more.names)
}

pub(crate) proof fn extends_trans(a: Lowering, b: Lowering, c: Lowering)
    requires
        extends(a, b),
        extends(b, c),
    ensures
        extends(a, c),
{
    assert(c.nodes.take(a.nodes.len() as int) =~= b.nodes.take(a.nodes.len() as int)) by {
        assert(c.nodes.take(b.nodes.len() as int) == b.nodes);
    }
    assert(c.names.take(a.names.len() as int) =~= b.names.take(a.names.len() as int)) by {
        assert(c.names.take(b.names.len() as int) == b.names);
    }
}

/// Where a symbol is found.
pub(crate) proof fn position_is(names: Seq<text::Text>, i: int)
    requires
        names.no_duplicates(),
        0 <= i < names.len(),
    ensures
        position(names, names[i]) == i,
    decreases i,
{
    if i > 0 {
        assert(names.skip(1)[i - 1] == names[i]);
        assert(names.skip(1).no_duplicates());
        position_is(names.skip(1), i - 1);
        assert(names[0] != names[i]);
    }
}

pub(crate) proof fn with_node_ok(s: Lowering, v: NodeView)
    requires
        sound(s),
        s.nodes.len() <= u32::MAX,
    ensures
        sound(with_node(s, v).0),
        extends(s, with_node(s, v).0),
        with_node(s, v).0.nodes.len() <= s.nodes.len() + 1,
        with_node(s, v).0.nodes[with_node(s, v).1.0 as int] == v,
        with_node(s, v).1.0 < with_node(s, v).0.nodes.len(),
{
    dag::interning_is_canonical(s.nodes, v);
    assert(s.names.take(s.names.len() as int) =~= s.names);
}

pub(crate) proof fn named_ok(s: Lowering, name: text::Text)
    requires
        sound(s),
        s.names.len() <= u32::MAX,
    ensures
        sound(named(s, name)),
        extends(s, named(s, name)),
        named(s, name).names.len() <= s.names.len() + 1,
        named(s, name).names.contains(name),
        0 <= position(named(s, name).names, name) < named(s, name).names.len(),
        named(s, name).names[position(named(s, name).names, name)] == name,
{
    let after = named(s, name);
    assert(s.nodes.take(s.nodes.len() as int) =~= s.nodes);
    if s.names.contains(name) {
        assert(s.names.take(s.names.len() as int) =~= s.names);
    } else {
        assert(after.names.take(s.names.len() as int) =~= s.names);
        assert(after.names[s.names.len() as int] == name);
    }
    let i = choose|i: int| 0 <= i < after.names.len() && after.names[i] == name;
    position_is(after.names, i);
}

pub(crate) proof fn with_var_ok(s: Lowering, name: text::Text, width: Option<u32>)
    requires
        sound(s),
        room(s, 1),
    ensures
        sound(with_var(s, name, width).0),
        extends(s, with_var(s, name, width).0),
        with_var(s, name, width).0.nodes.len() <= s.nodes.len() + 1,
        with_var(s, name, width).0.names.len() <= s.names.len() + 1,
{
    named_ok(s, name);
    let after = named(s, name);
    let id = position(after.names, name) as u32;
    match width {
        Some(width) => {
            with_node_ok(after, NodeView::BvVar { id, width });
        },
        None => {
            with_node_ok(after, NodeView::BoolVar { id });
        },
    }
    extends_trans(s, after, with_var(s, name, width).0);
}

/// Lowering keeps nodes and symbols distinct and keeps the ids given before,
/// and adds at most one node and one symbol for each subterm.
pub proof fn lowering_extends(s: Lowering, t: Term)
    requires
        sound(s),
        room(s, size(t)),
    ensures
        sound(lowered(s, t).0),
        extends(s, lowered(s, t).0),
        lowered(s, t).0.nodes.len() <= s.nodes.len() + size(t),
        lowered(s, t).0.names.len() <= s.names.len() + size(t),
    decreases t, 0nat,
{
    match t.inner {
        TermInner::True => {
            with_node_ok(s, NodeView::BoolConst(true));
        },
        TermInner::False => {
            with_node_ok(s, NodeView::BoolConst(false));
        },
        TermInner::BvLiteral { bits, width } => {
            with_node_ok(s, NodeView::BvConst { width, bits: bits@ });
        },
        TermInner::Variable(name) => {
            with_var_ok(s, name@, t.width);
        },
        TermInner::BvOp(op, args) => {
            all_extend(s, args@, args@.len());
            let (s1, ids) = lowered_all(s, args@, args@.len());
            with_node_ok(s1, NodeView::Apply { op: mapped(op), children: ids });
            extends_trans(s, s1, lowered(s, t).0);
        },
        TermInner::FunCall(name, args) => {
            all_extend(s, args@, args@.len());
            let (s1, _ids) = lowered_all(s, args@, args@.len());
            with_var_ok(s1, name@, t.width);
            extends_trans(s, s1, lowered(s, t).0);
        },
        TermInner::Not(a) => {
            lowering_extends(s, *a);
            let (s1, ia) = lowered(s, *a);
            with_node_ok(s1, NodeView::Apply { op: Op::Not, children: seq![ia] });
            extends_trans(s, s1, lowered(s, t).0);
        },
        TermInner::And(args) => {
            all_extend(s, args@, args@.len());
            let (s1, ids) = lowered_all(s, args@, args@.len());
            with_node_ok(s1, NodeView::Apply { op: Op::And, children: ids });
            extends_trans(s, s1, lowered(s, t).0);
        },
        TermInner::Or(args) => {
            all_extend(s, args@, args@.len());
            let (s1, ids) = lowered_all(s, args@, args@.len());
            with_node_ok(s1, NodeView::Apply { op: Op::Or, children: ids });
            extends_trans(s, s1, lowered(s, t).0);
        },
        TermInner::Ite(c, a, b) => {
            lowering_extends(s, *c);
            let (s1, ic) = lowered(s, *c);
            lowering_extends(s1, *a);
            let (s2, ia) = lowered(s1, *a);
            lowering_extends(s2, *b);
            let (s3, ib) = lowered(s2, *b);
            with_node_ok(s3, NodeView::Apply { op: Op::Ite, children: seq![ic, ia, ib] });
            extends_trans(s, s1, s2);
            extends_trans(s, s2, s3);
            extends_trans(s, s3, lowered(s, t).0);
        },
        TermInner::Eq(a, b) => {
            lowering_extends(s, *a);
            let (s1, ia) = lowered(s, *a);
            lowering_extends(s1, *b);
            let (s2, ib) = lowered(s1, *b);
            with_node_ok(s2, NodeView::Apply { op: Op::Eq, children: seq![ia, ib] });
            extends_trans(s, s1, s2);
            extends_trans(s, s2, lowered(s, t).0);
        },
    }
}

pub(crate) proof fn all_extend(s: Lowering, ts: Seq<Term>, n: nat)
    requires
        sound(s),
        n <= ts.len(),
        room(s, size_all(ts, n)),
    ensures
        sound(lowered_all(s, ts, n).0),
        extends(s, lowered_all(s, ts, n).0),
        lowered_all(s, ts, n).0.nodes.len() <= s.nodes.len() + size_all(ts, n),
        lowered_all(s, ts, n).0.names.len() <= s.names.len() + size_all(ts, n),
    decreases ts, n,
{
    if 0 < n {
        all_extend(s, ts, (n - 1) as nat);
        let (s1, _ids) = lowered_all(s, ts, (n - 1) as nat);
        lowering_extends(s1, ts[n - 1]);
        extends_trans(s, s1, lowered_all(s, ts, n).0);
    } else {
        assert(s.nodes.take(s.nodes.len() as int) =~= s.nodes);
        assert(s.names.take(s.names.len() as int) =~= s.names);
    }
}

proof fn with_node_again(s: Lowering, more: Lowering, v: NodeView)
    requires
        sound(s),
        s.nodes.len() <= u32::MAX,
        sound(more),
        extends(with_node(s, v).0, more),
    ensures
        with_node(more, v) == (more, with_node(s, v).1),
{
    with_node_ok(s, v);
    let (s1, id) = with_node(s, v);
    assert(more.nodes[id.0 as int] == v) by {
        assert(more.nodes.take(s1.nodes.len() as int)[id.0 as int] == s1.nodes[id.0 as int]);
    }
    dag::id_is(more.nodes, id.0 as int);
}

proof fn with_var_again(s: Lowering, more: Lowering, name: text::Text, width: Option<u32>)
    requires
        sound(s),
        room(s, 1),
        sound(more),
        extends(with_var(s, name, width).0, more),
    ensures
        with_var(more, name, width) == (more, with_var(s, name, width).1),
{
    named_ok(s, name);
    let after = named(s, name);
    let p = position(after.names, name);
    let last = with_var(s, name, width).0;
    assert(last.names == after.names);
    assert(more.names[p] == name) by {
        assert(more.names.take(last.names.len() as int)[p] == last.names[p]);
    }
    position_is(more.names, p);
    assert(named(more, name) == more);
    match width {
        Some(width) => {
            with_node_again(after, more, NodeView::BvVar { id: p as u32, width });
        },
        None => {
            with_node_again(after, more, NodeView::BoolVar { id: p as u32 });
        },
    }
}

/// Structural sharing: a term that was lowered before, in this state or one
/// that grew from it, has the node that it had, and nothing is added for it.
pub proof fn lowering_shares(s: Lowering, more: Lowering, t: Term)
    requires
        sound(s),
        room(s, size(t)),
        sound(more),
        extends(lowered(s, t).0, more),
    ensures
        lowered(more, t) == (more, lowered(s, t).1),
    decreases t, 0nat,
{
    match t.inner {
        TermInner::True => {
            with_node_again(s, more, NodeView::BoolConst(true));
        },
        TermInner::False => {
            with_node_again(s, more, NodeView::BoolConst(false));
        },
        TermInner::BvLiteral { bits, width } => {
            with_node_again(s, more, NodeView::BvConst { width, bits: bits@ });
        },
        TermInner::Variable(name) => {
            with_var_again(s, more, name@, t.width);
        },
        TermInner::BvOp(op, args) => {
            let v = NodeView::Apply {
                op: mapped(op),
                children: lowered_all(s, args@, args@.len()).1,
            };
            args_again(s, more, args@, v);
        },
        TermInner::FunCall(name, args) => {
            all_extend(s, args@, args@.len());
            let (s1, _ids) = lowered_all(s, args@, args@.len());
            with_var_ok(s1, name@, t.width);
            extends_trans(s1, lowered(s, t).0, more);
            all_share(s, more, args@, args@.len());
            with_var_again(s1, more, name@, t.width);
        },
        TermInner::Not(a) => {
            lowering_extends(s, *a);
            let (s1, ia) = lowered(s, *a);
            let v = NodeView::Apply { op: Op::Not, children: seq![ia] };
            with_node_ok(s1, v);
            extends_trans(s1, lowered(s, t).0, more);
            lowering_shares(s, more, *a);
            with_node_again(s1, more, v);
        },
        TermInner::And(args) => {
            let v = NodeView::Apply {
                op: Op::And,
                children: lowered_all(s, args@, args@.len()).1,
            };
            args_again(s, more, args@, v);
        },
        TermInner::Or(args) => {
            let v = NodeView::Apply {
                op: Op::Or,
                children: lowered_all(s, args@, args@.len()).1,
            };
            args_again(s, more, args@, v);
        },
        TermInner::Ite(c, a, b) => {
            lowering_extends(s, *c);
            let (s1, ic) = lowered(s, *c);
            lowering_extends(s1, *a);
            let (s2, ia) = lowered(s1, *a);
            lowering_extends(s2, *b);
            let (s3, ib) = lowered(s2, *b);
            let v = NodeView::Apply { op: Op::Ite, children: seq![ic, ia, ib] };
            with_node_ok(s3, v);
            extends_trans(s3, lowered(s, t).0, more);
            extends_trans(s2, s3, more);
            extends_trans(s1, s2, more);
            lowering_shares(s, more, *c);
            lowering_shares(s1, more, *a);
            lowering_shares(s2, more, *b);
            with_node_again(s3, more, v);
        },
        TermInner::Eq(a, b) => {
            lowering_extends(s, *a);
            let (s1, ia) = lowered(s, *a);
            lowering_extends(s1, *b);
            let (s2, ib) = lowered(s1, *b);
            let v = NodeView::Apply { op: Op::Eq, children: seq![ia, ib] };
            with_node_ok(s2, v);
            extends_trans(s2, lowered(s, t).0, more);
            extends_trans(s1, s2, more);
            lowering_shares(s, more, *a);
            lowering_shares(s1, more, *b);
            with_node_again(s2, more, v);
        },
    }
}

proof fn args_again(s: Lowering, more: Lowering, ts: Seq<Term>, v: NodeView)
    requires
        sound(s),
        room(s, 1 + size_all(ts, ts.len())),
        sound(more),
        extends(with_node(lowered_all(s, ts, ts.len()).0, v).0, more),
    ensures
        lowered_all(more, ts, ts.len()) == (more, lowered_all(s, ts, ts.len()).1),
        with_node(more, v) == (more, with_node(lowered_all(s, ts, ts.len()).0, v).1),
    decreases ts, ts.len() + 1,
{
    all_extend(s, ts, ts.len());
    let (s1, _ids) = lowered_all(s, ts, ts.len());
    with_node_ok(s1, v);
    extends_trans(s1, with_node(s1, v).0, more);
    all_share(s, more, ts, ts.len());
    with_node_again(s1, more, v);
}

proof fn all_share(s: Lowering, more: Lowering, ts: Seq<Term>, n: nat)
    requires
        sound(s),
        n <= ts.len(),
        room(s, size_all(ts, n)),
        sound(more),
        extends(lowered_all(s, ts, n).0, more),
    ensures
        lowered_all(more, ts, n) == (more, lowered_all(s, ts, n).1),
    decreases ts, n,
{
    if 0 < n {
        all_extend(s, ts, (n - 1) as nat);
        let (s1, _ids) = lowered_all(s, ts, (n - 1) as nat);
        lowering_extends(s1, ts[n - 1]);
        extends_trans(s1, lowered_all(s, ts, n).0, more);
        all_share(s, more, ts, (n - 1) as nat);
        lowering_shares(s1, more, ts[n - 1]);
    }
}

// ---------------------------------------------------------------------------
// The builder
// ---------------------------------------------------------------------------

/// A lowering context mapping symbol names to variable ids.
pub struct Builder {
    pub dag: TermDag,
    /// The symbols; the id of one is its position.
    names: Vec<String>,
}

impl Builder {
    pub closed spec fn view(&self) -> Lowering {
        Lowering { nodes: self.dag@, names: text::string_texts(self.names@) }
    }

    pub closed spec fn well_formed(&self) -> bool {
        self.dag.well_formed() && sound(self@)
    }

    pub proof fn is_sound(&self)
        requires
            self.well_formed(),
        ensures
            sound(self@),
    {
    }

    pub fn new() -> (b: Self)
        ensures
            b.well_formed(),
            b@.nodes.len() == 0,
            b@.names.len() == 0,
            meaning::grounded(b@),
    {
        Builder { dag: TermDag::new(), names: Vec::new() }
    }

    pub fn var_id(&self, name: &str) -> (r: Option<u32>)
        requires
            self.well_formed(),
        ensures
            match r {
                Some(id) => id < self@.names.len() && self@.names[id as int] == name@,
                None => !self@.names.contains(name@),
            },
    {
        let mut i: usize = 0;
        while i < self.names.len()
            invariant
                i <= self.names@.len(),
                self.well_formed(),
                forall|k: int| 0 <= k < i ==> #[trigger] self@.names[k] != name@,
            decreases self.names@.len() - i,
        {
            assert(self@.names[i as int] == self.names@[i as int]@);
            if text::str_eq(self.names[i].as_str(), name) {
                return Some(i as u32);
            }
            i += 1;
        }
        None
    }

    /// The ids of all symbols, in ascending order.
    pub fn all_var_ids(&self) -> (ids: Vec<u32>)
        requires
            self.well_formed(),
        ensures
            ids@ == Seq::new(self@.names.len(), |i: int| i as u32),
    {
        let mut ids: Vec<u32> = Vec::new();
        let mut i: usize = 0;
        while i < self.names.len()
            invariant
                i <= self.names@.len(),
                self.well_formed(),
                ids@ == Seq::new(i as nat, |k: int| k as u32),
            decreases self.names@.len() - i,
        {
            ids.push(i as u32);
            assert(ids@ =~= Seq::new((i + 1) as nat, |k: int| k as u32));
            i += 1;
        }
        ids
    }

    fn intern_var(&mut self, name: &str, width: Option<u32>) -> (id: NodeId)
        requires
            old(self).well_formed(),
            room(old(self)@, 1),
        ensures
            final(self).well_formed(),
            (final(self)@, id) == with_var(old(self)@, name@, width),
    {
        let ghost before = self@;
        proof {
            named_ok(before, name@);
        }
        let var: u32 = match self.var_id(name) {
            Some(id) => {
                proof {
                    position_is(before.names, id as int);
                }
                id
            },
            None => {
                let id: u32 = self.names.len() as u32;
                self.names.push(text::copy_str(name));
                proof {
                    assert(self@.names =~= before.names.push(name@));
                    position_is(self@.names, id as int);
                }
                id
            },
        };
        assert(self@ == named(before, name@));
        proof {
            let v = match width {
                Some(width) => NodeView::BvVar { id: var, width },
                None => NodeView::BoolVar { id: var },
            };
            with_node_ok(self@, v);
        }
        match width {
            Some(w) => self.dag.intern_bv_var(var, w),
            None => self.dag.intern_bool_var(var),
        }
    }

    fn apply(&mut self, op: Op, children: Vec<NodeId>) -> (id: NodeId)
        requires
            old(self).well_formed(),
            room(old(self)@, 1),
        ensures
            final(self).well_formed(),
            (final(self)@, id) == with_apply(old(self)@, op, children@),
    {
        proof {
            with_node_ok(self@, NodeView::Apply { op, children: children@ });
        }
        self.dag.intern_apply(op, children)
    }

    fn lower_all(&mut self, terms: &Vec<Term>) -> (ids: Vec<NodeId>)
        requires
            old(self).well_formed(),
            valid_all(terms@, terms@.len()),
            room(old(self)@, size_all(terms@, terms@.len())),
        ensures
            final(self).well_formed(),
            (final(self)@, ids@) == lowered_all(old(self)@, terms@, terms@.len()),
        decreases terms@, terms@.len() + 1,
    {
        let mut ids: Vec<NodeId> = Vec::new();
        let ghost before = self@;
        let mut i: usize = 0;
        while i < terms.len()
            invariant
                i <= terms@.len(),
                sound(before),
                room(before, size_all(terms@, terms@.len())),
                valid_all(terms@, terms@.len()),
                self.well_formed(),
                (self@, ids@) == lowered_all(before, terms@, i as nat),
            decreases terms@.len() - i,
        {
            proof {
                prefix_ok(terms@, (i + 1) as nat);
                all_extend(before, terms@, i as nat);
            }
            let id: NodeId = self.lower(&terms[i]);
            ids.push(id);
            i += 1;
        }
        ids
    }

    /// Lower a term into the DAG. Returns the node id.
    pub fn lower(&mut self, term: &Term) -> (id: NodeId)
        requires
            old(self).well_formed(),
            valid(*term),
            room(old(self)@, size(*term)),
        ensures
            final(self).well_formed(),
            (final(self)@, id) == lowered(old(self)@, *term),
            id.0 < final(self)@.nodes.len(),
            meaning::grounded(old(self)@) ==> meaning::grounded(final(self)@)
                && meaning::same_values(final(self)@, id, *term),
        decreases *term, 0nat,
    {
        let ghost before = self@;
        proof {
            if meaning::grounded(before) {
                meaning::lowered_terms_have_their_values(before, *term);
            }
            lowering_extends(before, *term);
            node_is_there(before, *term);
        }
        match &term.inner {
            TermInner::True => self.dag.intern_bool_const(true),
            TermInner::False => self.dag.intern_bool_const(false),
            TermInner::BvLiteral { bits, width } => {
                let value = Bv::from_bits(*width, copy_bits(bits));
                self.dag.intern_bv_const(*width, value)
            },
            TermInner::Variable(name) => self.intern_var(name.as_str(), term.width),
            TermInner::BvOp(op, args) => {
                proof {
                    all_extend(before, args@, args@.len());
                }
                let children = self.lower_all(args);
                self.apply(map_op(*op), children)
            },
            TermInner::FunCall(name, args) => {
                proof {
                    all_extend(before, args@, args@.len());
                }
                let _children = self.lower_all(args);
                self.intern_var(name.as_str(), term.width)
            },
            TermInner::Not(inner) => {
                proof {
                    lowering_extends(before, **inner);
                }
                let c: NodeId = self.lower(inner);
                let children = vec![c];
                assert(children@ =~= seq![c]);
                self.apply(Op::Not, children)
            },
            TermInner::And(terms) => {
                proof {
                    all_extend(before, terms@, terms@.len());
                }
                let children = self.lower_all(terms);
                self.apply(Op::And, children)
            },
            TermInner::Or(terms) => {
                proof {
                    all_extend(before, terms@, terms@.len());
                }
                let children = self.lower_all(terms);
                self.apply(Op::Or, children)
            },
            TermInner::Ite(c, t, e) => {
                proof {
                    lowering_extends(before, **c);
                    let s1 = lowered(before, **c).0;
                    lowering_extends(s1, **t);
                    lowering_extends(lowered(s1, **t).0, **e);
                }
                let cc: NodeId = self.lower(c);
                let tt: NodeId = self.lower(t);
                let ee: NodeId = self.lower(e);
                let children = vec![cc, tt, ee];
                assert(children@ =~= seq![cc, tt, ee]);
                self.apply(Op::Ite, children)
            },
            TermInner::Eq(a, b) => {
                proof {
                    lowering_extends(before, **a);
                    lowering_extends(lowered(before, **a).0, **b);
                }
                let la: NodeId = self.lower(a);
                let lb: NodeId = self.lower(b);
                let children = vec![la, lb];
                assert(children@ =~= seq![la, lb]);
                self.apply(Op::Eq, children)
            },
        }
    }
}

impl Default for Builder {
    fn default() -> (b: Self)
        ensures
            b.well_formed(),
            b@.nodes.len() == 0,
            b@.names.len() == 0,
            meaning::grounded(b@),
    {
        Builder::new()
    }
}

/// A prefix of valid terms is valid and no larger than the whole.
proof fn prefix_ok(ts: Seq<Term>, n: nat)
    requires
        0 < n <= ts.len(),
        valid_all(ts, ts.len()),
    ensures
        valid_all(ts, n),
        valid(ts[n - 1]),
        size_all(ts, n) <= size_all(ts, ts.len()),
        size_all(ts, n) == size_all(ts, (n - 1) as nat) + size(ts[n - 1]),
{
    prefix_of(ts, n, ts.len());
}

pub(crate) proof fn prefix_of(ts: Seq<Term>, n: nat, m: nat)
    requires
        n <= m <= ts.len(),
        valid_all(ts, m),
    ensures
        valid_all(ts, n),
        size_all(ts, n) <= size_all(ts, m),
    decreases m,
{
    if n < m {
        prefix_of(ts, n, (m - 1) as nat);
    }
}

/// The node of a term is among the nodes.
proof fn node_is_there(s: Lowering, t: Term)
    requires
        sound(s),
        room(s, size(t)),
    ensures
        lowered(s, t).1.0 < lowered(s, t).0.nodes.len(),
{
    match t.inner {
        TermInner::True => {
            with_node_ok(s, NodeView::BoolConst(true));
        },
        TermInner::False => {
            with_node_ok(s, NodeView::BoolConst(false));
        },
        TermInner::BvLiteral { bits, width } => {
            with_node_ok(s, NodeView::BvConst { width, bits: bits@ });
        },
        TermInner::Variable(name) => {
            var_is_there(s, name@, t.width);
        },
        TermInner::BvOp(op, args) => {
            all_extend(s, args@, args@.len());
            let (s1, ids) = lowered_all(s, args@, args@.len());
            with_node_ok(s1, NodeView::Apply { op: mapped(op), children: ids });
        },
        TermInner::FunCall(name, args) => {
            all_extend(s, args@, args@.len());
            let (s1, _ids) = lowered_all(s, args@, args@.len());
            var_is_there(s1, name@, t.width);
        },
        TermInner::Not(a) => {
            lowering_extends(s, *a);
            let (s1, ia) = lowered(s, *a);
            with_node_ok(s1, NodeView::Apply { op: Op::Not, children: seq![ia] });
        },
        TermInner::And(args) => {
            all_extend(s, args@, args@.len());
            let (s1, ids) = lowered_all(s, args@, args@.len());
            with_node_ok(s1, NodeView::Apply { op: Op::And, children: ids });
        },
        TermInner::Or(args) => {
            all_extend(s, args@, args@.len());
            let (s1, ids) = lowered_all(s, args@, args@.len());
            with_node_ok(s1, NodeView::Apply { op: Op::Or, children: ids });
        },
        TermInner::Ite(c, a, b) => {
            lowering_extends(s, *c);
            let (s1, ic) = lowered(s, *c);
            lowering_extends(s1, *a);
            let (s2, ia) = lowered(s1, *a);
            lowering_extends(s2, *b);
            let (s3, ib) = lowered(s2, *b);
            with_node_ok(s3, NodeView::Apply { op: Op::Ite, children: seq![ic, ia, ib] });
        },
        TermInner::Eq(a, b) => {
            lowering_extends(s, *a);
            let (s1, ia) = lowered(s, *a);
            lowering_extends(s1, *b);
            let (s2, ib) = lowered(s1, *b);
            with_node_ok(s2, NodeView::Apply { op: Op::Eq, children: seq![ia, ib] });
        },
    }
}

proof fn var_is_there(s: Lowering, name: text::Text, width: Option<u32>)
    requires
        sound(s),
        room(s, 1),
    ensures
        with_var(s, name, width).1.0 < with_var(s, name, width).0.nodes.len(),
{
    named_ok(s, name);
    let after = named(s, name);
    let id = position(after.names, name) as u32;
    match width {
        Some(width) => {
            with_node_ok(after, NodeView::BvVar { id, width });
        },
        None => {
            with_node_ok(after, NodeView::BoolVar { id });
        },
    }
}

fn copy_bits(bits: &Vec<bool>) -> (r: Vec<bool>)
    ensures
        r@ == bits@,
{
    let mut r: Vec<bool> = Vec::new();
    let mut i: usize = 0;
    while i < bits.len()
        invariant
            i <= bits@.len(),
            r@ == bits@.take(i as int),
        decreases bits@.len() - i,
    {
        r.push(bits[i]);
        assert(r@ =~= bits@.take(i + 1));
        i += 1;
    }
    assert(r@ =~= bits@);
    r
}

fn map_op(op: BvOp) -> (r: Op)
    ensures
        r == mapped(op),
{
    match op {
        BvOp::BvNot => Op::BvNot,
        BvOp::BvNeg => Op::BvNeg,
        BvOp::BvAdd => Op::BvAdd,
        BvOp::BvSub => Op::BvSub,
        BvOp::BvMul => Op::BvMul,
        BvOp::BvUdiv => Op::BvUdiv,
        BvOp::BvUrem => Op::BvUrem,
        BvOp::BvSdiv => Op::BvSdiv,
        BvOp::BvSrem => Op::BvSrem,
        BvOp::BvSmod => Op::BvSmod,
        BvOp::BvAnd => Op::BvAnd,
        BvOp::BvOr => Op::BvOr,
        BvOp::BvXor => Op::BvXor,
        BvOp::BvShl => Op::BvShl,
        BvOp::BvLshr => Op::BvLshr,
        BvOp::BvAshr => Op::BvAshr,
        BvOp::BvUlt => Op::BvUlt,
        BvOp::BvUle => Op::BvUle,
        BvOp::BvUgt => Op::BvUgt,
        BvOp::BvUge => Op::BvUge,
        BvOp::BvSlt => Op::BvSlt,
        BvOp::BvSle => Op::BvSle,
        BvOp::BvSgt => Op::BvSgt,
        BvOp::BvSge => Op::BvSge,
        BvOp::Concat => Op::BvConcat,
        BvOp::Extract { high, low } => Op::BvExtract { hi: high, lo: low },
        BvOp::ZeroExtend { amount } => Op::BvZeroExtend { amount },
        BvOp::SignExtend { amount } => Op::BvSignExtend { amount },
    }
}

} // verus!
