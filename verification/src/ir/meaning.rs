//! What lowering is for: the node of a term means what the term means.
//!
//! The meaning of the operators is left open: it is given by their names in
//! SMT-LIB, and everything holds for every such meaning. The standard one, on
//! Booleans and vectors of bits, is one of them.

use vstd::prelude::*;

#[allow(unused_imports)]
use crate::ir::builder;
#[allow(unused_imports)]
use crate::ir::builder::{BvOp, Lowering, Term, TermInner};
#[allow(unused_imports)]
use crate::ir::dag;
#[allow(unused_imports)]
use crate::ir::dag::{NodeId, NodeView, Op};
#[allow(unused_imports)]
use crate::text::Text;
#[allow(unused_imports)]
use vstd::arithmetic::power2::pow2;

verus! {

/// A meaning: values of constants, of literals (by their bits, the lowest
/// first), of variables (by name and width), and of operators (by name, with
/// their indices, on the values of their arguments).
#[verifier::reject_recursive_types(V)]
pub struct Meaning<V> {
    pub truth: spec_fn(bool) -> V,
    pub literal: spec_fn(u32, Seq<bool>) -> V,
    pub variable: spec_fn(Text, Option<u32>) -> V,
    pub operator: spec_fn(Text, Seq<u32>, Seq<V>) -> V,
}

/// The name of an operator of the input language, and its indices.
pub open spec fn term_symbol(op: BvOp) -> (Text, Seq<u32>) {
    match op {
        BvOp::BvNot => ("bvnot"@, seq![]),
        BvOp::BvNeg => ("bvneg"@, seq![]),
        BvOp::BvAdd => ("bvadd"@, seq![]),
        BvOp::BvSub => ("bvsub"@, seq![]),
        BvOp::BvMul => ("bvmul"@, seq![]),
        BvOp::BvUdiv => ("bvudiv"@, seq![]),
        BvOp::BvUrem => ("bvurem"@, seq![]),
        BvOp::BvSdiv => ("bvsdiv"@, seq![]),
        BvOp::BvSrem => ("bvsrem"@, seq![]),
        BvOp::BvSmod => ("bvsmod"@, seq![]),
        BvOp::BvAnd => ("bvand"@, seq![]),
        BvOp::BvOr => ("bvor"@, seq![]),
        BvOp::BvXor => ("bvxor"@, seq![]),
        BvOp::BvShl => ("bvshl"@, seq![]),
        BvOp::BvLshr => ("bvlshr"@, seq![]),
        BvOp::BvAshr => ("bvashr"@, seq![]),
        BvOp::BvUlt => ("bvult"@, seq![]),
        BvOp::BvUle => ("bvule"@, seq![]),
        BvOp::BvUgt => ("bvugt"@, seq![]),
        BvOp::BvUge => ("bvuge"@, seq![]),
        BvOp::BvSlt => ("bvslt"@, seq![]),
        BvOp::BvSle => ("bvsle"@, seq![]),
        BvOp::BvSgt => ("bvsgt"@, seq![]),
        BvOp::BvSge => ("bvsge"@, seq![]),
        BvOp::Concat => ("concat"@, seq![]),
        BvOp::Extract { high, low } => ("extract"@, seq![high, low]),
        BvOp::ZeroExtend { amount } => ("zero_extend"@, seq![amount]),
        BvOp::SignExtend { amount } => ("sign_extend"@, seq![amount]),
    }
}

/// The name of an operator of the DAG, and its indices.
pub open spec fn node_symbol(op: Op) -> (Text, Seq<u32>) {
    match op {
        Op::And => ("and"@, seq![]),
        Op::Or => ("or"@, seq![]),
        Op::Not => ("not"@, seq![]),
        Op::Xor => ("xor"@, seq![]),
        Op::Eq => ("="@, seq![]),
        Op::BvNot => ("bvnot"@, seq![]),
        Op::BvNeg => ("bvneg"@, seq![]),
        Op::BvAdd => ("bvadd"@, seq![]),
        Op::BvSub => ("bvsub"@, seq![]),
        Op::BvMul => ("bvmul"@, seq![]),
        Op::BvUdiv => ("bvudiv"@, seq![]),
        Op::BvUrem => ("bvurem"@, seq![]),
        Op::BvSdiv => ("bvsdiv"@, seq![]),
        Op::BvSrem => ("bvsrem"@, seq![]),
        Op::BvSmod => ("bvsmod"@, seq![]),
        Op::BvAnd => ("bvand"@, seq![]),
        Op::BvOr => ("bvor"@, seq![]),
        Op::BvXor => ("bvxor"@, seq![]),
        Op::BvShl => ("bvshl"@, seq![]),
        Op::BvLshr => ("bvlshr"@, seq![]),
        Op::BvAshr => ("bvashr"@, seq![]),
        Op::BvUlt => ("bvult"@, seq![]),
        Op::BvUle => ("bvule"@, seq![]),
        Op::BvUgt => ("bvugt"@, seq![]),
        Op::BvUge => ("bvuge"@, seq![]),
        Op::BvSlt => ("bvslt"@, seq![]),
        Op::BvSle => ("bvsle"@, seq![]),
        Op::BvSgt => ("bvsgt"@, seq![]),
        Op::BvSge => ("bvsge"@, seq![]),
        Op::BvConcat => ("concat"@, seq![]),
        Op::BvExtract { hi, lo } => ("extract"@, seq![hi, lo]),
        Op::BvZeroExtend { amount } => ("zero_extend"@, seq![amount]),
        Op::BvSignExtend { amount } => ("sign_extend"@, seq![amount]),
        Op::Ite => ("ite"@, seq![]),
    }
}

/// The value of a term. The application of a function counts as a constant of
/// the function's name.
pub open spec fn term_value<V>(m: Meaning<V>, t: Term) -> V
    decreases t, 0nat,
{
    match t.inner {
        TermInner::True => (m.truth)(true),
        TermInner::False => (m.truth)(false),
        TermInner::BvLiteral { bits, width } => (m.literal)(width, bits@),
        TermInner::Variable(name) => (m.variable)(name@, t.width),
        TermInner::FunCall(name, _) => (m.variable)(name@, t.width),
        TermInner::BvOp(op, args) => (m.operator)(
            term_symbol(op).0,
            term_symbol(op).1,
            term_values(m, args@, args@.len()),
        ),
        TermInner::Not(a) => (m.operator)("not"@, seq![], seq![term_value(m, *a)]),
        TermInner::And(args) => (m.operator)(
            "and"@,
            seq![],
            term_values(m, args@, args@.len()),
        ),
        TermInner::Or(args) => (m.operator)(
            "or"@,
            seq![],
            term_values(m, args@, args@.len()),
        ),
        TermInner::Ite(c, a, b) => (m.operator)(
            "ite"@,
            seq![],
            seq![term_value(m, *c), term_value(m, *a), term_value(m, *b)],
        ),
        TermInner::Eq(a, b) => (m.operator)(
            "="@,
            seq![],
            seq![term_value(m, *a), term_value(m, *b)],
        ),
    }
}

/// The values of the first `n` terms.
pub open spec fn term_values<V>(m: Meaning<V>, ts: Seq<Term>, n: nat) -> Seq<V>
    decreases ts, n,
{
    if 0 < n <= ts.len() {
        term_values(m, ts, (n - 1) as nat).push(term_value(m, ts[n - 1]))
    } else {
        seq![]
    }
}

/// Every node applies its operator to earlier nodes, and every variable has a
/// symbol.
pub open spec fn grounded(s: Lowering) -> bool {
    forall|i: int| 0 <= i < s.nodes.len() ==> node_grounded(s, #[trigger] s.nodes[i], i)
}

pub open spec fn node_grounded(s: Lowering, v: NodeView, i: int) -> bool {
    match v {
        NodeView::Apply { children, .. } => forall|k: int|
            0 <= k < children.len() ==> (#[trigger] children[k]).0 < i,
        NodeView::BoolVar { id } => id < s.names.len(),
        NodeView::BvVar { id, .. } => id < s.names.len(),
        _ => true,
    }
}

/// The value of a node: a variable is known by its symbol, and an operator is
/// applied to the values of its children.
pub open spec fn node_value<V>(m: Meaning<V>, s: Lowering, i: int) -> V
    decreases i, 1nat, 0nat,
{
    match s.nodes[i] {
        NodeView::BoolConst(b) => (m.truth)(b),
        NodeView::BvConst { width, bits } => (m.literal)(width, bits),
        NodeView::BoolVar { id } => (m.variable)(s.names[id as int], None),
        NodeView::BvVar { id, width } => (m.variable)(s.names[id as int], Some(width)),
        NodeView::Apply { op, children } => (m.operator)(
            node_symbol(op).0,
            node_symbol(op).1,
            node_values(m, s, children, children.len(), i),
        ),
    }
}

/// The values of the first `n` of some nodes, all of them before node `i`.
pub open spec fn node_values<V>(
    m: Meaning<V>,
    s: Lowering,
    ids: Seq<NodeId>,
    n: nat,
    i: int,
) -> Seq<V>
    decreases i, 0nat, n,
{
    if 0 < n <= ids.len() && 0 <= ids[n - 1].0 < i {
        node_values(m, s, ids, (n - 1) as nat, i).push(node_value(m, s, ids[n - 1].0 as int))
    } else {
        seq![]
    }
}

/// Operators keep their names and indices.
pub proof fn operators_keep_their_names(op: BvOp)
    ensures
        node_symbol(builder::mapped(op)) == term_symbol(op),
{
}

/// Different operators stay apart.
pub proof fn operators_stay_apart(a: BvOp, b: BvOp)
    requires
        builder::mapped(a) == builder::mapped(b),
    ensures
        a == b,
{
}

/// Interning keeps a lowering grounded.
proof fn node_keeps_grounded(s: Lowering, v: NodeView)
    requires
        builder::sound(s),
        grounded(s),
        s.nodes.len() <= u32::MAX,
        node_grounded(s, v, s.nodes.len() as int),
    ensures
        grounded(builder::with_node(s, v).0),
        builder::with_node(s, v).0.names == s.names,
{
    let t = builder::with_node(s, v).0;
    builder::with_node_ok(s, v);
    dag::interning_is_canonical(s.nodes, v);
    assert forall|i: int| 0 <= i < t.nodes.len() implies node_grounded(t, #[trigger] t.nodes[i], i) by {
        if i < s.nodes.len() {
            assert(t.nodes.take(s.nodes.len() as int)[i] == s.nodes[i]);
            assert(node_grounded(s, s.nodes[i], i));
        } else {
            assert(t.nodes == s.nodes.push(v));
        }
    }
}

/// More symbols keep a lowering grounded.
proof fn name_keeps_grounded(s: Lowering, name: Text)
    requires
        grounded(s),
    ensures
        grounded(builder::named(s, name)),
{
    let t = builder::named(s, name);
    assert forall|i: int| 0 <= i < t.nodes.len() implies node_grounded(t, #[trigger] t.nodes[i], i) by {
        assert(node_grounded(s, s.nodes[i], i));
    }
}

/// A node of a state is the same node in a later state.
proof fn node_later(s: Lowering, more: Lowering, i: int)
    requires
        builder::extends(s, more),
        0 <= i < s.nodes.len(),
    ensures
        i < more.nodes.len(),
        more.nodes[i] == s.nodes[i],
{
    assert(more.nodes.take(s.nodes.len() as int)[i] == s.nodes[i]);
}

/// The node that an interning gives has the value that is asked for.
proof fn variable_means<V>(
    m: Meaning<V>,
    s: Lowering,
    more: Lowering,
    name: Text,
    width: Option<u32>,
)
    requires
        builder::sound(s),
        builder::room(s, 1),
        grounded(s),
        builder::extends(builder::with_var(s, name, width).0, more),
    ensures
        grounded(builder::with_var(s, name, width).0),
        builder::with_var(s, name, width).1.0 < builder::with_var(s, name, width).0.nodes.len(),
        node_value(m, more, builder::with_var(s, name, width).1.0 as int) == (m.variable)(
            name,
            width,
        ),
{
    builder::named_ok(s, name);
    name_keeps_grounded(s, name);
    let after = builder::named(s, name);
    let p = builder::position(after.names, name);
    let v = match width {
        Some(width) => NodeView::BvVar { id: p as u32, width },
        None => NodeView::BoolVar { id: p as u32 },
    };
    builder::with_node_ok(after, v);
    node_keeps_grounded(after, v);
    let (t, id) = builder::with_node(after, v);
    assert(builder::with_var(s, name, width) == (t, id));
    node_later(t, more, id.0 as int);
    assert(more.names.take(t.names.len() as int)[p] == t.names[p]);
    assert(more.names[p] == name);
}

/// The value of the node of an application.
proof fn application_means<V>(
    m: Meaning<V>,
    s: Lowering,
    more: Lowering,
    op: Op,
    ids: Seq<NodeId>,
)
    requires
        builder::sound(s),
        grounded(s),
        s.nodes.len() <= u32::MAX,
        forall|k: int| 0 <= k < ids.len() ==> (#[trigger] ids[k]).0 < s.nodes.len(),
        builder::extends(builder::with_apply(s, op, ids).0, more),
    ensures
        grounded(builder::with_apply(s, op, ids).0),
        builder::with_apply(s, op, ids).1.0 < builder::with_apply(s, op, ids).0.nodes.len(),
        node_value(m, more, builder::with_apply(s, op, ids).1.0 as int) == (m.operator)(
            node_symbol(op).0,
            node_symbol(op).1,
            Seq::new(ids.len(), |k: int| node_value(m, more, ids[k].0 as int)),
        ),
{
    let v = NodeView::Apply { op, children: ids };
    builder::with_node_ok(s, v);
    node_keeps_grounded(s, v);
    let (t, id) = builder::with_node(s, v);
    let i = id.0 as int;
    assert(node_grounded(t, t.nodes[i], i));
    node_later(t, more, i);
    values_of(m, more, ids, ids.len(), i);
    assert(node_values(m, more, ids, ids.len(), i) =~= Seq::new(
        ids.len(),
        |k: int| node_value(m, more, ids[k].0 as int),
    ));
}

proof fn values_of<V>(m: Meaning<V>, s: Lowering, ids: Seq<NodeId>, n: nat, i: int)
    requires
        n <= ids.len(),
        forall|k: int| 0 <= k < ids.len() ==> (#[trigger] ids[k]).0 < i,
    ensures
        node_values(m, s, ids, n, i).len() == n,
        forall|k: int|
            0 <= k < n ==> #[trigger] node_values(m, s, ids, n, i)[k] == node_value(
                m,
                s,
                ids[k].0 as int,
            ),
    decreases n,
{
    if n > 0 {
        values_of(m, s, ids, (n - 1) as nat, i);
        assert(ids[n - 1].0 < i);
    }
}

/// Lowering keeps the meaning: the node of a term has the value of the term,
/// for every meaning of the operators and every assignment of the variables,
/// now and in every later state of the builder.
#[verifier::rlimit(60)]
#[verifier::spinoff_prover]
pub proof fn lowering_keeps_meaning<V>(m: Meaning<V>, s: Lowering, t: Term, more: Lowering)
    requires
        builder::sound(s),
        builder::room(s, builder::size(t)),
        grounded(s),
        builder::extends(builder::lowered(s, t).0, more),
    ensures
        grounded(builder::lowered(s, t).0),
        builder::lowered(s, t).1.0 < builder::lowered(s, t).0.nodes.len(),
        node_value(m, more, builder::lowered(s, t).1.0 as int) == term_value(m, t),
    decreases t, 0nat,
{
    match t.inner {
        TermInner::True => {
            leaf_means(s, more, NodeView::BoolConst(true));
        },
        TermInner::False => {
            leaf_means(s, more, NodeView::BoolConst(false));
        },
        TermInner::BvLiteral { bits, width } => {
            leaf_means(s, more, NodeView::BvConst { width, bits: bits@ });
        },
        TermInner::Variable(name) => {
            variable_means(m, s, more, name@, t.width);
        },
        TermInner::BvOp(op, args) => {
            operators_keep_their_names(op);
            arguments_mean(m, s, args@, more, builder::mapped(op));
        },
        TermInner::FunCall(name, args) => {
            builder::all_extend(s, args@, args@.len());
            let (s1, _ids) = builder::lowered_all(s, args@, args@.len());
            builder::with_var_ok(s1, name@, t.width);
            builder::extends_trans(s1, builder::lowered(s, t).0, more);
            all_keep_meaning(m, s, args@, args@.len(), more);
            variable_means(m, s1, more, name@, t.width);
        },
        TermInner::Not(a) => {
            builder::lowering_extends(s, *a);
            let (s1, ia) = builder::lowered(s, *a);
            builder::with_node_ok(s1, NodeView::Apply { op: Op::Not, children: seq![ia] });
            builder::extends_trans(s1, builder::lowered(s, t).0, more);
            lowering_keeps_meaning(m, s, *a, more);
            application_means(m, s1, more, Op::Not, seq![ia]);
            assert(Seq::new(1, |k: int| node_value(m, more, seq![ia][k].0 as int))
                =~= seq![term_value(m, *a)]);
        },
        TermInner::And(args) => {
            arguments_mean(m, s, args@, more, Op::And);
        },
        TermInner::Or(args) => {
            arguments_mean(m, s, args@, more, Op::Or);
        },
        TermInner::Ite(c, a, b) => {
            builder::lowering_extends(s, *c);
            let (s1, ic) = builder::lowered(s, *c);
            builder::lowering_extends(s1, *a);
            let (s2, ia) = builder::lowered(s1, *a);
            builder::lowering_extends(s2, *b);
            let (s3, ib) = builder::lowered(s2, *b);
            let ids = seq![ic, ia, ib];
            builder::with_node_ok(s3, NodeView::Apply { op: Op::Ite, children: ids });
            builder::extends_trans(s3, builder::lowered(s, t).0, more);
            builder::extends_trans(s2, s3, more);
            builder::extends_trans(s1, s2, more);
            lowering_keeps_meaning(m, s, *c, more);
            lowering_keeps_meaning(m, s1, *a, more);
            lowering_keeps_meaning(m, s2, *b, more);
            node_later(s1, s2, ic.0 as int);
            node_later(s2, s3, ic.0 as int);
            node_later(s2, s3, ia.0 as int);
            application_means(m, s3, more, Op::Ite, ids);
            assert(Seq::new(3, |k: int| node_value(m, more, ids[k].0 as int)) =~= seq![
                term_value(m, *c),
                term_value(m, *a),
                term_value(m, *b),
            ]);
        },
        TermInner::Eq(a, b) => {
            builder::lowering_extends(s, *a);
            let (s1, ia) = builder::lowered(s, *a);
            builder::lowering_extends(s1, *b);
            let (s2, ib) = builder::lowered(s1, *b);
            let ids = seq![ia, ib];
            builder::with_node_ok(s2, NodeView::Apply { op: Op::Eq, children: ids });
            builder::extends_trans(s2, builder::lowered(s, t).0, more);
            builder::extends_trans(s1, s2, more);
            lowering_keeps_meaning(m, s, *a, more);
            lowering_keeps_meaning(m, s1, *b, more);
            node_later(s1, s2, ia.0 as int);
            application_means(m, s2, more, Op::Eq, ids);
            assert(Seq::new(2, |k: int| node_value(m, more, ids[k].0 as int)) =~= seq![
                term_value(m, *a),
                term_value(m, *b),
            ]);
        },
    }
}

proof fn leaf_means(s: Lowering, more: Lowering, v: NodeView)
    requires
        builder::sound(s),
        s.nodes.len() <= u32::MAX,
        grounded(s),
        v is BoolConst || v is BvConst,
        builder::extends(builder::with_node(s, v).0, more),
    ensures
        grounded(builder::with_node(s, v).0),
        builder::with_node(s, v).1.0 < builder::with_node(s, v).0.nodes.len(),
        more.nodes[builder::with_node(s, v).1.0 as int] == v,
{
    builder::with_node_ok(s, v);
    node_keeps_grounded(s, v);
    node_later(builder::with_node(s, v).0, more, builder::with_node(s, v).1.0 as int);
}

proof fn arguments_mean<V>(m: Meaning<V>, s: Lowering, ts: Seq<Term>, more: Lowering, op: Op)
    requires
        builder::sound(s),
        builder::room(s, 1 + builder::size_all(ts, ts.len())),
        grounded(s),
        ({
            let (s1, ids) = builder::lowered_all(s, ts, ts.len());
            builder::extends(builder::with_apply(s1, op, ids).0, more)
        }),
    ensures
        ({
            let (s1, ids) = builder::lowered_all(s, ts, ts.len());
            let (s2, id) = builder::with_apply(s1, op, ids);
            &&& grounded(s2)
            &&& id.0 < s2.nodes.len()
            &&& node_value(m, more, id.0 as int) == (m.operator)(
                node_symbol(op).0,
                node_symbol(op).1,
                term_values(m, ts, ts.len()),
            )
        }),
    decreases ts, ts.len() + 1,
{
    builder::all_extend(s, ts, ts.len());
    let (s1, ids) = builder::lowered_all(s, ts, ts.len());
    builder::with_node_ok(s1, NodeView::Apply { op, children: ids });
    builder::extends_trans(s1, builder::with_apply(s1, op, ids).0, more);
    all_keep_meaning(m, s, ts, ts.len(), more);
    application_means(m, s1, more, op, ids);
    assert(Seq::new(ids.len(), |k: int| node_value(m, more, ids[k].0 as int)) =~= term_values(
        m,
        ts,
        ts.len(),
    ));
}

proof fn all_keep_meaning<V>(m: Meaning<V>, s: Lowering, ts: Seq<Term>, n: nat, more: Lowering)
    requires
        builder::sound(s),
        n <= ts.len(),
        builder::room(s, builder::size_all(ts, n)),
        grounded(s),
        builder::extends(builder::lowered_all(s, ts, n).0, more),
    ensures
        ({
            let (s1, ids) = builder::lowered_all(s, ts, n);
            let values = term_values(m, ts, n);
            &&& grounded(s1)
            &&& ids.len() == n
            &&& values.len() == n
            &&& forall|k: int| 0 <= k < n ==> (#[trigger] ids[k]).0 < s1.nodes.len()
            &&& forall|k: int|
                0 <= k < n ==> node_value(m, more, (#[trigger] ids[k]).0 as int) == values[k]
        }),
    decreases ts, n,
{
    if 0 < n {
        builder::all_extend(s, ts, (n - 1) as nat);
        let (s0, before) = builder::lowered_all(s, ts, (n - 1) as nat);
        builder::lowering_extends(s0, ts[n - 1]);
        let (s1, id) = builder::lowered(s0, ts[n - 1]);
        builder::extends_trans(s0, s1, more);
        all_keep_meaning(m, s, ts, (n - 1) as nat, more);
        lowering_keeps_meaning(m, s0, ts[n - 1], more);
        let ids = before.push(id);
        assert forall|k: int| 0 <= k < n implies (#[trigger] ids[k]).0 < s1.nodes.len() by {
            if k < n - 1 {
                assert(ids[k] == before[k]);
                node_later(s0, s1, before[k].0 as int);
            }
        }
        let values = term_values(m, ts, n);
        assert forall|k: int| 0 <= k < n implies node_value(m, more, (#[trigger] ids[k]).0 as int)
            == values[k] by {
            if k < n - 1 {
                assert(ids[k] == before[k]);
            }
        }
    }
}

/// A builder starts out grounded, so that every node it ever gives means its
/// term.
pub proof fn nothing_is_grounded(s: Lowering)
    requires
        s.nodes.len() == 0,
    ensures
        grounded(s),
{
}

// ---------------------------------------------------------------------------
// The standard meaning
// ---------------------------------------------------------------------------

/// A Boolean or a vector of bits, the lowest first.
#[verifier::ext_equal]
pub enum Value {
    Truth(bool),
    Bits(Seq<bool>),
}

/// The number that some bits denote.
pub open spec fn number(bits: Seq<bool>) -> nat
    decreases bits.len(),
{
    if bits.len() == 0 {
        0
    } else {
        (if bits[0] {
            1nat
        } else {
            0
        }) + 2 * number(bits.drop_first())
    }
}

/// The lowest `width` bits of a number.
pub open spec fn low_bits(n: int, width: nat) -> Seq<bool> {
    Seq::new(width, |i: int| (n / (pow2(i as nat) as int)) % 2 == 1)
}

/// The number that some bits denote in two's complement.
pub open spec fn signed(bits: Seq<bool>) -> int {
    if bits.len() > 0 && bits.last() {
        number(bits) - pow2(bits.len())
    } else {
        number(bits) as int
    }
}

pub open spec fn absolute(x: int) -> int {
    if x < 0 {
        -x
    } else {
        x
    }
}

/// Division that rounds towards zero, by a nonzero number.
pub open spec fn quotient(x: int, y: int) -> int {
    let q = absolute(x) / absolute(y);
    if (x < 0) == (y < 0) {
        q
    } else {
        -q
    }
}

/// What the standard operators do to two vectors; nothing for other names.
pub open spec fn on_vectors(name: Text, a: Seq<bool>, b: Seq<bool>) -> Value {
    let w = a.len();
    let x = number(a) as int;
    let y = number(b) as int;
    let sx = signed(a);
    let sy = signed(b);
    if name == "bvadd"@ {
        Value::Bits(low_bits(x + y, w))
    } else if name == "bvsub"@ {
        Value::Bits(low_bits(x - y, w))
    } else if name == "bvmul"@ {
        Value::Bits(low_bits(x * y, w))
    } else if name == "bvudiv"@ {
        Value::Bits(if y == 0 { Seq::new(w, |i: int| true) } else { low_bits(x / y, w) })
    } else if name == "bvurem"@ {
        Value::Bits(if y == 0 { a } else { low_bits(x % y, w) })
    } else if name == "bvsdiv"@ {
        Value::Bits(
            if sy == 0 {
                low_bits(if sx < 0 { 1 } else { -1 }, w)
            } else {
                low_bits(quotient(sx, sy), w)
            },
        )
    } else if name == "bvsrem"@ {
        Value::Bits(if sy == 0 { a } else { low_bits(sx - sy * quotient(sx, sy), w) })
    } else if name == "bvsmod"@ {
        Value::Bits(
            if sy == 0 {
                a
            } else {
                let r = sx - sy * quotient(sx, sy);
                low_bits(if r != 0 && (r < 0) != (sy < 0) { r + sy } else { r }, w)
            },
        )
    } else if name == "bvand"@ {
        Value::Bits(Seq::new(w, |i: int| a[i] && b[i]))
    } else if name == "bvor"@ {
        Value::Bits(Seq::new(w, |i: int| a[i] || b[i]))
    } else if name == "bvxor"@ {
        Value::Bits(Seq::new(w, |i: int| a[i] != b[i]))
    } else if name == "bvshl"@ {
        Value::Bits(Seq::new(w, |i: int| i >= y && a[i - y]))
    } else if name == "bvlshr"@ {
        Value::Bits(Seq::new(w, |i: int| i + y < w && a[i + y]))
    } else if name == "bvashr"@ {
        Value::Bits(Seq::new(w, |i: int| if i + y < w { a[i + y] } else { a.last() }))
    } else if name == "bvult"@ {
        Value::Truth(x < y)
    } else if name == "bvule"@ {
        Value::Truth(x <= y)
    } else if name == "bvugt"@ {
        Value::Truth(x > y)
    } else if name == "bvuge"@ {
        Value::Truth(x >= y)
    } else if name == "bvslt"@ {
        Value::Truth(sx < sy)
    } else if name == "bvsle"@ {
        Value::Truth(sx <= sy)
    } else if name == "bvsgt"@ {
        Value::Truth(sx > sy)
    } else if name == "bvsge"@ {
        Value::Truth(sx >= sy)
    } else if name == "concat"@ {
        Value::Bits(b + a)
    } else {
        Value::Truth(false)
    }
}

/// What the standard operators do to one vector.
pub open spec fn on_vector(name: Text, indices: Seq<u32>, a: Seq<bool>) -> Value {
    if name == "bvnot"@ {
        Value::Bits(a.map_values(|b: bool| !b))
    } else if name == "bvneg"@ {
        Value::Bits(low_bits(-(number(a) as int), a.len()))
    } else if name == "extract"@ {
        Value::Bits(a.subrange(indices[1] as int, indices[0] as int + 1))
    } else if name == "zero_extend"@ {
        Value::Bits(a + Seq::new(indices[0] as nat, |i: int| false))
    } else if name == "sign_extend"@ {
        Value::Bits(a + Seq::new(indices[0] as nat, |i: int| a.last()))
    } else {
        Value::Truth(false)
    }
}

/// The standard operators.
pub open spec fn standard_operator(name: Text, indices: Seq<u32>, args: Seq<Value>) -> Value {
    if name == "and"@ {
        Value::Truth(forall|k: int| 0 <= k < args.len() ==> #[trigger] args[k] == Value::Truth(true))
    } else if name == "or"@ {
        Value::Truth(exists|k: int| 0 <= k < args.len() && #[trigger] args[k] == Value::Truth(true))
    } else if name == "not"@ {
        Value::Truth(args[0] != Value::Truth(true))
    } else if name == "="@ {
        Value::Truth(args[0] == args[1])
    } else if name == "ite"@ {
        if args[0] == Value::Truth(true) {
            args[1]
        } else {
            args[2]
        }
    } else if args.len() == 1 {
        match args[0] {
            Value::Bits(a) => on_vector(name, indices, a),
            _ => Value::Truth(false),
        }
    } else {
        match (args[0], args[1]) {
            (Value::Bits(a), Value::Bits(b)) => on_vectors(name, a, b),
            _ => Value::Truth(false),
        }
    }
}

/// The standard meaning, under an assignment of the variables.
pub open spec fn standard(assignment: spec_fn(Text, Option<u32>) -> Value) -> Meaning<Value> {
    Meaning {
        truth: |b: bool| Value::Truth(b),
        literal: |width: u32, bits: Seq<bool>| Value::Bits(bits),
        variable: assignment,
        operator: |name: Text, indices: Seq<u32>, args: Seq<Value>|
            standard_operator(name, indices, args),
    }
}

/// Lowering keeps values: under every assignment of the variables the node of
/// a term has the term's value in the arithmetic of bit-vectors.
pub proof fn lowering_keeps_values(
    assignment: spec_fn(Text, Option<u32>) -> Value,
    s: Lowering,
    t: Term,
)
    requires
        builder::sound(s),
        builder::room(s, builder::size(t)),
        grounded(s),
    ensures
        ({
            let (after, id) = builder::lowered(s, t);
            &&& grounded(after)
            &&& node_value(standard(assignment), after, id.0 as int) == term_value(
                standard(assignment),
                t,
            )
        }),
{
    let after = builder::lowered(s, t).0;
    assert(after.nodes.take(after.nodes.len() as int) =~= after.nodes);
    assert(after.names.take(after.names.len() as int) =~= after.names);
    lowering_keeps_meaning(standard(assignment), s, t, after);
}

/// A node has the value of a term, under every assignment of the variables.
pub open spec fn same_values(s: Lowering, id: NodeId, t: Term) -> bool {
    forall|assignment: spec_fn(Text, Option<u32>) -> Value|
        node_value(#[trigger] standard(assignment), s, id.0 as int) == term_value(
            standard(assignment),
            t,
        )
}

/// The node of a term has its value under every assignment.
pub proof fn lowered_terms_have_their_values(s: Lowering, t: Term)
    requires
        builder::sound(s),
        builder::room(s, builder::size(t)),
        grounded(s),
    ensures
        grounded(builder::lowered(s, t).0),
        same_values(builder::lowered(s, t).0, builder::lowered(s, t).1, t),
{
    assert forall|assignment: spec_fn(Text, Option<u32>) -> Value|
        node_value(
            #[trigger] standard(assignment),
            builder::lowered(s, t).0,
            builder::lowered(s, t).1.0 as int,
        ) == term_value(standard(assignment), t) by {
        lowering_keeps_values(assignment, s, t);
    }
    lowering_keeps_values(|name: Text, width: Option<u32>| Value::Truth(true), s, t);
}

} // verus!
