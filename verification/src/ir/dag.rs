//! Interned term DAG: the word-level intermediate representation shared by
//! the front end, bit-blaster, and circuit path. Structurally identical
//! subterms are interned to a single [`NodeId`].

use vstd::prelude::*;

use crate::akx::fx;
use crate::ir::bitvec::Bv;
use std::collections::HashMap;

verus! {

broadcast use vstd::std_specs::hash::group_hash_axioms;

/// Identifier into a `TermDag`.
#[derive(Clone, Copy, PartialEq, Eq, Hash, Debug, Structural)]
pub struct NodeId(pub u32);

/// A node in the term DAG.
#[derive(Debug)]
pub enum Node {
    BoolConst(bool),
    BvConst { width: u32, value: Bv },
    /// A Boolean variable.
    BoolVar { id: u32 },
    /// A bit-vector variable of `width` bits.
    BvVar { id: u32, width: u32 },
    Apply { op: Op, children: Vec<NodeId> },
}

#[derive(Clone, Copy, Debug, PartialEq, Eq, Hash, Structural)]
pub enum Op {
    And,
    Or,
    Not,
    Xor,
    /// Bit-vector equality (structural, per-bit).
    Eq,
    BvNot,
    BvNeg,
    BvAdd,
    BvSub,
    BvMul,
    BvUdiv,
    BvUrem,
    BvSdiv,
    BvSrem,
    BvSmod,
    BvAnd,
    BvOr,
    BvXor,
    BvShl,
    BvLshr,
    BvAshr,
    BvUlt,
    BvUle,
    BvUgt,
    BvUge,
    BvSlt,
    BvSle,
    BvSgt,
    BvSge,
    /// `(concat a b)`: the result width is the sum of the operand widths.
    BvConcat,
    /// `(extract hi lo x)`.
    BvExtract { hi: u32, lo: u32 },
    /// `(zero_extend n x)` / `(sign_extend n x)`.
    BvZeroExtend { amount: u32 },
    BvSignExtend { amount: u32 },
    /// `(ite c t e)`: the result width matches the then/else branches.
    Ite,
}

/// The contents of a node.
#[verifier::ext_equal]
pub enum NodeView {
    BoolConst(bool),
    BvConst { width: u32, bits: Seq<bool> },
    BoolVar { id: u32 },
    BvVar { id: u32, width: u32 },
    Apply { op: Op, children: Seq<NodeId> },
}

impl View for Node {
    type V = NodeView;

    open spec fn view(&self) -> NodeView {
        match *self {
            Node::BoolConst(b) => NodeView::BoolConst(b),
            Node::BvConst { width, value } => NodeView::BvConst { width, bits: value@ },
            Node::BoolVar { id } => NodeView::BoolVar { id },
            Node::BvVar { id, width } => NodeView::BvVar { id, width },
            Node::Apply { op, children } => NodeView::Apply { op, children: children@ },
        }
    }
}

pub open spec fn node_views(nodes: Seq<Node>) -> Seq<NodeView> {
    nodes.map_values(|n: Node| n@)
}

/// No node occurs twice.
pub open spec fn canonical(nodes: Seq<NodeView>) -> bool {
    forall|i: int, j: int| 0 <= i < j < nodes.len() ==> #[trigger] nodes[i] != #[trigger] nodes[j]
}

/// A node occurs.
pub open spec fn has_node(nodes: Seq<NodeView>, v: NodeView) -> bool {
    exists|i: int| 0 <= i < nodes.len() && #[trigger] nodes[i] == v
}

/// The identifier of a node that occurs.
pub open spec fn id_of(nodes: Seq<NodeView>, v: NodeView) -> NodeId {
    NodeId((choose|i: int| 0 <= i < nodes.len() && #[trigger] nodes[i] == v) as u32)
}

/// The nodes after interning a node, and its identifier.
pub open spec fn interned(nodes: Seq<NodeView>, v: NodeView) -> (Seq<NodeView>, NodeId) {
    if has_node(nodes, v) {
        (nodes, id_of(nodes, v))
    } else {
        (nodes.push(v), NodeId(nodes.len() as u32))
    }
}

/// Among distinct nodes an identifier is unique.
pub proof fn id_is(nodes: Seq<NodeView>, i: int)
    requires
        canonical(nodes),
        0 <= i < nodes.len() <= u32::MAX + 1,
    ensures
        has_node(nodes, nodes[i]),
        id_of(nodes, nodes[i]) == NodeId(i as u32),
{
    let j = choose|j: int| 0 <= j < nodes.len() && #[trigger] nodes[j] == nodes[i];
    if j < i {
        assert(nodes[j] != nodes[i]);
    } else if i < j {
        assert(nodes[i] != nodes[j]);
    }
}

/// Interning keeps nodes distinct, and gives the node asked for.
pub proof fn interning_is_canonical(nodes: Seq<NodeView>, v: NodeView)
    requires
        canonical(nodes),
        nodes.len() <= u32::MAX,
    ensures
        canonical(interned(nodes, v).0),
        interned(nodes, v).1.0 < interned(nodes, v).0.len(),
        interned(nodes, v).0[interned(nodes, v).1.0 as int] == v,
        nodes.is_prefix_of(interned(nodes, v).0),
        interned(nodes, v).0.len() <= nodes.len() + 1,
{
    let (more, id) = interned(nodes, v);
    if has_node(nodes, v) {
        assert(nodes.take(nodes.len() as int) =~= nodes);
    } else {
        assert(more.take(nodes.len() as int) =~= nodes);
        assert forall|i: int, j: int| 0 <= i < j < more.len() implies #[trigger] more[i]
            != #[trigger] more[j] by {
            if j < nodes.len() {
                assert(nodes[i] != nodes[j]);
            }
        }
    }
}

/// Structural sharing: interning the same node twice yields one identifier,
/// and different nodes yield different ones.
pub proof fn interning_shares(nodes: Seq<NodeView>, a: NodeView, b: NodeView)
    requires
        canonical(nodes),
        nodes.len() < u32::MAX,
    ensures
        ({
            let (n1, ia) = interned(nodes, a);
            let (n2, ib) = interned(n1, b);
            (a == b) == (ia == ib)
        }),
{
    let (n1, ia) = interned(nodes, a);
    interning_is_canonical(nodes, a);
    let (n2, ib) = interned(n1, b);
    interning_is_canonical(n1, b);
    assert(n2[ia.0 as int] == n1[ia.0 as int]) by {
        assert(n2.take(n1.len() as int)[ia.0 as int] == n1[ia.0 as int]);
    }
    if a == b {
        id_is(n1, ia.0 as int);
    }
}

// ---------------------------------------------------------------------------
// Digests
// ---------------------------------------------------------------------------

/// The number of an operator.
pub open spec fn op_code(op: Op) -> u64 {
    match op {
        Op::And => 0,
        Op::Or => 1,
        Op::Not => 2,
        Op::Xor => 3,
        Op::Eq => 4,
        Op::BvNot => 5,
        Op::BvNeg => 6,
        Op::BvAdd => 7,
        Op::BvSub => 8,
        Op::BvMul => 9,
        Op::BvUdiv => 10,
        Op::BvUrem => 11,
        Op::BvSdiv => 12,
        Op::BvSrem => 13,
        Op::BvSmod => 14,
        Op::BvAnd => 15,
        Op::BvOr => 16,
        Op::BvXor => 17,
        Op::BvShl => 18,
        Op::BvLshr => 19,
        Op::BvAshr => 20,
        Op::BvUlt => 21,
        Op::BvUle => 22,
        Op::BvUgt => 23,
        Op::BvUge => 24,
        Op::BvSlt => 25,
        Op::BvSle => 26,
        Op::BvSgt => 27,
        Op::BvSge => 28,
        Op::BvConcat => 29,
        Op::BvExtract { .. } => 30,
        Op::BvZeroExtend { .. } => 31,
        Op::BvSignExtend { .. } => 32,
        Op::Ite => 33,
    }
}

fn code_of(op: Op) -> (c: u64)
    ensures
        c == op_code(op),
{
    match op {
        Op::And => 0,
        Op::Or => 1,
        Op::Not => 2,
        Op::Xor => 3,
        Op::Eq => 4,
        Op::BvNot => 5,
        Op::BvNeg => 6,
        Op::BvAdd => 7,
        Op::BvSub => 8,
        Op::BvMul => 9,
        Op::BvUdiv => 10,
        Op::BvUrem => 11,
        Op::BvSdiv => 12,
        Op::BvSrem => 13,
        Op::BvSmod => 14,
        Op::BvAnd => 15,
        Op::BvOr => 16,
        Op::BvXor => 17,
        Op::BvShl => 18,
        Op::BvLshr => 19,
        Op::BvAshr => 20,
        Op::BvUlt => 21,
        Op::BvUle => 22,
        Op::BvUgt => 23,
        Op::BvUge => 24,
        Op::BvSlt => 25,
        Op::BvSle => 26,
        Op::BvSgt => 27,
        Op::BvSge => 28,
        Op::BvConcat => 29,
        Op::BvExtract { .. } => 30,
        Op::BvZeroExtend { .. } => 31,
        Op::BvSignExtend { .. } => 32,
        Op::Ite => 33,
    }
}

/// The words whose digest finds a node again.
pub open spec fn node_words(v: NodeView) -> Seq<u64> {
    match v {
        NodeView::BoolConst(b) => seq![0, if b { 1 } else { 0 }],
        NodeView::BvConst { width, bits } => seq![1u64, width as u64] + bit_words(bits),
        NodeView::BoolVar { id } => seq![2, id as u64],
        NodeView::BvVar { id, width } => seq![3, id as u64, width as u64],
        NodeView::Apply { op, children } => seq![4u64, op_code(op)] + child_words(children),
    }
}

pub open spec fn bit_words(bits: Seq<bool>) -> Seq<u64> {
    bits.map_values(|b: bool| if b { 1u64 } else { 0u64 })
}

pub open spec fn child_words(children: Seq<NodeId>) -> Seq<u64> {
    children.map_values(|c: NodeId| c.0 as u64)
}

/// The digest of a node.
pub open spec fn digest(v: NodeView) -> u64 {
    fx::hash_of(node_words(v))
}

fn digest_of(node: &Node) -> (d: u64)
    ensures
        d == digest(node@),
{
    let mut words: Vec<u64> = Vec::new();
    match node {
        Node::BoolConst(b) => {
            words.push(0);
            words.push(
                if *b {
                    1
                } else {
                    0
                },
            );
        },
        Node::BvConst { width, value } => {
            words.push(1);
            words.push(*width as u64);
            let bits: &[bool] = value.bits();
            let ghost start = words@;
            let mut i: usize = 0;
            assert(words@ =~= start + bit_words(bits@).take(0));
            while i < bits.len()
                invariant
                    i <= bits@.len(),
                    words@ == start + bit_words(bits@).take(i as int),
                decreases bits@.len() - i,
            {
                words.push(
                    if bits[i] {
                        1
                    } else {
                        0
                    },
                );
                assert(words@ =~= start + bit_words(bits@).take(i + 1));
                i += 1;
            }
            assert(bit_words(bits@).take(i as int) =~= bit_words(bits@));
        },
        Node::BoolVar { id } => {
            words.push(2);
            words.push(*id as u64);
        },
        Node::BvVar { id, width } => {
            words.push(3);
            words.push(*id as u64);
            words.push(*width as u64);
        },
        Node::Apply { op, children } => {
            words.push(4);
            words.push(code_of(*op));
            let ghost start = words@;
            let mut i: usize = 0;
            assert(words@ =~= start + child_words(children@).take(0));
            while i < children.len()
                invariant
                    i <= children@.len(),
                    words@ == start + child_words(children@).take(i as int),
                decreases children@.len() - i,
            {
                words.push(children[i].0 as u64);
                assert(words@ =~= start + child_words(children@).take(i + 1));
                i += 1;
            }
            assert(child_words(children@).take(i as int) =~= child_words(children@));
        },
    }
    assert(words@ =~= node_words(node@));
    fx::hash_words(words.as_slice())
}

// ---------------------------------------------------------------------------
// Equality
// ---------------------------------------------------------------------------

fn same_bits(a: &[bool], b: &[bool]) -> (r: bool)
    ensures
        r == (a@ == b@),
{
    if a.len() != b.len() {
        return false;
    }
    let mut i: usize = 0;
    while i < a.len()
        invariant
            i <= a@.len(),
            a@.len() == b@.len(),
            forall|k: int| 0 <= k < i ==> #[trigger] a@[k] == b@[k],
        decreases a@.len() - i,
    {
        if a[i] != b[i] {
            assert(a@[i as int] != b@[i as int]);
            return false;
        }
        i += 1;
    }
    assert(a@ =~= b@);
    true
}

fn same_children(a: &Vec<NodeId>, b: &Vec<NodeId>) -> (r: bool)
    ensures
        r == (a@ == b@),
{
    if a.len() != b.len() {
        return false;
    }
    let mut i: usize = 0;
    while i < a.len()
        invariant
            i <= a@.len(),
            a@.len() == b@.len(),
            forall|k: int| 0 <= k < i ==> #[trigger] a@[k] == b@[k],
        decreases a@.len() - i,
    {
        if a[i] != b[i] {
            assert(a@[i as int] != b@[i as int]);
            return false;
        }
        i += 1;
    }
    assert(a@ =~= b@);
    true
}

fn same_node(a: &Node, b: &Node) -> (r: bool)
    ensures
        r == (a@ == b@),
{
    match (a, b) {
        (Node::BoolConst(x), Node::BoolConst(y)) => *x == *y,
        (Node::BvConst { width: w, value: x }, Node::BvConst { width: v, value: y }) => {
            *w == *v && same_bits(x.bits(), y.bits())
        },
        (Node::BoolVar { id: x }, Node::BoolVar { id: y }) => *x == *y,
        (Node::BvVar { id: x, width: w }, Node::BvVar { id: y, width: v }) => *x == *y && *w == *v,
        (Node::Apply { op: o, children: x }, Node::Apply { op: p, children: y }) => {
            *o == *p && same_children(x, y)
        },
        _ => false,
    }
}

// ---------------------------------------------------------------------------
// The DAG
// ---------------------------------------------------------------------------

/// Interning DAG: structurally identical nodes share the same `NodeId`.
pub struct TermDag {
    nodes: Vec<Node>,
    /// For each digest the nodes that have it.
    index: HashMap<u64, Vec<u32>>,
}

impl TermDag {
    pub closed spec fn view(&self) -> Seq<NodeView> {
        node_views(self.nodes@)
    }

    /// A node is found under its digest.
    spec fn indexed(&self, i: int) -> bool {
        &&& self.index@.contains_key(digest(self@[i]))
        &&& self.index@[digest(self@[i])]@.contains(i as u32)
    }

    /// Nodes are distinct, and each is found under its digest.
    pub closed spec fn well_formed(&self) -> bool {
        &&& canonical(self@)
        &&& self.nodes@.len() <= u32::MAX + 1
        &&& forall|i: int| 0 <= i < self.nodes@.len() ==> #[trigger] self.indexed(i)
    }

    pub proof fn is_canonical(&self)
        requires
            self.well_formed(),
        ensures
            canonical(self@),
    {
    }

    pub fn new() -> (d: Self)
        ensures
            d.well_formed(),
            d@.len() == 0,
    {
        TermDag { nodes: Vec::new(), index: HashMap::new() }
    }

    pub fn len(&self) -> (n: usize)
        ensures
            n == self@.len(),
    {
        self.nodes.len()
    }

    pub fn is_empty(&self) -> (b: bool)
        ensures
            b == (self@.len() == 0),
    {
        self.nodes.len() == 0
    }

    pub fn get(&self, id: NodeId) -> (n: &Node)
        requires
            id.0 < self@.len(),
        ensures
            n@ == self@[id.0 as int],
    {
        &self.nodes[id.0 as usize]
    }

    pub fn nodes(&self) -> (n: &[Node])
        ensures
            node_views(n@) == self@,
    {
        self.nodes.as_slice()
    }

    /// Where a node is, if it occurs.
    fn find(&self, node: &Node, d: u64) -> (r: Option<NodeId>)
        requires
            self.well_formed(),
            d == digest(node@),
        ensures
            match r {
                Some(id) => has_node(self@, node@) && id == id_of(self@, node@),
                None => !has_node(self@, node@),
            },
    {
        match self.index.get(&d) {
            None => {
                proof {
                    if has_node(self@, node@) {
                        let i = choose|i: int| 0 <= i < self@.len() && #[trigger] self@[i] == node@;
                        assert(self.indexed(i));
                    }
                }
                None
            },
            Some(ids) => {
                let mut k: usize = 0;
                while k < ids.len()
                    invariant
                        k <= ids@.len(),
                        self.well_formed(),
                        d == digest(node@),
                        self.index@.contains_key(d),
                        self.index@[d] == *ids,
                        forall|j: int|
                            0 <= j < k && (#[trigger] ids@[j]) < self@.len()
                                ==> self@[ids@[j] as int] != node@,
                    decreases ids@.len() - k,
                {
                    let id: u32 = ids[k];
                    if (id as usize) < self.nodes.len() {
                        assert(self@[id as int] == self.nodes@[id as int]@);
                        if same_node(&self.nodes[id as usize], node) {
                            proof {
                                id_is(self@, id as int);
                            }
                            return Some(NodeId(id));
                        }
                    }
                    k += 1;
                }
                proof {
                    if has_node(self@, node@) {
                        let i = choose|i: int| 0 <= i < self@.len() && #[trigger] self@[i] == node@;
                        assert(self.indexed(i));
                        let j = choose|j: int| 0 <= j < ids@.len() && ids@[j] == i as u32;
                        assert(self@[ids@[j] as int] != node@);
                    }
                }
                None
            },
        }
    }

    /// Intern any node, returning its canonical id.
    pub fn intern(&mut self, node: Node) -> (id: NodeId)
        requires
            old(self).well_formed(),
            old(self)@.len() <= u32::MAX,
        ensures
            final(self).well_formed(),
            (final(self)@, id) == interned(old(self)@, node@),
    {
        let d: u64 = digest_of(&node);
        if let Some(id) = self.find(&node, d) {
            return id;
        }
        let ghost before = *self;
        let ghost v = node@;
        proof {
            interning_is_canonical(before@, v);
        }
        let n: u32 = self.nodes.len() as u32;
        self.nodes.push(node);
        assert(self@ =~= before@.push(v));
        let mut ids: Vec<u32> = match self.index.remove(&d) {
            Some(ids) => ids,
            None => Vec::new(),
        };
        let ghost ids0 = ids@;
        ids.push(n);
        let ghost ids1 = ids@;
        self.index.insert(d, ids);
        proof {
            assert forall|i: int| 0 <= i < self.nodes@.len() implies #[trigger] self.indexed(i) by {
                if i < n {
                    assert(before.indexed(i));
                    assert(self@[i] == before@[i]);
                    if digest(self@[i]) == d {
                        let k = choose|k: int| 0 <= k < ids0.len() && ids0[k] == i as u32;
                        assert(ids1[k] == i as u32);
                    }
                } else {
                    assert(ids1[ids0.len() as int] == n);
                }
            }
        }
        NodeId(n)
    }

    pub fn intern_bool_const(&mut self, v: bool) -> (id: NodeId)
        requires
            old(self).well_formed(),
            old(self)@.len() <= u32::MAX,
        ensures
            final(self).well_formed(),
            (final(self)@, id) == interned(old(self)@, NodeView::BoolConst(v)),
    {
        self.intern(Node::BoolConst(v))
    }

    pub fn intern_bv_const(&mut self, width: u32, value: Bv) -> (id: NodeId)
        requires
            old(self).well_formed(),
            old(self)@.len() <= u32::MAX,
            value@.len() == width,
        ensures
            final(self).well_formed(),
            (final(self)@, id) == interned(
                old(self)@,
                NodeView::BvConst { width, bits: value@ },
            ),
    {
        self.intern(Node::BvConst { width, value })
    }

    pub fn intern_bool_var(&mut self, id: u32) -> (n: NodeId)
        requires
            old(self).well_formed(),
            old(self)@.len() <= u32::MAX,
        ensures
            final(self).well_formed(),
            (final(self)@, n) == interned(old(self)@, NodeView::BoolVar { id }),
    {
        self.intern(Node::BoolVar { id })
    }

    pub fn intern_bv_var(&mut self, id: u32, width: u32) -> (n: NodeId)
        requires
            old(self).well_formed(),
            old(self)@.len() <= u32::MAX,
        ensures
            final(self).well_formed(),
            (final(self)@, n) == interned(old(self)@, NodeView::BvVar { id, width }),
    {
        self.intern(Node::BvVar { id, width })
    }

    pub fn intern_apply(&mut self, op: Op, children: Vec<NodeId>) -> (n: NodeId)
        requires
            old(self).well_formed(),
            old(self)@.len() <= u32::MAX,
        ensures
            final(self).well_formed(),
            (final(self)@, n) == interned(
                old(self)@,
                NodeView::Apply { op, children: children@ },
            ),
    {
        self.intern(Node::Apply { op, children })
    }

    /// Structural sharing test: interning the same node twice yields one id.
    pub fn assert_canonical(&self, a: NodeId, b: NodeId) -> (r: bool)
        requires
            self.well_formed(),
        ensures
            r == (a == b),
            a.0 < self@.len() && b.0 < self@.len() ==> r == (self@[a.0 as int] == self@[b.0 as int]),
    {
        a == b
    }
}

impl Default for TermDag {
    fn default() -> (d: Self)
        ensures
            d.well_formed(),
            d@.len() == 0,
    {
        TermDag::new()
    }
}

} // verus!
