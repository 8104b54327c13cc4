//! Partition tree with coverage certificates.
//!
//! The orchestrator maintains a tree of cube-based work units. A node is a
//! set of assumption literals (`cube`) restricting the search space. Nodes
//! are *open* (available to dispatch), *assigned* (leased to a worker), or
//! *closed* (SAT/UNSAT/cancelled). Splitting a node produces children whose
//! cubes are the parent's cube extended by one literal each; the split is
//! recorded with a [`CoverageCertificate`] proving that the children together
//! cover the parent's search region.
//!
//! - **SAT closure:** any leaf closed-SAT (with a validated model).
//! - **UNSAT closure:** every leaf closed-UNSAT (requires full coverage).

use vstd::prelude::*;

use crate::akx::literal::Literal;
use crate::scheduler::coverage::CoverageCertificate;
use crate::scheduler::error::SchedulerError;
#[allow(unused_imports)]
use crate::akx::logic;
#[allow(unused_imports)]
use crate::scheduler::coverage;

verus! {

/// Identifier for a node in the partition tree.
#[derive(Clone, Copy, PartialEq, Eq, Hash, Debug, PartialOrd, Ord, Structural)]
pub struct NodeId(pub u64);

/// Lifecycle state of a partition node.
#[derive(Clone, Copy, PartialEq, Eq, Debug, Structural)]
pub enum NodeStatus {
    /// Open: ready to be dispatched to a worker.
    Open,
    /// Leased to a worker; in flight.
    Assigned,
    /// A validated model was found under this cube.
    ClosedSat,
    /// A complete worker proved this cube unsatisfiable.
    ClosedUnsat,
    /// Abandoned (SAT found elsewhere, shutdown, lease lost).
    Cancelled,
}

/// Whether a status ends the life of a leaf.
pub open spec fn terminal(s: NodeStatus) -> bool {
    s is ClosedSat || s is ClosedUnsat || s is Cancelled
}

impl NodeStatus {
    pub fn is_leaf_terminal(self) -> (b: bool)
        ensures
            b == terminal(self),
    {
        match self {
            NodeStatus::ClosedSat | NodeStatus::ClosedUnsat | NodeStatus::Cancelled => true,
            NodeStatus::Open | NodeStatus::Assigned => false,
        }
    }
}

/// A node in the partition tree.
#[derive(Clone, Debug)]
pub struct PartitionNode {
    pub id: NodeId,
    pub parent: Option<NodeId>,
    /// Assumption literals defining this partition's search region.
    pub cube: Vec<Literal>,
    pub status: NodeStatus,
    /// Child node ids in split order.
    pub children: Vec<NodeId>,
    /// Certificate proving the children cover this node's region.
    pub coverage: Option<CoverageCertificate>,
}

/// The contents of a node.
#[verifier::ext_equal]
pub struct NodeView {
    pub id: NodeId,
    pub parent: Option<NodeId>,
    pub cube: Seq<Literal>,
    pub status: NodeStatus,
    pub children: Seq<NodeId>,
    pub coverage: Option<Seq<Literal>>,
}

impl View for PartitionNode {
    type V = NodeView;

    open spec fn view(&self) -> NodeView {
        NodeView {
            id: self.id,
            parent: self.parent,
            cube: self.cube@,
            status: self.status,
            children: self.children@,
            coverage: match self.coverage {
                Some(c) => Some(c.literals@),
                None => None,
            },
        }
    }
}

/// A fresh node.
pub open spec fn fresh_node(id: NodeId, parent: Option<NodeId>, cube: Seq<Literal>) -> NodeView {
    NodeView {
        id,
        parent,
        cube,
        status: NodeStatus::Open,
        children: Seq::empty(),
        coverage: None,
    }
}

impl PartitionNode {
    fn new(id: NodeId, parent: Option<NodeId>, cube: Vec<Literal>) -> (n: Self)
        ensures
            n@ == fresh_node(id, parent, cube@),
    {
        PartitionNode {
            id,
            parent,
            cube,
            status: NodeStatus::Open,
            children: Vec::new(),
            coverage: None,
        }
    }
}

/// The partition tree, owned by the orchestrator (primary, or standby replay).
/// Nodes are numbered in the order of their creation; the root is node 0.
#[derive(Debug)]
pub struct PartitionTree {
    nodes: Vec<PartitionNode>,
    /// Depth limit to bound the tree (configurable; `None` = unbounded).
    max_depth: Option<usize>,
}

/// The contents of a partition tree; node `i` stands at position `i`.
#[verifier::ext_equal]
pub struct TreeView {
    pub nodes: Seq<NodeView>,
    pub max_depth: Option<usize>,
}

/// Whether a node has no children.
pub open spec fn is_leaf(n: NodeView) -> bool {
    n.children.len() == 0
}

/// The root, or a node listed by an earlier node as one of its children.
pub open spec fn rooted(nodes: Seq<NodeView>, i: int) -> bool {
    match nodes[i].parent {
        None => i == 0,
        Some(p) => p.0 < i && nodes[p.0 as int].children.contains(NodeId(i as u64)),
    }
}

/// A split node has a covering set of literals, one for each child, and the
/// children's cubes are its own extended by them.
pub open spec fn split_ok(nodes: Seq<NodeView>, i: int) -> bool {
    match nodes[i].coverage {
        None => is_leaf(nodes[i]),
        Some(lits) => {
            &&& coverage::covers(lits)
            &&& nodes[i].children.len() == lits.len()
            &&& nodes[i].status == NodeStatus::Assigned
            &&& forall|k: int|
                0 <= k < lits.len() ==> {
                    let c = #[trigger] nodes[i].children[k];
                    &&& i < c.0 < nodes.len()
                    &&& nodes[c.0 as int].cube == nodes[i].cube.push(lits[k])
                    &&& nodes[c.0 as int].parent == Some(NodeId(i as u64))
                }
        },
    }
}

/// A node stands at its number, under its parent, and its split is covered.
pub open spec fn node_ok(nodes: Seq<NodeView>, i: int) -> bool {
    &&& nodes[i].id == NodeId(i as u64)
    &&& rooted(nodes, i)
    &&& split_ok(nodes, i)
}

/// The tree is in order: numbered from the root, and every split covered.
pub open spec fn tree_ok(t: TreeView) -> bool {
    &&& t.nodes.len() >= 1
    &&& forall|i: int| 0 <= i < t.nodes.len() ==> #[trigger] node_ok(t.nodes, i)
}

pub open spec fn known(t: TreeView, id: NodeId) -> bool {
    id.0 < t.nodes.len()
}

pub open spec fn node_at(t: TreeView, id: NodeId) -> NodeView {
    t.nodes[id.0 as int]
}

/// The tree with a node's status replaced.
pub open spec fn with_status(t: TreeView, id: NodeId, status: NodeStatus) -> TreeView {
    TreeView {
        nodes: t.nodes.update(id.0 as int, NodeView { status, ..t.nodes[id.0 as int] }),
        ..t
    }
}

/// The identifiers of the nodes that satisfy a condition, in order.
pub open spec fn ids_where(nodes: Seq<NodeView>, p: spec_fn(NodeView) -> bool) -> Seq<NodeId>
    decreases nodes.len(),
{
    if nodes.len() == 0 {
        Seq::empty()
    } else {
        let before = ids_where(nodes.drop_last(), p);
        if p(nodes.last()) {
            before.push(nodes.last().id)
        } else {
            before
        }
    }
}

pub open spec fn is_open(n: NodeView) -> bool {
    n.status == NodeStatus::Open
}

pub open spec fn is_active_leaf(n: NodeView) -> bool {
    is_leaf(n) && !terminal(n.status)
}

/// What stands in the way of splitting a node.
pub open spec fn split_error(
    t: TreeView,
    parent: NodeId,
    certificate: Seq<Literal>,
    lits: Seq<Literal>,
) -> Option<SchedulerError> {
    if !known(t, parent) {
        Some(SchedulerError::UnknownNode(parent))
    } else if !is_leaf(node_at(t, parent)) {
        Some(SchedulerError::NotLeaf(parent))
    } else if t.max_depth matches Some(d) && node_at(t, parent).cube.len() >= d {
        Some(SchedulerError::MaxDepth(parent))
    } else {
        match coverage::certified(certificate, lits) {
            Ok(_) => None,
            Err(e) => Some(SchedulerError::Coverage(e)),
        }
    }
}

/// The identifiers of the children of the next split.
pub open spec fn next_ids(t: TreeView, count: nat) -> Seq<NodeId> {
    Seq::new(count, |k: int| NodeId((t.nodes.len() + k) as u64))
}

/// The children of a split.
pub open spec fn children_of(t: TreeView, parent: NodeId, lits: Seq<Literal>) -> Seq<NodeView> {
    Seq::new(
        lits.len(),
        |k: int|
            fresh_node(
                NodeId((t.nodes.len() + k) as u64),
                Some(parent),
                node_at(t, parent).cube.push(lits[k]),
            ),
    )
}

/// The tree after a split.
pub open spec fn after_split(t: TreeView, parent: NodeId, lits: Seq<Literal>) -> TreeView {
    TreeView {
        nodes: t.nodes.update(
            parent.0 as int,
            NodeView {
                children: next_ids(t, lits.len()),
                coverage: Some(lits),
                status: NodeStatus::Assigned,
                ..node_at(t, parent)
            },
        ) + children_of(t, parent, lits),
        ..t
    }
}

/// Some leaf is closed-SAT.
pub open spec fn sat_closed(t: TreeView) -> bool {
    exists|i: int|
        0 <= i < t.nodes.len() && is_leaf(#[trigger] t.nodes[i]) && t.nodes[i].status
            == NodeStatus::ClosedSat
}

/// Every leaf is closed-UNSAT.
pub open spec fn unsat_closed(t: TreeView) -> bool {
    forall|i: int|
        0 <= i < t.nodes.len() && is_leaf(#[trigger] t.nodes[i]) ==> t.nodes[i].status
            == NodeStatus::ClosedUnsat
}

// ---------------------------------------------------------------------------
// Laws
// ---------------------------------------------------------------------------

/// The leaves cover the tree: a valuation in a node's region is in the region
/// of some leaf.
pub proof fn leaves_cover(t: TreeView, i: int, val: logic::Valuation) -> (leaf: int)
    requires
        tree_ok(t),
        0 <= i < t.nodes.len(),
        logic::all_hold(val, t.nodes[i].cube),
    ensures
        0 <= leaf < t.nodes.len(),
        is_leaf(t.nodes[leaf]),
        logic::all_hold(val, t.nodes[leaf].cube),
    decreases t.nodes.len() - i,
{
    let n = t.nodes[i];
    assert(node_ok(t.nodes, i));
    if is_leaf(n) {
        i
    } else {
        let lits = n.coverage->0;
        coverage::covering_is_tautology(lits, val);
        let k = choose|k: int| 0 <= k < lits.len() && logic::lit_holds(val, #[trigger] lits[k]);
        let c = n.children[k].0 as int;
        assert(t.nodes[c].cube == n.cube.push(lits[k]));
        assert forall|j: int| 0 <= j < t.nodes[c].cube.len() implies logic::lit_holds(
            val,
            #[trigger] t.nodes[c].cube[j],
        ) by {
            if j < n.cube.len() {
                assert(logic::lit_holds(val, n.cube[j]));
            }
        }
        leaves_cover(t, c, val)
    }
}

/// UNSAT closure is sound: if every leaf is closed-UNSAT, and the formula is
/// unsatisfiable under the cube of every leaf so closed, it is unsatisfiable
/// under the root's cube.
pub proof fn unsat_closure_is_sound(t: TreeView, f: Seq<Seq<Literal>>)
    requires
        tree_ok(t),
        unsat_closed(t),
        forall|i: int|
            0 <= i < t.nodes.len() && is_leaf(#[trigger] t.nodes[i]) && t.nodes[i].status
                == NodeStatus::ClosedUnsat ==> logic::unsatisfiable(f, t.nodes[i].cube),
    ensures
        logic::unsatisfiable(f, t.nodes[0].cube),
{
    assert forall|val: logic::Valuation| #[trigger] logic::formula_holds(val, f) implies
        !logic::all_hold(val, t.nodes[0].cube) by {
        if logic::all_hold(val, t.nodes[0].cube) {
            let leaf = leaves_cover(t, 0, val);
            assert(logic::unsatisfiable(f, t.nodes[leaf].cube));
        }
    }
}

/// The two closures exclude each other.
pub proof fn closures_exclude(t: TreeView)
    ensures
        !(sat_closed(t) && unsat_closed(t)),
{
}

/// Changing the status of a leaf keeps the tree in order.
pub proof fn status_keeps_order(t: TreeView, id: NodeId, status: NodeStatus)
    requires
        tree_ok(t),
        known(t, id),
        is_leaf(node_at(t, id)),
    ensures
        tree_ok(with_status(t, id, status)),
{
    let u = with_status(t, id, status);
    assert forall|i: int| 0 <= i < u.nodes.len() implies #[trigger] node_ok(u.nodes, i) by {
        assert(node_ok(t.nodes, i));
        assert(u.nodes[i].children == t.nodes[i].children);
    }
}

/// A certified split keeps the tree in order.
pub proof fn split_keeps_order(t: TreeView, parent: NodeId, lits: Seq<Literal>)
    requires
        tree_ok(t),
        known(t, parent),
        is_leaf(node_at(t, parent)),
        coverage::covers(lits),
        t.nodes.len() + lits.len() <= u64::MAX,
    ensures
        tree_ok(after_split(t, parent, lits)),
{
    let u = after_split(t, parent, lits);
    let p = parent.0 as int;
    let n = t.nodes.len();
    assert forall|i: int| 0 <= i < u.nodes.len() implies #[trigger] node_ok(u.nodes, i) by {
        if i < n {
            assert(node_ok(t.nodes, i));
            if i != p {
                assert(u.nodes[i] == t.nodes[i]);
                if let Some(q) = t.nodes[i].parent {
                    if q == parent {
                        assert(t.nodes[p].children.contains(NodeId(i as u64)));
                    }
                }
                if let Some(ls) = t.nodes[i].coverage {
                    assert forall|k: int| 0 <= k < ls.len() implies {
                        let c = #[trigger] u.nodes[i].children[k];
                        &&& i < c.0 < u.nodes.len()
                        &&& u.nodes[c.0 as int].cube == u.nodes[i].cube.push(ls[k])
                        &&& u.nodes[c.0 as int].parent == Some(NodeId(i as u64))
                    } by {
                        let c = t.nodes[i].children[k];
                        assert(i < c.0 < t.nodes.len());
                    }
                }
            } else {
                assert forall|k: int| 0 <= k < lits.len() implies {
                    let c = #[trigger] u.nodes[i].children[k];
                    &&& i < c.0 < u.nodes.len()
                    &&& u.nodes[c.0 as int].cube == u.nodes[i].cube.push(lits[k])
                    &&& u.nodes[c.0 as int].parent == Some(NodeId(i as u64))
                } by {
                    assert(u.nodes[n + k] == children_of(t, parent, lits)[k]);
                }
                if let Some(q) = t.nodes[i].parent {
                    assert(q != parent);
                }
            }
        } else {
            let k = i - n;
            assert(u.nodes[i] == children_of(t, parent, lits)[k]);
            assert(u.nodes[p].children[k] == NodeId(i as u64));
        }
    }
}

// ---------------------------------------------------------------------------
// Operations
// ---------------------------------------------------------------------------

/// The views of a sequence of nodes.
pub open spec fn node_views(nodes: Seq<PartitionNode>) -> Seq<NodeView> {
    nodes.map_values(|n: PartitionNode| n@)
}

proof fn ids_where_step(nodes: Seq<NodeView>, p: spec_fn(NodeView) -> bool, i: int)
    requires
        0 <= i < nodes.len(),
    ensures
        ids_where(nodes.take(i + 1), p) == (if p(nodes[i]) {
            ids_where(nodes.take(i), p).push(nodes[i].id)
        } else {
            ids_where(nodes.take(i), p)
        }),
{
    assert(nodes.take(i + 1).drop_last() =~= nodes.take(i));
    assert(nodes.take(i + 1).last() == nodes[i]);
}

impl PartitionTree {
    pub closed spec fn view(&self) -> TreeView {
        TreeView { nodes: node_views(self.nodes@), max_depth: self.max_depth }
    }

    pub open spec fn well_formed(&self) -> bool {
        tree_ok(self@)
    }

    /// The number of nodes fits a machine word.
    pub proof fn bounded(&self)
        ensures
            self@.nodes.len() <= usize::MAX,
    {
        assert(self.nodes@.len() == self.nodes.len());
    }

    /// Create a tree with a single open root node for the given cube
    /// (usually empty for the full problem).
    pub fn new(root_cube: Vec<Literal>, max_depth: Option<usize>) -> (t: Self)
        ensures
            t.well_formed(),
            t@ == (TreeView { nodes: seq![fresh_node(NodeId(0), None, root_cube@)], max_depth }),
    {
        let mut nodes: Vec<PartitionNode> = Vec::new();
        nodes.push(PartitionNode::new(NodeId(0), None, root_cube));
        let t = PartitionTree { nodes, max_depth };
        assert(t@.nodes =~= seq![fresh_node(NodeId(0), None, root_cube@)]);
        t
    }

    pub fn root(&self) -> (id: NodeId)
        ensures
            id == NodeId(0),
    {
        NodeId(0)
    }

    pub fn get(&self, id: NodeId) -> (n: Option<&PartitionNode>)
        ensures
            match n {
                Some(node) => known(self@, id) && node@ == node_at(self@, id),
                None => !known(self@, id),
            },
    {
        if id.0 < self.nodes.len() as u64 {
            Some(&self.nodes[id.0 as usize])
        } else {
            None
        }
    }

    /// A node for changing. What the caller makes of it is what the tree holds
    /// afterwards.
    pub fn get_mut(&mut self, id: NodeId) -> (n: Option<&mut PartitionNode>)
        ensures
            match n {
                Some(node) => {
                    &&& known(old(self)@, id)
                    &&& node@ == node_at(old(self)@, id)
                    &&& final(self)@.nodes == old(self)@.nodes.update(id.0 as int, final(node)@)
                    &&& final(self)@.max_depth == old(self)@.max_depth
                },
                None => !known(old(self)@, id) && final(self)@ == old(self)@,
            },
    {
        if id.0 < self.nodes.len() as u64 {
            let ghost before = self.nodes@;
            let node = &mut self.nodes[id.0 as usize];
            proof {
                assert(node_views(before.update(id.0 as int, *final(node))) =~= node_views(
                    before,
                ).update(id.0 as int, final(node)@));
            }
            Some(node)
        } else {
            None
        }
    }

    /// All nodes, in the order of their creation.
    pub fn nodes(&self) -> (nodes: &[PartitionNode])
        ensures
            node_views(nodes@) == self@.nodes,
    {
        self.nodes.as_slice()
    }

    pub fn node_count(&self) -> (n: usize)
        ensures
            n == self@.nodes.len(),
    {
        self.nodes.len()
    }

    pub fn len(&self) -> (n: usize)
        ensures
            n == self@.nodes.len(),
    {
        self.nodes.len()
    }

    pub fn is_empty(&self) -> (b: bool)
        ensures
            b == (self@.nodes.len() == 0),
    {
        self.nodes.len() == 0
    }

    /// All nodes currently `Open` (dispatchable), oldest-first by id.
    pub fn open_nodes(&self) -> (ids: Vec<NodeId>)
        ensures
            ids@ == ids_where(self@.nodes, |n: NodeView| is_open(n)),
    {
        let ghost p = |n: NodeView| is_open(n);
        let mut ids: Vec<NodeId> = Vec::new();
        let mut i: usize = 0;
        while i < self.nodes.len()
            invariant
                i <= self.nodes@.len(),
                p == (|n: NodeView| is_open(n)),
                ids@ == ids_where(self@.nodes.take(i as int), p),
            decreases self.nodes@.len() - i,
        {
            proof {
                ids_where_step(self@.nodes, p, i as int);
            }
            if self.nodes[i].status == NodeStatus::Open {
                ids.push(self.nodes[i].id);
            }
            i += 1;
        }
        assert(self@.nodes.take(i as int) =~= self@.nodes);
        ids
    }

    /// Leaf nodes that are not yet terminal (Open or Assigned).
    pub fn active_leaves(&self) -> (ids: Vec<NodeId>)
        ensures
            ids@ == ids_where(self@.nodes, |n: NodeView| is_active_leaf(n)),
    {
        let ghost p = |n: NodeView| is_active_leaf(n);
        let mut ids: Vec<NodeId> = Vec::new();
        let mut i: usize = 0;
        while i < self.nodes.len()
            invariant
                i <= self.nodes@.len(),
                p == (|n: NodeView| is_active_leaf(n)),
                ids@ == ids_where(self@.nodes.take(i as int), p),
            decreases self.nodes@.len() - i,
        {
            proof {
                ids_where_step(self@.nodes, p, i as int);
            }
            if self.nodes[i].children.len() == 0 && !self.nodes[i].status.is_leaf_terminal() {
                ids.push(self.nodes[i].id);
            }
            i += 1;
        }
        assert(self@.nodes.take(i as int) =~= self@.nodes);
        ids
    }

    /// Set the status of a known node.
    fn set_status(&mut self, id: NodeId, status: NodeStatus)
        requires
            known(old(self)@, id),
        ensures
            final(self)@ == with_status(old(self)@, id, status),
    {
        let ghost before = self.nodes@;
        assert(id.0 < self.nodes.len());
        let i: usize = id.0 as usize;
        self.nodes[i].status = status;
        proof {
            let now = NodeView { status, ..before[i as int]@ };
            assert(self.nodes@[i as int]@ == now);
            assert(self@.nodes =~= node_views(before).update(i as int, now));
        }
    }

    /// Mark a node `Open`, re-enabling it for dispatch. Only leaves can be
    /// reopened; interior nodes have children that remain the authoritative
    /// work units.
    pub fn reopen(&mut self, id: NodeId) -> (r: Result<(), SchedulerError>)
        requires
            old(self).well_formed(),
        ensures
            final(self).well_formed(),
            match r {
                Ok(_) => {
                    &&& known(old(self)@, id) && is_leaf(node_at(old(self)@, id))
                    &&& final(self)@ == with_status(old(self)@, id, NodeStatus::Open)
                },
                Err(e) => {
                    &&& final(self)@ == old(self)@
                    &&& e == (if !known(old(self)@, id) {
                        SchedulerError::UnknownNode(id)
                    } else {
                        SchedulerError::NotLeaf(id)
                    })
                    &&& known(old(self)@, id) ==> !is_leaf(node_at(old(self)@, id))
                },
            },
    {
        if id.0 >= self.nodes.len() as u64 {
            return Err(SchedulerError::UnknownNode(id));
        }
        if self.nodes[id.0 as usize].children.len() == 0 {
            proof {
                status_keeps_order(self@, id, NodeStatus::Open);
            }
            self.set_status(id, NodeStatus::Open);
            Ok(())
        } else {
            Err(SchedulerError::NotLeaf(id))
        }
    }

    /// Mark an open node assigned.
    pub fn assign(&mut self, id: NodeId) -> (r: Result<(), SchedulerError>)
        requires
            old(self).well_formed(),
        ensures
            final(self).well_formed(),
            match r {
                Ok(_) => {
                    &&& known(old(self)@, id) && is_open(node_at(old(self)@, id))
                    &&& final(self)@ == with_status(old(self)@, id, NodeStatus::Assigned)
                },
                Err(e) => {
                    &&& final(self)@ == old(self)@
                    &&& e == (if !known(old(self)@, id) {
                        SchedulerError::UnknownNode(id)
                    } else {
                        SchedulerError::NotOpen(id)
                    })
                    &&& known(old(self)@, id) ==> !is_open(node_at(old(self)@, id))
                },
            },
    {
        if id.0 >= self.nodes.len() as u64 {
            return Err(SchedulerError::UnknownNode(id));
        }
        if self.nodes[id.0 as usize].status != NodeStatus::Open {
            return Err(SchedulerError::NotOpen(id));
        }
        proof {
            assert(node_ok(self@.nodes, id.0 as int));
            status_keeps_order(self@, id, NodeStatus::Assigned);
        }
        self.set_status(id, NodeStatus::Assigned);
        Ok(())
    }

    /// Close a leaf as SAT/UNSAT/cancelled. Returns an error if the node is
    /// not a leaf or is already terminal.
    pub fn close(&mut self, id: NodeId, status: NodeStatus) -> (r: Result<(), SchedulerError>)
        requires
            old(self).well_formed(),
        ensures
            final(self).well_formed(),
            match r {
                Ok(_) => {
                    &&& terminal(status) && known(old(self)@, id)
                    &&& is_active_leaf(node_at(old(self)@, id))
                    &&& final(self)@ == with_status(old(self)@, id, status)
                },
                Err(e) => {
                    &&& final(self)@ == old(self)@
                    &&& e == (if !terminal(status) {
                        SchedulerError::InvalidClose(status)
                    } else if !known(old(self)@, id) {
                        SchedulerError::UnknownNode(id)
                    } else if !is_leaf(node_at(old(self)@, id)) {
                        SchedulerError::NotLeaf(id)
                    } else {
                        SchedulerError::AlreadyClosed(id)
                    })
                    &&& terminal(status) && known(old(self)@, id) ==> !is_active_leaf(
                        node_at(old(self)@, id),
                    )
                },
            },
    {
        if !status.is_leaf_terminal() {
            return Err(SchedulerError::InvalidClose(status));
        }
        if id.0 >= self.nodes.len() as u64 {
            return Err(SchedulerError::UnknownNode(id));
        }
        let i: usize = id.0 as usize;
        if self.nodes[i].children.len() != 0 {
            return Err(SchedulerError::NotLeaf(id));
        }
        if self.nodes[i].status.is_leaf_terminal() {
            return Err(SchedulerError::AlreadyClosed(id));
        }
        proof {
            status_keeps_order(self@, id, status);
        }
        self.set_status(id, status);
        Ok(())
    }

    /// Split `parent` into children whose cubes are `parent.cube ∪ {l_i}`.
    ///
    /// `certificate` must prove that `l_1 ∨ … ∨ l_k` covers all extensions of
    /// the parent's cube. The children are created `Open` and the parent
    /// becomes an interior node.
    pub fn split(
        &mut self,
        parent: NodeId,
        literals: Vec<Literal>,
        certificate: CoverageCertificate,
    ) -> (r: Result<Vec<NodeId>, SchedulerError>)
        requires
            old(self).well_formed(),
        ensures
            final(self).well_formed(),
            match r {
                Ok(ids) => {
                    &&& split_error(old(self)@, parent, certificate.literals@, literals@) is None
                    &&& ids@ == next_ids(old(self)@, literals@.len())
                    &&& final(self)@ == after_split(old(self)@, parent, literals@)
                },
                Err(e) => {
                    &&& split_error(old(self)@, parent, certificate.literals@, literals@) == Some(e)
                    &&& final(self)@ == old(self)@
                },
            },
    {
        if parent.0 >= self.nodes.len() as u64 {
            return Err(SchedulerError::UnknownNode(parent));
        }
        let p: usize = parent.0 as usize;
        if self.nodes[p].children.len() != 0 {
            return Err(SchedulerError::NotLeaf(parent));
        }
        if let Some(d) = self.max_depth {
            if self.nodes[p].cube.len() >= d {
                return Err(SchedulerError::MaxDepth(parent));
            }
        }
        // Verify the certificate against the parent region before recording.
        let checked = certificate.verify(self.nodes[p].cube.as_slice(), literals.as_slice());
        if let Err(e) = checked {
            return Err(SchedulerError::Coverage(e));
        }
        let ghost before = self@;
        let ghost nodes0 = self.nodes@;
        let ghost n = self.nodes@.len();
        let ghost kids = children_of(before, parent, literals@);
        let ghost ids0 = next_ids(before, literals@.len());
        let mut child_ids: Vec<NodeId> = Vec::new();
        let mut k: usize = 0;
        assert(node_views(self.nodes@) =~= before.nodes + kids.take(0));
        assert(child_ids@ =~= ids0.take(0));
        while k < literals.len()
            invariant
                k <= literals@.len(),
                p == parent.0,
                p < n,
                n == nodes0.len(),
                before.nodes == node_views(nodes0),
                kids == children_of(before, parent, literals@),
                ids0 == next_ids(before, literals@.len()),
                self.nodes@.len() == n + k,
                self.max_depth == before.max_depth,
                node_views(self.nodes@) == before.nodes + kids.take(k as int),
                self.nodes@[p as int] == nodes0[p as int],
                child_ids@ == ids0.take(k as int),
            decreases literals@.len() - k,
        {
            let mut cube: Vec<Literal> = vstd::slice::slice_to_vec(self.nodes[p].cube.as_slice());
            cube.push(literals[k]);
            let id = NodeId(self.nodes.len() as u64);
            let child = PartitionNode::new(id, Some(parent), cube);
            let ghost v = child@;
            let ghost prev = node_views(self.nodes@);
            assert(v == kids[k as int]);
            self.nodes.push(child);
            child_ids.push(id);
            proof {
                assert(node_views(self.nodes@) =~= prev.push(v));
                assert(kids.take(k + 1) =~= kids.take(k as int).push(v));
                assert(node_views(self.nodes@) =~= before.nodes + kids.take(k + 1));
                assert(ids0.take(k + 1) =~= ids0.take(k as int).push(id));
            }
            k += 1;
        }
        assert(kids.take(k as int) =~= kids);
        assert(ids0.take(k as int) =~= ids0);
        let ghost nodes1 = self.nodes@;
        assert(n + literals@.len() == self.nodes.len());
        let listed: Vec<NodeId> = copy_ids(&child_ids);
        self.nodes[p].children = listed;
        self.nodes[p].coverage = Some(certificate);
        // Once split, the parent is no longer a dispatchable unit.
        self.nodes[p].status = NodeStatus::Assigned;
        proof {
            let after = after_split(before, parent, literals@);
            let now = NodeView {
                children: ids0,
                coverage: Some(literals@),
                status: NodeStatus::Assigned,
                ..node_at(before, parent)
            };
            assert(nodes1[p as int] == nodes0[p as int]);
            assert(self.nodes@[p as int]@ == now);
            assert forall|i: int| 0 <= i < self@.nodes.len() implies #[trigger] self@.nodes[i]
                == after.nodes[i] by {
                if i != p {
                    assert(self.nodes@[i] == nodes1[i]);
                    assert(node_views(nodes1)[i] == nodes1[i]@);
                }
            }
            assert(self@.nodes =~= after.nodes);
            split_keeps_order(before, parent, literals@);
        }
        Ok(child_ids)
    }

    /// The cube of a node.
    pub fn cube(&self, id: NodeId) -> (c: Option<&[Literal]>)
        ensures
            match c {
                Some(lits) => known(self@, id) && lits@ == node_at(self@, id).cube,
                None => !known(self@, id),
            },
    {
        if id.0 < self.nodes.len() as u64 {
            Some(self.nodes[id.0 as usize].cube.as_slice())
        } else {
            None
        }
    }

    /// True if any leaf is closed-SAT.
    pub fn is_sat(&self) -> (b: bool)
        ensures
            b == sat_closed(self@),
    {
        let mut i: usize = 0;
        while i < self.nodes.len()
            invariant
                i <= self.nodes@.len(),
                forall|k: int|
                    0 <= k < i ==> !(is_leaf(#[trigger] self@.nodes[k]) && self@.nodes[k].status
                        == NodeStatus::ClosedSat),
            decreases self.nodes@.len() - i,
        {
            let n: &PartitionNode = &self.nodes[i];
            assert(self@.nodes[i as int] == n@);
            if n.children.len() == 0 && n.status == NodeStatus::ClosedSat {
                return true;
            }
            i += 1;
        }
        false
    }

    /// True if every leaf is closed-UNSAT (requires full, certificate-covered
    /// splits all the way down).
    pub fn is_unsat(&self) -> (b: bool)
        requires
            self.well_formed(),
        ensures
            b == unsat_closed(self@),
    {
        let mut i: usize = 0;
        while i < self.nodes.len()
            invariant
                i <= self.nodes@.len(),
                forall|k: int|
                    0 <= k < i && is_leaf(#[trigger] self@.nodes[k]) ==> self@.nodes[k].status
                        == NodeStatus::ClosedUnsat,
            decreases self.nodes@.len() - i,
        {
            let n: &PartitionNode = &self.nodes[i];
            assert(self@.nodes[i as int] == n@);
            if n.children.len() == 0 && n.status != NodeStatus::ClosedUnsat {
                return false;
            }
            i += 1;
        }
        true
    }
}

fn copy_ids(ids: &Vec<NodeId>) -> (r: Vec<NodeId>)
    ensures
        r@ == ids@,
{
    vstd::slice::slice_to_vec(ids.as_slice())
}

} // verus!
