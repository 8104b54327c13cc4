use vstd::prelude::*;

use crate::scheduler::coverage::CoverageError;
use crate::scheduler::tree::{NodeId, NodeStatus};

verus! {

/// Errors surfaced by the scheduler.
#[derive(Debug, Clone, PartialEq, Eq)]
pub enum SchedulerError {
    UnknownNode(NodeId),
    NotOpen(NodeId),
    NotLeaf(NodeId),
    AlreadyClosed(NodeId),
    /// The node is at the maximum split depth.
    MaxDepth(NodeId),
    /// Not a status that a node can be closed with.
    InvalidClose(NodeStatus),
    UnknownLease(u64),
    /// The lease is not held by the worker.
    LeaseNotOwned(u64, u32),
    /// No open work unit is available.
    NoWork,
    /// The problem is finished.
    Finished(String),
    Coverage(CoverageError),
}

} // verus!
