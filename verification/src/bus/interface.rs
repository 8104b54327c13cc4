use vstd::prelude::*;

use crate::akx::knowledge::Scope;
use crate::akx::reasoner::KnowledgeBatch;
use crate::akx::stats::BusMetrics;

verus! {

#[derive(Debug, PartialEq, Eq)]
pub enum BusError {
    /// The buffer is full; the producer must back off.
    BufferFull,
    /// The transport is disconnected.
    Disconnected,
    /// Schema version mismatch; the message was dropped.
    SchemaRejected,
    Internal(String),
}

/// Returned by a successful `publish`; allows the caller to track delivery.
#[derive(Clone, Copy, Debug, PartialEq, Eq, Structural)]
pub struct PublishHandle {
    /// Number of objects actually enqueued (after deduplication).
    pub enqueued: usize,
}

/// How many objects to drain from the bus in one poll call.
#[derive(Clone, Copy, Debug, PartialEq, Eq, Structural)]
pub struct PollBudget {
    pub max_items: usize,
}

impl Default for PollBudget {
    fn default() -> (b: Self)
        ensures
            b == (PollBudget { max_items: 256 }),
    {
        PollBudget { max_items: 256 }
    }
}

/// Transport-independent knowledge bus.
///
/// # Back-pressure
/// `publish` returns `Err(BusError::BufferFull)` when the scope-level buffer
/// is at capacity and the incoming item has lower utility than the lowest item
/// in the buffer. The caller should back off for one step before retrying.
///
/// # Deduplication
/// Objects are deduplicated by their canonical key before insertion. An
/// unconditional version of a conclusion evicts all conditional versions of
/// the same conclusion already in the buffer.
pub trait KnowledgeBus {
    /// The bus is in a state in which it can be used.
    spec fn ready(&self) -> bool;

    /// Publish a batch of knowledge objects at the given scope.
    fn publish(&mut self, scope: Scope, batch: KnowledgeBatch) -> (r: Result<
        PublishHandle,
        BusError,
    >)
        requires
            old(self).ready(),
        ensures
            final(self).ready(),
    ;

    /// Non-blocking poll; returns an empty batch if nothing is available.
    fn poll(&mut self, budget: PollBudget) -> (r: Result<KnowledgeBatch, BusError>)
        requires
            old(self).ready(),
        ensures
            final(self).ready(),
    ;

    /// Current operational metrics snapshot.
    fn metrics(&self) -> (m: BusMetrics)
        requires
            self.ready(),
    ;
}

} // verus!
