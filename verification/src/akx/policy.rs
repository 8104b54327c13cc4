use vstd::prelude::*;

use crate::akx::knowledge::{KnowledgeId, Scope, Utility};
use crate::akx::tagvec::TagVec;
#[allow(unused_imports)]
use crate::akx::knowledge::KnowledgeKindTag;

verus! {

/// Controls what a worker exports in a given call to `Reasoner::export`.
#[derive(Debug)]
pub struct ExportPolicy {
    /// Only export knowledge objects with ID > watermark.
    pub watermark: KnowledgeId,
    /// Maximum number of objects to return per call.
    pub max_items: usize,
    /// Only export objects with utility >= this threshold.
    pub min_utility: Utility,
    /// Maximum scope the caller is willing to accept in this batch.
    pub max_scope: Scope,
    /// If non-empty, restrict to these knowledge kinds.
    pub kind_filter: TagVec,
}

impl Clone for ExportPolicy {
    fn clone(&self) -> (p: Self)
        ensures
            p.watermark == self.watermark,
            p.max_items == self.max_items,
            p.min_utility == self.min_utility,
            p.max_scope == self.max_scope,
            p.kind_filter@ == self.kind_filter@,
    {
        ExportPolicy {
            watermark: self.watermark,
            max_items: self.max_items,
            min_utility: self.min_utility,
            max_scope: self.max_scope,
            kind_filter: self.kind_filter.clone(),
        }
    }
}

impl Default for ExportPolicy {
    fn default() -> (p: Self)
        ensures
            p.watermark == KnowledgeId(0),
            p.max_items == 256,
            p.min_utility == 0,
            p.max_scope == Scope::Global,
            p.kind_filter@ == Seq::<KnowledgeKindTag>::empty(),
    {
        ExportPolicy {
            watermark: KnowledgeId(0),
            max_items: 256,
            min_utility: 0,
            max_scope: Scope::Global,
            kind_filter: TagVec::from_slice(&[]),
        }
    }
}

/// Controls import behaviour for a worker.
#[derive(Clone, Copy, Debug)]
pub struct ImportPolicy {
    /// Maximum number of objects to integrate per import call.
    pub max_items: usize,
    /// Reject objects with utility below this threshold.
    pub min_utility: Utility,
    /// Maximum number of conditional objects buffered awaiting context match.
    pub buffer_capacity: usize,
}

impl Default for ImportPolicy {
    fn default() -> (p: Self)
        ensures
            p == (ImportPolicy { max_items: 512, min_utility: 0, buffer_capacity: 1024 }),
    {
        ImportPolicy { max_items: 512, min_utility: 0, buffer_capacity: 1024 }
    }
}

} // verus!
