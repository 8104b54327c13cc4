use vstd::prelude::*;

use crate::akx::knowledge::{KnowledgeId, KnowledgeObject, ProofRef};
use crate::akx::policy::ExportPolicy;
use crate::akx::tagvec::TagVec;
use crate::akx::work::{PartialModel, WorkBudget, WorkUnit};
use std::sync::Arc;

verus! {

#[derive(Clone, Copy, PartialEq, Eq, Hash, Debug, Structural)]
pub struct ReasonerId(pub u32);

#[derive(Clone, Copy, PartialEq, Eq, Hash, Debug, Structural)]
pub struct WorkerId(pub u32);

#[derive(Clone, Copy, PartialEq, Eq, Hash, Debug, Structural)]
pub enum HardwareClass {
    Cpu,
    Gpu,
    /// Specialized co-processor or FPGA.
    Accelerator,
}

/// What a reasoner can produce and consume, and what guarantees it provides.
#[derive(Clone, Debug)]
pub struct Capabilities {
    /// Knowledge kinds this worker can emit.
    pub can_produce: TagVec,
    /// Knowledge kinds this worker can import and use.
    pub can_consume: TagVec,
    /// Worker runs a complete algorithm; its `UnsatLocal` events may close partitions.
    pub is_complete: bool,
    /// Worker emits checkable proof fragments alongside results.
    pub produces_proofs: bool,
    pub hardware: HardwareClass,
}

/// Returned by `Reasoner::step`; tells the scheduler what happened.
#[derive(Debug)]
pub enum ReasonerEvent {
    /// Worker made progress; call `export` to drain new knowledge.
    Progress,
    /// Worker found a satisfying assignment under its active assumptions.
    /// The model must be independently validated before SAT is declared.
    SatCandidate { model: Arc<PartialModel> },
    /// Worker proved UNSAT under its active assumptions.
    /// Only meaningful when `Capabilities::is_complete == true`.
    UnsatLocal { proof_ref: Option<ProofRef> },
    /// Budget exhausted with no conclusion; return and reschedule.
    BudgetExhausted,
    /// Worker needs a fresh WorkUnit to continue.
    NeedWork,
    /// Worker acknowledged cancellation and is stopping cleanly.
    Cancelled,
    /// Unrecoverable error; the scheduler must restart this worker.
    InternalError(ReasonerError),
}

/// Lightweight snapshot the orchestrator can persist for fault recovery.
///
/// A seed-deterministic worker only needs the work unit and seed.
/// Stateful workers may serialize an opaque internal blob.
#[derive(Clone, Debug)]
pub struct Checkpoint {
    pub worker_id: WorkerId,
    pub work_unit: WorkUnit,
    /// Opaque solver-internal state blob. `None` for seed-deterministic workers.
    pub internal_state: Option<Vec<u8>>,
    /// Highest `KnowledgeId` imported before this checkpoint.
    pub knowledge_watermark: KnowledgeId,
}

/// A batch of knowledge objects ready for import or export.
pub type KnowledgeBatch = Vec<KnowledgeObject>;

#[derive(Clone, Copy, Debug, PartialEq, Eq, Structural)]
pub struct ImportStats {
    pub received: u32,
    pub applied: u32,
    pub buffered: u32,
    pub discarded_no_overlap: u32,
    pub discarded_duplicate: u32,
}

impl Default for ImportStats {
    fn default() -> (s: Self)
        ensures
            s == (ImportStats {
                received: 0,
                applied: 0,
                buffered: 0,
                discarded_no_overlap: 0,
                discarded_duplicate: 0,
            }),
    {
        ImportStats {
            received: 0,
            applied: 0,
            buffered: 0,
            discarded_no_overlap: 0,
            discarded_duplicate: 0,
        }
    }
}

#[derive(Debug)]
pub enum ReasonerError {
    OutOfMemory(String),
    TheoryError(String),
    ProofError(String),
    Serialization(String),
    Cancelled,
}

/// Core interface every reasoning worker must implement.
///
/// # Import contract
/// Implementors MUST apply the import predicate before using any knowledge
/// object with a non-empty assumption set:
///   `IMPORT_OK(self, K)  ≡  self.ctx() ⊇ K.assumptions`
pub trait Reasoner: Send {
    /// The worker is in a state in which it can be used.
    spec fn ready(&self) -> bool;

    fn id(&self) -> ReasonerId;

    fn capabilities(&self) -> Capabilities;

    /// Import a batch of knowledge objects.
    ///
    /// The implementation is responsible for running the import predicate
    /// and updating `ImportStats` accordingly.
    fn import(&mut self, batch: KnowledgeBatch) -> (r: Result<ImportStats, ReasonerError>)
        requires
            old(self).ready(),
        ensures
            final(self).ready(),
    ;

    /// Run for at most `budget` units of work.
    fn step(&mut self, budget: WorkBudget) -> (r: Result<ReasonerEvent, ReasonerError>)
        requires
            old(self).ready(),
        ensures
            final(self).ready(),
    ;

    /// Take out knowledge for export. The scheduler maintains a per-worker
    /// `KnowledgeId` watermark externally; `policy` carries the watermark so
    /// this call returns only new items.
    fn export(&mut self, policy: &ExportPolicy) -> (r: Result<KnowledgeBatch, ReasonerError>)
        requires
            old(self).ready(),
        ensures
            final(self).ready(),
    ;

    /// Return a checkpoint for fault recovery, or `None` for stateless workers.
    fn checkpoint(&self) -> (r: Result<Option<Checkpoint>, ReasonerError>)
        requires
            self.ready(),
    ;
}

} // verus!
