//! The hot standby.

use vstd::prelude::*;

use crate::akx::literal::Literal;
use crate::akx::work::ProblemId;
use crate::orchestrator::primary::{Orchestrator, OrchestratorConfig, OrchestratorError, CLOCK_MAX};
use crate::orchestrator::wal::{copy_wal, WalEntry};
#[allow(unused_imports)]
use crate::orchestrator::primary;
#[allow(unused_imports)]
use crate::orchestrator::primary::OrchView;
#[allow(unused_imports)]
use crate::orchestrator::wal;
#[allow(unused_imports)]
use crate::orchestrator::wal::{EntryView, Fault, Shadow};
#[allow(unused_imports)]
use crate::scheduler::dispatch;

verus! {

/// A hot standby that mirrors the primary's log. On primary failure it
/// promotes to a live [`Orchestrator`].
pub struct Standby {
    problem: ProblemId,
    root_cube: Vec<Literal>,
    config: OrchestratorConfig,
    wal: Vec<WalEntry>,
}

/// What a standby holds.
#[verifier::ext_equal]
pub struct StandbyView {
    pub problem: ProblemId,
    pub cube: Seq<Literal>,
    pub config: OrchestratorConfig,
    pub wal: Seq<EntryView>,
}

/// What replaying a standby's log gives.
pub open spec fn mirrored(s: StandbyView) -> Result<Shadow, Fault> {
    wal::replay_all(
        wal::initial(s.problem, s.cube, s.config.max_split_depth),
        s.wal,
        s.wal.len() as int,
    )
}

/// A standby that has a primary's whole log, and was set up like it.
pub open spec fn mirrors(s: StandbyView, p: OrchView) -> bool {
    &&& s.problem == p.sched.problem
    &&& s.cube == p.sched.tree.nodes[0].cube
    &&& s.config == p.config
    &&& s.wal == p.wal
}

/// A standby that mirrors a primary whose log is in step promotes to an
/// orchestrator with the same tree, verdict, leases and workers.
pub proof fn promotion_matches_primary(s: StandbyView, p: OrchView, o: OrchView)
    requires
        primary::synced(p),
        mirrors(s, p),
        mirrored(s) == Ok::<Shadow, Fault>(primary::shadow(o)),
    ensures
        mirrored(s) is Ok,
        o.sched.tree == p.sched.tree,
        dispatch::verdict_of(o.sched.tree) == dispatch::verdict_of(p.sched.tree),
        o.sched.leases.leases.len() == p.sched.leases.leases.len(),
        o.workers.dom() == p.workers.dom(),
{
    primary::same_shadow_agrees(o, p);
}

/// The log of a primary in step can always be replayed.
pub proof fn promotion_succeeds(s: StandbyView, p: OrchView)
    requires
        primary::synced(p),
        mirrors(s, p),
    ensures
        mirrored(s) == Ok::<Shadow, Fault>(primary::shadow(p)),
{
}

impl Standby {
    pub closed spec fn view(&self) -> StandbyView {
        StandbyView {
            problem: self.problem,
            cube: self.root_cube@,
            config: self.config,
            wal: wal::entry_views(self.wal@),
        }
    }

    pub fn new(problem: ProblemId, root_cube: Vec<Literal>, config: OrchestratorConfig) -> (s: Self)
        ensures
            s@ == (StandbyView { problem, cube: root_cube@, config, wal: Seq::empty() }),
    {
        let s = Standby { problem, root_cube, config, wal: Vec::new() };
        assert(s@.wal =~= Seq::<EntryView>::empty());
        s
    }

    /// Append entries received from the primary.
    pub fn append(&mut self, entries: &[WalEntry])
        ensures
            final(self)@ == (StandbyView {
                wal: old(self)@.wal + wal::entry_views(entries@),
                ..old(self)@
            }),
    {
        let ghost before = self@;
        let mut more: Vec<WalEntry> = copy_wal(entries);
        let ghost added = wal::entry_views(more@);
        self.wal.append(&mut more);
        assert(self@.wal =~= before.wal + added);
    }

    pub fn wal_len(&self) -> (n: usize)
        ensures
            n == self@.wal.len(),
    {
        self.wal.len()
    }

    /// Become primary: replay the log into a fresh orchestrator. Fails if the
    /// log is inconsistent.
    pub fn promote(&self) -> (r: Result<Orchestrator, OrchestratorError>)
        requires
            self@.config.lease_ttl <= CLOCK_MAX,
        ensures
            match r {
                Ok(o) => {
                    &&& o.well_formed()
                    &&& mirrored(self@) == Ok::<Shadow, Fault>(primary::shadow(o@))
                    &&& o@.wal == self@.wal
                    &&& o@.config == self@.config
                },
                Err(e) => mirrored(self@) matches Err(f) && primary::reports(e, f),
            },
    {
        Orchestrator::replay(
            self.problem,
            vstd::slice::slice_to_vec(self.root_cube.as_slice()),
            self.config,
            self.wal.as_slice(),
        )
    }
}

} // verus!
