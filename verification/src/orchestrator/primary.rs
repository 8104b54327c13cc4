//! The primary orchestrator.
//!
//! Times are nanoseconds since the orchestrator was made.

use vstd::prelude::*;

use crate::akx::literal::Literal;
use crate::akx::work::{ProblemId, WorkBudget};
use crate::clock;
use crate::orchestrator::wal::{copy_wal, WalEntry, WalOutcome};
use crate::scheduler::coverage::CoverageCertificate;
use crate::scheduler::dispatch::{NodeResult, Scheduler, Verdict};
use crate::scheduler::error::SchedulerError;
use crate::scheduler::lease::Lease;
use crate::scheduler::tree::NodeId;
use crate::text;
use std::collections::HashMap;
#[allow(unused_imports)]
use std::sync::atomic::AtomicBool;
#[allow(unused_imports)]
use std::sync::Arc;
use std::time::Instant;
#[allow(unused_imports)]
use crate::orchestrator::wal;
#[allow(unused_imports)]
use crate::orchestrator::wal::{EntryView, Fault, Shadow};
#[allow(unused_imports)]
use crate::scheduler::coverage;
#[allow(unused_imports)]
use crate::scheduler::dispatch;
#[allow(unused_imports)]
use crate::scheduler::dispatch::SchedView;
#[allow(unused_imports)]
use crate::scheduler::lease;
#[allow(unused_imports)]
use crate::scheduler::lease::{LeaseView, LeasesView};
#[allow(unused_imports)]
use crate::scheduler::tree;

verus! {

broadcast use vstd::std_specs::hash::group_hash_axioms;

/// The latest time that the orchestrator's clock shows, some centuries.
pub const CLOCK_MAX: u64 = 0x7FFF_FFFF_FFFF_FFFF;

/// What the clock shows after so many nanoseconds: it stops at its end.
pub open spec fn on_clock(nanos: u128) -> u64 {
    if nanos > CLOCK_MAX {
        CLOCK_MAX
    } else {
        nanos as u64
    }
}

/// Orchestrator configuration; the durations are in nanoseconds.
#[derive(Clone, Copy, Debug, PartialEq, Eq, Structural)]
pub struct OrchestratorConfig {
    /// Worker is declared dead if it is silent for longer than this.
    pub heartbeat_timeout: u64,
    /// How long a worker may hold a node between heartbeats without being
    /// reaped (a multiple of the heartbeat interval).
    pub lease_ttl: u64,
    /// Maximum cube-split depth (None = unbounded).
    pub max_split_depth: Option<usize>,
}

impl Default for OrchestratorConfig {
    fn default() -> (c: Self)
        ensures
            c == (OrchestratorConfig {
                heartbeat_timeout: 5_000_000_000,
                lease_ttl: 30_000_000_000,
                max_split_depth: None,
            }),
    {
        OrchestratorConfig {
            heartbeat_timeout: 5_000_000_000,
            lease_ttl: 30_000_000_000,
            max_split_depth: None,
        }
    }
}

/// A registered worker and its liveness state.
#[derive(Clone, Copy, Debug, PartialEq, Eq, Structural)]
pub struct WorkerRecord {
    pub worker_id: u32,
    pub last_heartbeat: u64,
    pub dead: bool,
}

impl WorkerRecord {
    pub fn is_alive(&self) -> (b: bool)
        ensures
            b == !self.dead,
    {
        !self.dead
    }
}

/// Errors from orchestrator operations.
#[derive(Debug, Clone, PartialEq, Eq)]
pub enum OrchestratorError {
    /// The worker is not registered.
    UnknownWorker(u32),
    /// The worker is dead.
    DeadWorker(u32),
    Scheduler(SchedulerError),
}

/// The primary orchestrator.
pub struct Orchestrator {
    scheduler: Scheduler,
    config: OrchestratorConfig,
    workers: HashMap<u32, WorkerRecord>,
    wal: Vec<WalEntry>,
    /// When the clock started.
    epoch: Instant,
}

/// The state of an orchestrator.
#[verifier::ext_equal]
pub struct OrchView {
    pub sched: SchedView,
    pub config: OrchestratorConfig,
    pub workers: Map<u32, WorkerRecord>,
    pub wal: Seq<EntryView>,
}

/// The state is in order.
pub open spec fn orch_ok(v: OrchView) -> bool {
    &&& dispatch::sched_ok(v.sched)
    &&& v.sched.ttl == v.config.lease_ttl
    &&& v.sched.tree.max_depth == v.config.max_split_depth
    &&& v.config.lease_ttl <= CLOCK_MAX
    &&& v.sched.leases.next_id <= v.wal.len()
}

/// What the log of an orchestrator has to reproduce.
pub open spec fn shadow(v: OrchView) -> Shadow {
    Shadow {
        sched: wal::timeless(v.sched),
        workers: v.workers.map_values(|r: WorkerRecord| r.dead),
    }
}

/// The state in which an orchestrator's log starts.
pub open spec fn origin(v: OrchView) -> Shadow {
    wal::initial(v.sched.problem, v.sched.tree.nodes[0].cube, v.config.max_split_depth)
}

/// Replaying the log gives the state, up to deadlines.
pub open spec fn synced(v: OrchView) -> bool {
    wal::replay_all(origin(v), v.wal, v.wal.len() as int) == Ok::<Shadow, Fault>(shadow(v))
}

/// Orchestrators with the same shadow agree on the tree, the verdict, the next
/// node to dispatch, the leases and the liveness of workers.
pub proof fn same_shadow_agrees(a: OrchView, b: OrchView)
    requires
        shadow(a) == shadow(b),
    ensures
        a.sched.tree == b.sched.tree,
        dispatch::verdict_of(a.sched.tree) == dispatch::verdict_of(b.sched.tree),
        dispatch::open_ids(a.sched.tree) == dispatch::open_ids(b.sched.tree),
        a.sched.leases.leases.len() == b.sched.leases.leases.len(),
        a.workers.dom() == b.workers.dom(),
        forall|w: u32|
            #[trigger] a.workers.contains_key(w) ==> a.workers[w].dead == b.workers[w].dead,
{
    let ta = wal::timeless_leases(a.sched.leases);
    let tb = wal::timeless_leases(b.sched.leases);
    assert(ta == tb);
    assert(ta.leases.len() == a.sched.leases.leases.len());
    let f = |r: WorkerRecord| r.dead;
    assert(a.workers.map_values(f).dom() =~= a.workers.dom());
    assert(b.workers.map_values(f).dom() =~= b.workers.dom());
    assert forall|w: u32| #[trigger] a.workers.contains_key(w) implies a.workers[w].dead
        == b.workers[w].dead by {
        assert(a.workers.map_values(f)[w] == a.workers[w].dead);
        assert(b.workers.map_values(f).contains_key(w));
        assert(b.workers.map_values(f)[w] == b.workers[w].dead);
    }
}

/// Appending an entry keeps the log in step if replaying it leads from the old
/// state to the new one.
proof fn synced_step(a: OrchView, b: OrchView, e: EntryView)
    requires
        synced(a),
        origin(b) == origin(a),
        b.wal == a.wal.push(e),
        wal::replayed(shadow(a), e) == Ok::<Shadow, Fault>(shadow(b)),
    ensures
        synced(b),
{
    wal::replay_push(origin(a), a.wal, e);
}

/// The leases of a worker after a heartbeat.
pub open spec fn refreshed(s: SchedView, worker: u32, expires_at: u64) -> SchedView {
    SchedView {
        leases: LeasesView {
            leases: s.leases.leases.map_values(
                |l: LeaseView|
                    if l.worker_id == worker {
                        LeaseView { expires_at, ..l }
                    } else {
                        l
                    },
            ),
            ..s.leases
        },
        ..s
    }
}

/// A worker has been silent for too long.
pub open spec fn stale(r: WorkerRecord, now: u64, timeout: u64) -> bool {
    !r.dead && now - r.last_heartbeat > timeout
}

/// The state after a worker was declared dead.
pub open spec fn buried(v: OrchView, worker: u32) -> OrchView {
    let ids = dispatch::worker_leases(v.sched, worker);
    OrchView {
        sched: dispatch::reaped(v.sched, ids, ids.len() as int),
        workers: v.workers.insert(worker, WorkerRecord { dead: true, ..v.workers[worker] }),
        wal: v.wal.push(EntryView::WorkerDead { worker }),
        ..v
    }
}

/// The state after the first `n` of some workers were declared dead.
pub open spec fn all_buried(v: OrchView, workers: Seq<u32>, n: int) -> OrchView
    decreases n,
{
    if n <= 0 {
        v
    } else {
        buried(all_buried(v, workers, n - 1), workers[n - 1])
    }
}

/// The outcome that a result is recorded as.
pub open spec fn outcome_of(r: NodeResult) -> Option<WalOutcome> {
    match r {
        NodeResult::Sat => Some(WalOutcome::Sat),
        NodeResult::Unsat => Some(WalOutcome::Unsat),
        NodeResult::Cancelled => Some(WalOutcome::Cancelled),
        NodeResult::Split(_) => None,
    }
}

/// What is said when a replayed dispatch picks another node.
pub open spec fn wrong_node_text(node: NodeId) -> Seq<char> {
    "WAL replay dispatched NodeId("@ + text::decimal(node.0 as nat)
        + "), scheduler picked NodeId("@ + text::decimal(node.0 as nat) + ")"@
}

/// The error that a fault in a log is reported as.
pub open spec fn reports(e: OrchestratorError, f: Fault) -> bool {
    match f {
        Fault::NoLease(node) => e == OrchestratorError::Scheduler(
            SchedulerError::UnknownNode(node),
        ),
        Fault::Finished(v) => e matches OrchestratorError::Scheduler(
            SchedulerError::Finished(t),
        ) && t@ == dispatch::verdict_text(v),
        Fault::NoWork => e == OrchestratorError::Scheduler(SchedulerError::NoWork),
        Fault::WrongNode(node) => e matches OrchestratorError::Scheduler(
            SchedulerError::Finished(t),
        ) && t@ == wrong_node_text(node),
        Fault::BadCertificate => e matches OrchestratorError::Scheduler(
            SchedulerError::Finished(t),
        ) && t@ == "WAL split certificate invalid"@,
        Fault::SplitRefused(s) => e == OrchestratorError::Scheduler(s),
        Fault::OtherChildren => e matches OrchestratorError::Scheduler(
            SchedulerError::Finished(t),
        ) && t@ == "WAL split produced different children"@,
    }
}

impl Orchestrator {
    pub closed spec fn view(&self) -> OrchView {
        OrchView {
            sched: self.scheduler@,
            config: self.config,
            workers: self.workers@,
            wal: wal::entry_views(self.wal@),
        }
    }

    pub open spec fn well_formed(&self) -> bool {
        orch_ok(self@)
    }

    /// The shutdown token of the work unit of a lease that is out.
    pub closed spec fn unit_token(&self, lease_id: u64) -> Arc<AtomicBool> {
        self.scheduler.unit_token(lease_id)
    }

    /// The moment at which the orchestrator's clock shows zero.
    pub closed spec fn started(&self) -> Instant {
        self.epoch
    }

    pub fn new(problem: ProblemId, root_cube: Vec<Literal>, config: OrchestratorConfig) -> (o: Self)
        requires
            config.lease_ttl <= CLOCK_MAX,
        ensures
            o.well_formed(),
            synced(o@),
            shadow(o@) == wal::initial(problem, root_cube@, config.max_split_depth),
            o@.config == config,
            o@.workers == Map::<u32, WorkerRecord>::empty(),
            o@.wal.len() == 0,
            o@.sched.ttl == config.lease_ttl,
            o@.sched.problem == problem,
            o@.sched.leases.leases.len() == 0,
    {
        let scheduler = Scheduler::new(problem, root_cube, config.max_split_depth).with_lease_ttl(
            config.lease_ttl,
        );
        let o = Orchestrator {
            scheduler,
            config,
            workers: HashMap::new(),
            wal: Vec::new(),
            epoch: clock::now(),
        };
        proof {
            let start = wal::initial(problem, root_cube@, config.max_split_depth);
            assert(shadow(o@).sched.leases.leases =~= Seq::<LeaseView>::empty());
            assert(shadow(o@).sched =~= start.sched);
            assert(shadow(o@).workers =~= start.workers);
        }
        o
    }

    /// The current time on the orchestrator's clock: the nanoseconds from its
    /// start to the present moment, or the end of the clock if that is past it.
    pub fn reading(&self) -> (t: u64)
        ensures
            exists|moment: Instant|
                t == on_clock(#[trigger] clock::nanos_from(self.started(), moment)),
            t <= CLOCK_MAX,
    {
        let moment: Instant = clock::now();
        let n: u128 = clock::nanos_between(&self.epoch, &moment);
        assert(n == clock::nanos_from(self.started(), moment));
        if n > CLOCK_MAX as u128 {
            CLOCK_MAX
        } else {
            n as u64
        }
    }

    fn log(&mut self, entry: WalEntry)
        ensures
            final(self)@ == (OrchView { wal: old(self)@.wal.push(entry@), ..old(self)@ }),
            final(self).scheduler == old(self).scheduler,
    {
        let ghost before = self@;
        let ghost v = entry@;
        self.wal.push(entry);
        assert(self@.wal =~= before.wal.push(v));
    }

    /// Register a worker.
    pub fn admit_worker(&mut self, worker: u32)
        requires
            old(self).well_formed(),
        ensures
            final(self).well_formed(),
            synced(old(self)@) ==> synced(final(self)@),
            exists|now: u64| final(self)@ == #[trigger] admitted(old(self)@, worker, now),
    {
        let now: u64 = self.reading();
        self.admit_worker_at(worker, now);
    }

    /// As [`Orchestrator::admit_worker`], at a given time.
    pub fn admit_worker_at(&mut self, worker: u32, now: u64)
        requires
            old(self).well_formed(),
        ensures
            final(self).well_formed(),
            synced(old(self)@) ==> synced(final(self)@),
            final(self)@ == admitted(old(self)@, worker, now),
    {
        let ghost before = self@;
        self.log(WalEntry::WorkerAdmitted { worker });
        self.workers.insert(
            worker,
            WorkerRecord { worker_id: worker, last_heartbeat: now, dead: false },
        );
        proof {
            if synced(before) {
                let e = EntryView::WorkerAdmitted { worker };
                assert(shadow(self@).workers =~= shadow(before).workers.insert(worker, false));
                synced_step(before, self@, e);
            }
        }
    }

    /// Record a heartbeat from `worker`. Unknown or dead workers are ignored
    /// (the entry is still logged so the standby sees the same sequence).
    pub fn heartbeat(&mut self, worker: u32)
        requires
            old(self).well_formed(),
        ensures
            final(self).well_formed(),
            synced(old(self)@) ==> synced(final(self)@),
            exists|now: u64|
                now <= CLOCK_MAX && final(self)@ == #[trigger] heard(old(self)@, worker, now),
    {
        let now: u64 = self.reading();
        self.heartbeat_at(worker, now);
    }

    /// As [`Orchestrator::heartbeat`], at a given time.
    pub fn heartbeat_at(&mut self, worker: u32, now: u64)
        requires
            old(self).well_formed(),
            now <= CLOCK_MAX,
        ensures
            final(self).well_formed(),
            synced(old(self)@) ==> synced(final(self)@),
            final(self)@ == heard(old(self)@, worker, now),
    {
        let ghost before = self@;
        self.log(WalEntry::Heartbeat { worker });
        let known: Option<WorkerRecord> = match self.workers.get(&worker) {
            Some(r) => Some(*r),
            None => None,
        };
        if let Some(r) = known {
            if !r.dead {
                self.workers.insert(
                    worker,
                    WorkerRecord { worker_id: r.worker_id, last_heartbeat: now, dead: false },
                );
                self.refresh(worker, now);
            }
        }
        proof {
            if synced(before) {
                assert(shadow(self@).workers =~= shadow(before).workers);
                assert(shadow(self@).sched.leases.leases =~= shadow(before).sched.leases.leases);
                synced_step(before, self@, EntryView::Heartbeat { worker });
            }
        }
    }

    /// Renew every lease of a worker.
    fn refresh(&mut self, worker: u32, now: u64)
        requires
            dispatch::sched_ok(old(self)@.sched),
            now + old(self)@.sched.ttl <= u64::MAX,
        ensures
            dispatch::sched_ok(final(self)@.sched),
            final(self)@ == (OrchView {
                sched: refreshed(
                    old(self)@.sched,
                    worker,
                    (now + old(self)@.sched.ttl) as u64,
                ),
                ..old(self)@
            }),
    {
        let ghost before = self@;
        let ghost s0 = before.sched;
        let ghost e = (now + s0.ttl) as u64;
        let ids: Vec<u64> = self.scheduler.leases().leases_for_worker(worker);
        let ghost p = |l: LeaseView| l.worker_id == worker;
        proof {
            lease::lease_ids_facts(s0.leases, p);
        }
        let mut k: usize = 0;
        while k < ids.len()
            invariant
                k <= ids@.len(),
                p == (|l: LeaseView| l.worker_id == worker),
                s0 == before.sched,
                dispatch::sched_ok(s0),
                e == now + s0.ttl,
                now + s0.ttl <= u64::MAX,
                ids@ == lease::lease_ids(s0.leases.leases, p),
                forall|a: int|
                    0 <= a < ids@.len() ==> lease::held(s0.leases, #[trigger] ids@[a]) && p(
                        lease::lease_at(s0.leases, ids@[a]),
                    ),
                self@ == (OrchView { sched: self@.sched, ..before }),
                dispatch::sched_ok(self@.sched),
                self@.sched == (SchedView { leases: self@.sched.leases, ..s0 }),
                self@.sched.leases.next_id == s0.leases.next_id,
                self@.sched.leases.leases.len() == s0.leases.leases.len(),
                forall|i: int|
                    0 <= i < s0.leases.leases.len() ==> #[trigger] self@.sched.leases.leases[i]
                        == touched(s0.leases.leases[i], ids@.take(k as int), e),
            decreases ids@.len() - k,
        {
            let id: u64 = ids[k];
            let ghost here = self@.sched;
            proof {
                // The lease is still there, at the same place and of the same worker.
                assert(lease::held(s0.leases, ids@[k as int]));
                let j = lease::place_of(s0.leases, id);
                assert(here.leases.leases[j].lease_id == id);
                lease::lease_at_is(here.leases, j);
                assert(lease::owned(here.leases, id, worker));
            }
            let r = self.scheduler.renew_lease(id, worker, now);
            assert(r is Ok);
            proof {
                let now_taken = ids@.take(k + 1);
                assert(now_taken =~= ids@.take(k as int).push(id));
                assert forall|i: int| 0 <= i < s0.leases.leases.len() implies
                    #[trigger] self@.sched.leases.leases[i] == touched(
                    s0.leases.leases[i],
                    now_taken,
                    e,
                ) by {
                    assert(here.leases.leases[i] == touched(
                        s0.leases.leases[i],
                        ids@.take(k as int),
                        e,
                    ));
                    let x = s0.leases.leases[i].lease_id;
                    assert(now_taken.contains(x) <==> ids@.take(k as int).contains(x) || x == id)
                        by {
                        if now_taken.contains(x) && x != id {
                            let q = choose|q: int| 0 <= q < now_taken.len() && now_taken[q] == x;
                            assert(ids@.take(k as int)[q] == x);
                        }
                        if ids@.take(k as int).contains(x) {
                            let q = choose|q: int| 0 <= q < k && ids@.take(k as int)[q] == x;
                            assert(now_taken[q] == x);
                        }
                        assert(now_taken[k as int] == id);
                    }
                }
            }
            k += 1;
        }
        proof {
            assert(ids@.take(ids@.len() as int) =~= ids@);
            let want = refreshed(s0, worker, e);
            assert forall|i: int| 0 <= i < s0.leases.leases.len() implies
                #[trigger] self@.sched.leases.leases[i] == want.leases.leases[i] by {
                let l = s0.leases.leases[i];
                if ids@.contains(l.lease_id) {
                    let a = choose|a: int| 0 <= a < ids@.len() && ids@[a] == l.lease_id;
                    assert(p(lease::lease_at(s0.leases, ids@[a])));
                    lease::lease_at_is(s0.leases, i);
                }
                assert(p(l) ==> ids@.contains(l.lease_id));
            }
            assert(self@.sched.leases.leases =~= want.leases.leases);
        }
    }
}

/// A lease whose deadline is moved if it is among given ones.
spec fn touched(l: LeaseView, ids: Seq<u64>, expires_at: u64) -> LeaseView {
    if ids.contains(l.lease_id) {
        LeaseView { expires_at, ..l }
    } else {
        l
    }
}

/// The state after a worker was admitted.
pub open spec fn admitted(v: OrchView, worker: u32, now: u64) -> OrchView {
    OrchView {
        workers: v.workers.insert(
            worker,
            WorkerRecord { worker_id: worker, last_heartbeat: now, dead: false },
        ),
        wal: v.wal.push(EntryView::WorkerAdmitted { worker }),
        ..v
    }
}

/// The state after a heartbeat.
pub open spec fn heard(v: OrchView, worker: u32, now: u64) -> OrchView {
    let logged = OrchView { wal: v.wal.push(EntryView::Heartbeat { worker }), ..v };
    if v.workers.contains_key(worker) && !v.workers[worker].dead {
        OrchView {
            workers: v.workers.insert(
                worker,
                WorkerRecord { last_heartbeat: now, ..v.workers[worker] },
            ),
            sched: refreshed(v.sched, worker, (now + v.sched.ttl) as u64),
            ..logged
        }
    } else {
        logged
    }
}

/// Declaring a worker dead keeps the state in order and the log in step.
pub(crate) proof fn buried_keeps_order(v: OrchView, worker: u32)
    requires
        orch_ok(v),
        v.workers.contains_key(worker),
    ensures
        orch_ok(buried(v, worker)),
        synced(v) ==> synced(buried(v, worker)),
{
    let ids = dispatch::worker_leases(v.sched, worker);
    lease::lease_ids_facts(v.sched.leases, |l: LeaseView| l.worker_id == worker);
    dispatch::reaped_keeps_order(v.sched, ids, ids.len() as int);
    let b = buried(v, worker);
    if synced(v) {
        wal::timeless_worker_leases(v.sched, worker);
        wal::timeless_reaped(v.sched, ids, ids.len() as int);
        assert(shadow(b).workers =~= shadow(v).workers.insert(worker, true));
        synced_step(v, b, EntryView::WorkerDead { worker });
    }
}

/// Declaring workers dead one by one touches only their own records.
pub(crate) proof fn buried_workers(v: OrchView, dead: Seq<u32>, n: int)
    requires
        0 <= n <= dead.len(),
        forall|k: int| 0 <= k < dead.len() ==> v.workers.contains_key(#[trigger] dead[k]),
    ensures
        all_buried(v, dead, n).workers.dom() == v.workers.dom(),
        all_buried(v, dead, n).wal == v.wal + Seq::new(
            n as nat,
            |k: int| EntryView::WorkerDead { worker: dead[k] },
        ),
        all_buried(v, dead, n).config == v.config,
        forall|w: u32|
            #[trigger] v.workers.contains_key(w) ==> all_buried(v, dead, n).workers[w]
                == (if dead.take(n).contains(w) {
                WorkerRecord { dead: true, ..v.workers[w] }
            } else {
                v.workers[w]
            }),
    decreases n,
{
    if n > 0 {
        buried_workers(v, dead, n - 1);
        let before = all_buried(v, dead, n - 1);
        let after = all_buried(v, dead, n);
        let d = dead[n - 1];
        assert(after == buried(before, d));
        assert(v.workers.contains_key(d));
        assert(after.workers.dom() =~= v.workers.dom());
        assert(after.wal =~= v.wal + Seq::new(
            n as nat,
            |k: int| EntryView::WorkerDead { worker: dead[k] },
        ));
        assert(dead.take(n) =~= dead.take(n - 1).push(d));
        assert forall|w: u32| #[trigger] v.workers.contains_key(w) implies after.workers[w] == (
        if dead.take(n).contains(w) {
            WorkerRecord { dead: true, ..v.workers[w] }
        } else {
            v.workers[w]
        }) by {
            let t = dead.take(n - 1);
            assert(before.workers[w] == (if t.contains(w) {
                WorkerRecord { dead: true, ..v.workers[w] }
            } else {
                v.workers[w]
            }));
            assert(dead.take(n).contains(w) <==> t.contains(w) || w == d) by {
                if t.contains(w) {
                    let q = choose|q: int| 0 <= q < t.len() && t[q] == w;
                    assert(dead.take(n)[q] == w);
                }
                assert(dead.take(n)[n - 1] == d);
                if dead.take(n).contains(w) && w != d {
                    let all = dead.take(n);
                    let q = choose|q: int| 0 <= q < all.len() && all[q] == w;
                    assert(t[q] == w);
                }
            }
        }
    } else {
        assert(dead.take(0) =~= Seq::<u32>::empty());
        assert(all_buried(v, dead, n).wal =~= v.wal + Seq::new(
            0,
            |k: int| EntryView::WorkerDead { worker: dead[k] },
        ));
    }
}

/// The workers that a check of heartbeats declares dead: exactly the stale
/// ones, each once.
pub open spec fn stale_workers(v: OrchView, now: u64, dead: Seq<u32>) -> bool {
    &&& dead.no_duplicates()
    &&& forall|w: u32| #[trigger]
        dead.contains(w) <==> v.workers.contains_key(w) && stale(
            v.workers[w],
            now,
            v.config.heartbeat_timeout,
        )
}

/// After a check of heartbeats no registered worker is both alive and stale.
pub proof fn no_stale_worker_left(v: OrchView, now: u64, dead: Seq<u32>, w: u32)
    requires
        stale_workers(v, now, dead),
        v.workers.contains_key(w),
    ensures
        !stale(
            all_buried(v, dead, dead.len() as int).workers[w],
            now,
            v.config.heartbeat_timeout,
        ),
{
    assert forall|k: int| 0 <= k < dead.len() implies v.workers.contains_key(
        #[trigger] dead[k],
    ) by {
        assert(dead.contains(dead[k]));
    }
    buried_workers(v, dead, dead.len() as int);
    assert(dead.take(dead.len() as int) =~= dead);
    assert(dead.contains(w) <==> stale(v.workers[w], now, v.config.heartbeat_timeout));
}

impl Orchestrator {
    /// Check every worker's heartbeat; declare stale workers dead and reap
    /// their leases. Returns the ids declared dead this round.
    pub fn reap_stale(&mut self) -> (dead: Vec<u32>)
        requires
            old(self).well_formed(),
        ensures
            final(self).well_formed(),
            synced(old(self)@) ==> synced(final(self)@),
            exists|now: u64| #[trigger] stale_workers(old(self)@, now, dead@),
            final(self)@ == all_buried(old(self)@, dead@, dead@.len() as int),
    {
        let now: u64 = self.reading();
        self.reap_stale_at(now)
    }

    /// As [`Orchestrator::reap_stale`], at a given time. The order of the ids
    /// is that in which the registry is walked.
    pub fn reap_stale_at(&mut self, now: u64) -> (dead: Vec<u32>)
        requires
            old(self).well_formed(),
        ensures
            final(self).well_formed(),
            synced(old(self)@) ==> synced(final(self)@),
            stale_workers(old(self)@, now, dead@),
            final(self)@ == all_buried(old(self)@, dead@, dead@.len() as int),
    {
        let ghost before = self@;
        let dead: Vec<u32> = self.find_stale(now);
        proof {
            assert forall|k: int| 0 <= k < dead@.len() implies before.workers.contains_key(
                #[trigger] dead@[k],
            ) by {
                assert(dead@.contains(dead@[k]));
            }
        }
        let mut i: usize = 0;
        while i < dead.len()
            invariant
                i <= dead@.len(),
                before == old(self)@,
                forall|k: int|
                    0 <= k < dead@.len() ==> before.workers.contains_key(#[trigger] dead@[k]),
                self.well_formed(),
                synced(before) ==> synced(self@),
                self@ == all_buried(before, dead@, i as int),
            decreases dead@.len() - i,
        {
            let id: u32 = dead[i];
            let ghost here = self@;
            proof {
                buried_workers(before, dead@, i as int);
                assert(before.workers.contains_key(dead@[i as int]));
                assert(here.workers.contains_key(id));
                buried_keeps_order(here, id);
            }
            self.log(WalEntry::WorkerDead { worker: id });
            self.bury(id);
            assert(self@ == buried(here, id));
            i += 1;
        }
        dead
    }

    /// Mark a worker dead, if it is known, and reap its leases.
    fn bury(&mut self, worker: u32)
        requires
            dispatch::sched_ok(old(self)@.sched),
        ensures
            dispatch::sched_ok(final(self)@.sched),
            final(self)@ == ({
                let ids = dispatch::worker_leases(old(self)@.sched, worker);
                OrchView {
                    sched: dispatch::reaped(old(self)@.sched, ids, ids.len() as int),
                    workers: if old(self)@.workers.contains_key(worker) {
                        old(self)@.workers.insert(
                            worker,
                            WorkerRecord { dead: true, ..old(self)@.workers[worker] },
                        )
                    } else {
                        old(self)@.workers
                    },
                    ..old(self)@
                }
            }),
    {
        let known: Option<WorkerRecord> = match self.workers.get(&worker) {
            Some(r) => Some(*r),
            None => None,
        };
        if let Some(r) = known {
            self.workers.insert(
                worker,
                WorkerRecord {
                    worker_id: r.worker_id,
                    last_heartbeat: r.last_heartbeat,
                    dead: true,
                },
            );
        }
        self.scheduler.reap_worker(worker);
    }

    /// The workers that have been silent for too long.
    fn find_stale(&self, now: u64) -> (dead: Vec<u32>)
        ensures
            stale_workers(self@, now, dead@),
    {
        let timeout: u64 = self.config.heartbeat_timeout;
        let mut dead: Vec<u32> = Vec::new();
        for entry in it: self.workers.iter()
            invariant
                it.seq().no_duplicates(),
                forall|i: int|
                    0 <= i < it.seq().len() ==> self.workers@.contains_key(
                        *(#[trigger] it.seq()[i]).0,
                    ) && self.workers@[*it.seq()[i].0] == *it.seq()[i].1,
                forall|k: u32| #[trigger]
                    self.workers@.contains_key(k) ==> it.seq().contains((&k, &self.workers@[k])),
                timeout == self.config.heartbeat_timeout,
                dead@.no_duplicates(),
                forall|w: u32| #[trigger]
                    dead@.contains(w) <==> exists|i: int|
                        0 <= i < it.index() && *(#[trigger] it.seq()[i]).0 == w && stale(
                            *it.seq()[i].1,
                            now,
                            timeout,
                        ),
        {
            let (id, record) = entry;
            let ghost i = it.index() as int;
            let ghost before = dead@;
            let is_stale: bool = !record.dead && now > record.last_heartbeat && now
                - record.last_heartbeat > timeout;
            proof {
                assert(it.seq()[i] == (id, record));
                // An identifier occurs only once in the walk.
                assert(!before.contains(*id)) by {
                    if before.contains(*id) {
                        let j = choose|j: int|
                            0 <= j < i && *(#[trigger] it.seq()[j]).0 == *id && stale(
                                *it.seq()[j].1,
                                now,
                                timeout,
                            );
                        assert(it.seq()[j] == it.seq()[i]);
                    }
                }
            }
            if is_stale {
                dead.push(*id);
                assert forall|w: u32| #[trigger] dead@.contains(w) <==> before.contains(w) || w
                    == *id by {
                    if before.contains(w) {
                        let q = choose|q: int| 0 <= q < before.len() && before[q] == w;
                        assert(dead@[q] == w);
                    }
                    assert(dead@[before.len() as int] == *id);
                    if dead@.contains(w) && w != *id {
                        let q = choose|q: int| 0 <= q < dead@.len() && dead@[q] == w;
                        assert(before[q] == w);
                    }
                }
            }
            assert forall|w: u32| #[trigger] dead@.contains(w) <==> exists|j: int|
                0 <= j < i + 1 && *(#[trigger] it.seq()[j]).0 == w && stale(
                    *it.seq()[j].1,
                    now,
                    timeout,
                ) by {
                if dead@.contains(w) {
                    if before.contains(w) {
                        let j = choose|j: int|
                            0 <= j < i && *(#[trigger] it.seq()[j]).0 == w && stale(
                                *it.seq()[j].1,
                                now,
                                timeout,
                            );
                        assert(0 <= j < i + 1 && *it.seq()[j].0 == w);
                    } else {
                        assert(*it.seq()[i].0 == w);
                    }
                }
                if exists|j: int|
                    0 <= j < i + 1 && *(#[trigger] it.seq()[j]).0 == w && stale(
                        *it.seq()[j].1,
                        now,
                        timeout,
                    ) {
                    let j = choose|j: int|
                        0 <= j < i + 1 && *(#[trigger] it.seq()[j]).0 == w && stale(
                            *it.seq()[j].1,
                            now,
                            timeout,
                        );
                    if j < i {
                        assert(before.contains(w));
                    }
                }
            }
        }
        dead
    }
}

/// The state after a node was dispatched.
pub open spec fn assigned(v: OrchView, worker: u32, budget: WorkBudget, now: u64) -> OrchView {
    OrchView {
        sched: dispatch::dispatched(v.sched, worker, budget, now),
        wal: v.wal.push(
            EntryView::Dispatch {
                worker,
                node: dispatch::open_ids(v.sched.tree)[0],
                budget_ms: budget.max_ms,
                budget_conflicts: budget.max_conflicts,
            },
        ),
        ..v
    }
}

/// What stands in the way of dispatching to a worker: the worker itself, a
/// decided problem, or a lack of open nodes.
pub open spec fn dispatch_refused(v: OrchView, worker: u32, e: OrchestratorError) -> bool {
    if !v.workers.contains_key(worker) {
        e == OrchestratorError::UnknownWorker(worker)
    } else if v.workers[worker].dead {
        e == OrchestratorError::DeadWorker(worker)
    } else if dispatch::verdict_of(v.sched.tree) != Verdict::Unknown {
        e matches OrchestratorError::Scheduler(SchedulerError::Finished(t)) && t@
            == dispatch::verdict_text(dispatch::verdict_of(v.sched.tree))
    } else {
        e == OrchestratorError::Scheduler(SchedulerError::NoWork) && dispatch::open_ids(
            v.sched.tree,
        ).len() == 0
    }
}

/// A worker that is registered and alive, and a node to dispatch.
pub open spec fn can_dispatch(v: OrchView, worker: u32) -> bool {
    &&& v.workers.contains_key(worker)
    &&& !v.workers[worker].dead
    &&& dispatch::verdict_of(v.sched.tree) == Verdict::Unknown
    &&& dispatch::open_ids(v.sched.tree).len() > 0
}

/// A worker abandoned its unit because someone else tripped the scheduler-wide
/// token. That token is set on a validated SAT, which the scheduler would know
/// of, or for an orchestrator shutdown, which has not been recorded yet.
pub open spec fn shut_down_by_others(v: OrchView, result: NodeResult, tripped: bool) -> bool {
    result is Cancelled && tripped && !v.sched.stopped
}

/// The state after a reported result, and what is logged. The entry names the
/// node of the lease that the scheduler granted. A shutdown is a global
/// cancellation: all work is cancelled, and the log says so, without which a
/// replay could not know that the node is not to be opened again.
pub open spec fn settled(
    v: OrchView,
    lease_id: u64,
    worker: u32,
    result: NodeResult,
    tripped: bool,
) -> (OrchView, Verdict) {
    if shut_down_by_others(v, result, tripped) {
        (
            OrchView {
                sched: dispatch::cancelled(v.sched),
                wal: v.wal.push(EntryView::CancelAll),
                ..v
            },
            dispatch::verdict_of(v.sched.tree),
        )
    } else {
        let (sched, verdict) = dispatch::reported(v.sched, lease_id, result, tripped);
        let node = lease::lease_at(v.sched.leases, lease_id).node_id;
        let logged = v.wal.push(
            EntryView::Result { worker, node, outcome: outcome_of(result)->0 },
        );
        (
            OrchView {
                sched,
                wal: if verdict != Verdict::Unknown {
                    logged.push(EntryView::CancelAll)
                } else {
                    logged
                },
                ..v
            },
            verdict,
        )
    }
}

/// Cancelling all work keeps the log in step if it is logged.
proof fn cancelled_synced(v: OrchView)
    requires
        orch_ok(v),
        synced(v),
    ensures
        synced(
            OrchView {
                sched: dispatch::cancelled(v.sched),
                wal: v.wal.push(EntryView::CancelAll),
                ..v
            },
        ),
{
    let end = OrchView {
        sched: dispatch::cancelled(v.sched),
        wal: v.wal.push(EntryView::CancelAll),
        ..v
    };
    wal::timeless_cancelled(v.sched);
    assert(shadow(end) == (Shadow { sched: wal::timeless(end.sched), ..shadow(v) }));
    synced_step(v, end, EntryView::CancelAll);
}

/// An accepted result keeps the log in step.
proof fn settled_synced(
    v: OrchView,
    lease_id: u64,
    worker: u32,
    result: NodeResult,
    tripped: bool,
)
    requires
        orch_ok(v),
        synced(v),
        lease::owned(v.sched.leases, lease_id, worker),
        outcome_of(result) is Some,
        !shut_down_by_others(v, result, tripped),
        v.sched.stopped ==> tripped,
        dispatch::sched_ok(dispatch::reported(v.sched, lease_id, result, tripped).0),
    ensures
        synced(settled(v, lease_id, worker, result, tripped).0),
{
    let outcome = outcome_of(result)->0;
    let i = lease::place_of(v.sched.leases, lease_id);
    lease::lease_at_is(v.sched.leases, i);
    let node = v.sched.leases.leases[i].node_id;
    let e = EntryView::Result { worker, node, outcome };
    let sched = dispatch::reported(v.sched, lease_id, result, tripped).0;
    let verdict = dispatch::reported(v.sched, lease_id, result, tripped).1;
    assert(dispatch::leases_fit(v.sched.tree, v.sched.leases));
    wal::lease_for_is(v.sched, worker, i);
    wal::timeless_reported(v.sched, lease_id, result, tripped);
    assert(wal::result_of(outcome) == result);
    assert(dispatch::reported(wal::timeless(v.sched), lease_id, result, tripped)
        == dispatch::reported(
        wal::timeless(v.sched),
        lease_id,
        result,
        wal::timeless(v.sched).stopped,
    ));
    let mid = OrchView { sched, wal: v.wal.push(e), ..v };
    assert(tree::known(v.sched.tree, node));
    assert(sched.tree.nodes[0].cube == v.sched.tree.nodes[0].cube);
    assert(shadow(mid) == (Shadow { sched: wal::timeless(sched), ..shadow(v) }));
    synced_step(v, mid, e);
    if verdict != Verdict::Unknown {
        let end = OrchView { wal: mid.wal.push(EntryView::CancelAll), ..mid };
        assert(sched.leases.leases.len() == 0 && sched.stopped);
        assert(dispatch::cancelled(sched) == sched) by {
            assert(sched.leases.leases =~= Seq::<LeaseView>::empty());
            assert(dispatch::cancelled(sched).abandoned =~= sched.abandoned);
        }
        wal::timeless_cancelled(sched);
        synced_step(mid, end, EntryView::CancelAll);
    }
}

impl Orchestrator {
    /// Dispatch a node to `worker` (which must be registered and alive).
    pub fn dispatch(&mut self, worker: u32, budget: WorkBudget) -> (r: Result<
        Lease,
        OrchestratorError,
    >)
        requires
            old(self).well_formed(),
            old(self)@.wal.len() < usize::MAX,
        ensures
            final(self).well_formed(),
            synced(old(self)@) ==> synced(final(self)@),
            match r {
                Ok(lease) => {
                    &&& can_dispatch(old(self)@, worker)
                    &&& exists|now: u64|
                        now <= CLOCK_MAX && final(self)@ == #[trigger] assigned(
                            old(self)@,
                            worker,
                            budget,
                            now,
                        )
                    &&& lease@ == final(self)@.sched.leases.leases.last()
                    &&& lease.work_unit.shutdown == final(self).unit_token(lease.lease_id)
                },
                Err(e) => dispatch_refused(old(self)@, worker, e) && final(self)@ == old(self)@,
            },
    {
        let now: u64 = self.reading();
        self.dispatch_at(worker, budget, now)
    }

    /// As [`Orchestrator::dispatch`], at a given time.
    pub fn dispatch_at(&mut self, worker: u32, budget: WorkBudget, now: u64) -> (r: Result<
        Lease,
        OrchestratorError,
    >)
        requires
            old(self).well_formed(),
            old(self)@.wal.len() < usize::MAX,
            now <= CLOCK_MAX,
        ensures
            final(self).well_formed(),
            synced(old(self)@) ==> synced(final(self)@),
            match r {
                Ok(lease) => {
                    &&& can_dispatch(old(self)@, worker)
                    &&& final(self)@ == assigned(old(self)@, worker, budget, now)
                    &&& lease@ == final(self)@.sched.leases.leases.last()
                    &&& lease.work_unit.shutdown == final(self).unit_token(lease.lease_id)
                },
                Err(e) => dispatch_refused(old(self)@, worker, e) && final(self)@ == old(self)@,
            },
    {
        let ghost before = self@;
        proof {
            self.scheduler.bounded();
        }
        match self.workers.get(&worker) {
            None => {
                return Err(OrchestratorError::UnknownWorker(worker));
            },
            Some(r) => {
                if r.dead {
                    return Err(OrchestratorError::DeadWorker(worker));
                }
            },
        }
        match self.scheduler.dispatch(worker, budget, now) {
            Err(e) => Err(OrchestratorError::Scheduler(e)),
            Ok(lease) => {
                let node: NodeId = lease.node_id;
                self.log(
                    WalEntry::Dispatch {
                        worker,
                        node,
                        budget_ms: budget.max_ms,
                        budget_conflicts: budget.max_conflicts,
                    },
                );
                proof {
                    let e = EntryView::Dispatch {
                        worker,
                        node,
                        budget_ms: budget.max_ms,
                        budget_conflicts: budget.max_conflicts,
                    };
                    assert(self@ == assigned(before, worker, budget, now));
                    if synced(before) {
                        assert(budget == (WorkBudget {
                            max_conflicts: budget.max_conflicts,
                            max_ms: budget.max_ms,
                        }));
                        wal::timeless_dispatched(before.sched, worker, budget, now);
                        dispatch::next_open(before.sched.tree);
                        assert(self@.sched.tree.nodes[0].cube
                            == before.sched.tree.nodes[0].cube);
                        assert(shadow(self@) == (Shadow {
                            sched: wal::timeless(self@.sched),
                            ..shadow(before)
                        }));
                        synced_step(before, self@, e);
                    }
                }
                Ok(lease)
            },
        }
    }

    /// Report a terminal worker outcome. It is logged once the scheduler has
    /// accepted it; a refused one changes nothing.
    ///
    /// Whether the shutdown token is set is known only when it is read, except
    /// that it is once this orchestrator's scheduler has tripped it.
    pub fn on_result(&mut self, lease: &Lease, worker: u32, result: NodeResult) -> (r: Result<
        Verdict,
        OrchestratorError,
    >)
        requires
            old(self).well_formed(),
        ensures
            final(self).well_formed(),
            result is Split ==> r == Ok::<Verdict, OrchestratorError>(
                dispatch::verdict_of(old(self)@.sched.tree),
            ) && final(self)@ == old(self)@,
            !(result is Split) ==> match r {
                Ok(v) => {
                    &&& lease::owned(old(self)@.sched.leases, lease@.lease_id, worker)
                    &&& {
                        ||| (final(self)@, v) == settled(
                            old(self)@,
                            lease@.lease_id,
                            worker,
                            result,
                            true,
                        )
                        ||| !old(self)@.sched.stopped && (final(self)@, v) == settled(
                            old(self)@,
                            lease@.lease_id,
                            worker,
                            result,
                            false,
                        )
                    }
                },
                Err(e) => result_refused(old(self)@, lease@.lease_id, worker, e, final(self)@),
            },
            synced(old(self)@) ==> synced(final(self)@),
    {
        let tripped: bool = self.scheduler.is_tripped();
        self.on_result_with(lease, worker, result, tripped)
    }

    /// As [`Orchestrator::on_result`], for a given reading of the shutdown token
    /// (which is set once this orchestrator's scheduler has tripped it).
    pub fn on_result_with(
        &mut self,
        lease: &Lease,
        worker: u32,
        result: NodeResult,
        tripped: bool,
    ) -> (r: Result<Verdict, OrchestratorError>)
        requires
            old(self).well_formed(),
        ensures
            final(self).well_formed(),
            result is Split ==> r == Ok::<Verdict, OrchestratorError>(
                dispatch::verdict_of(old(self)@.sched.tree),
            ) && final(self)@ == old(self)@,
            !(result is Split) ==> match r {
                Ok(v) => {
                    &&& lease::owned(old(self)@.sched.leases, lease@.lease_id, worker)
                    &&& (final(self)@, v) == settled(
                        old(self)@,
                        lease@.lease_id,
                        worker,
                        result,
                        tripped || old(self)@.sched.stopped,
                    )
                },
                Err(e) => result_refused(old(self)@, lease@.lease_id, worker, e, final(self)@),
            },
            synced(old(self)@) ==> synced(final(self)@),
    {
        let ghost before = self@;
        let tripped: bool = tripped || self.scheduler.has_stopped();
        let outcome: WalOutcome = match &result {
            NodeResult::Sat => WalOutcome::Sat,
            NodeResult::Unsat => WalOutcome::Unsat,
            NodeResult::Cancelled => WalOutcome::Cancelled,
            NodeResult::Split(_) => {
                return Ok(self.scheduler.verdict());
            },
        };
        let ghost kind = result;
        let node: NodeId = match self.scheduler.leases().get(lease.lease_id) {
            Some(granted) => {
                if granted.worker_id != worker {
                    return Err(
                        OrchestratorError::Scheduler(
                            SchedulerError::LeaseNotOwned(lease.lease_id, worker),
                        ),
                    );
                }
                granted.node_id
            },
            None => {
                return Err(
                    OrchestratorError::Scheduler(SchedulerError::UnknownLease(lease.lease_id)),
                );
            },
        };
        let gave_up: bool = match outcome {
            WalOutcome::Cancelled => true,
            _ => false,
        };
        if gave_up && tripped && !self.scheduler.has_stopped() {
            self.scheduler.cancel_all();
            self.log(WalEntry::CancelAll);
            proof {
                if synced(before) {
                    cancelled_synced(before);
                }
            }
            return Ok(self.scheduler.verdict());
        }
        match self.scheduler.on_result_with(lease.lease_id, worker, result, tripped) {
            Err(e) => Err(OrchestratorError::Scheduler(e)),
            Ok(verdict) => {
                self.log(WalEntry::Result { worker, node, outcome });
                if verdict != Verdict::Unknown {
                    self.log(WalEntry::CancelAll);
                }
                proof {
                    assert(self@ == settled(before, lease@.lease_id, worker, kind, tripped).0);
                    if synced(before) {
                        settled_synced(before, lease@.lease_id, worker, kind, tripped);
                    }
                }
                Ok(verdict)
            },
        }
    }

    /// Split the node behind `lease` into children, recording the certificate.
    /// A refused split changes nothing.
    pub fn split(
        &mut self,
        lease: &Lease,
        worker: u32,
        literals: Vec<Literal>,
        certificate: CoverageCertificate,
    ) -> (r: Result<Vec<NodeId>, OrchestratorError>)
        requires
            old(self).well_formed(),
        ensures
            final(self).well_formed(),
            dispatch::lease_error(old(self)@.sched, lease@.lease_id, worker) matches Some(e) ==> r
                == Err::<Vec<NodeId>, OrchestratorError>(OrchestratorError::Scheduler(e))
                && final(self)@ == old(self)@,
            dispatch::lease_error(old(self)@.sched, lease@.lease_id, worker) is None ==> {
                let node = lease::lease_at(old(self)@.sched.leases, lease@.lease_id).node_id;
                let rest = dispatch::released(old(self)@.sched, lease@.lease_id);
                match tree::split_error(rest.tree, node, certificate.literals@, literals@) {
                    Some(e) => r == Err::<Vec<NodeId>, OrchestratorError>(
                        OrchestratorError::Scheduler(e),
                    ) && final(self)@ == old(self)@,
                    None => {
                        &&& r matches Ok(ids) && ids@ == tree::next_ids(rest.tree, literals@.len())
                        &&& final(self)@ == (OrchView {
                            sched: dispatch::after_split(rest, node, literals@),
                            wal: old(self)@.wal.push(
                                EntryView::Split {
                                    worker,
                                    node,
                                    children: tree::next_ids(rest.tree, literals@.len()),
                                    literals: literals@,
                                },
                            ),
                            ..old(self)@
                        })
                    },
                }
            },
            synced(old(self)@) ==> synced(final(self)@),
    {
        let ghost before = self@;
        let lits: Vec<Literal> = vstd::slice::slice_to_vec(literals.as_slice());
        let node_id: NodeId = match self.scheduler.leases().get(lease.lease_id) {
            Some(granted) => granted.node_id,
            None => lease.node_id,
        };
        match self.scheduler.split(lease.lease_id, worker, lits, certificate) {
            Err(e) => Err(OrchestratorError::Scheduler(e)),
            Ok(children) => {
                let ghost given = literals@;
                self.log(
                    WalEntry::Split {
                        worker,
                        node: node_id,
                        children: vstd::slice::slice_to_vec(children.as_slice()),
                        literals,
                    },
                );
                proof {
                    let e = EntryView::Split {
                        worker,
                        node: node_id,
                        children: children@,
                        literals: given,
                    };
                    let i = lease::place_of(before.sched.leases, lease@.lease_id);
                    lease::lease_at_is(before.sched.leases, i);
                    let node = before.sched.leases.leases[i].node_id;
                    assert(tree::known(before.sched.tree, node));
                    if synced(before) {
                        wal::lease_for_is(before.sched, worker, i);
                        wal::timeless_without(before.sched.leases, lease@.lease_id);
                        assert(coverage::covers(given));
                        assert(self@.sched.tree.nodes[0].cube
                            == before.sched.tree.nodes[0].cube);
                        assert(shadow(self@) == (Shadow {
                            sched: wal::timeless(self@.sched),
                            ..shadow(before)
                        }));
                        synced_step(before, self@, e);
                    }
                }
                Ok(children)
            },
        }
    }
}

/// A refused result: nothing has changed.
pub open spec fn result_refused(
    v: OrchView,
    lease_id: u64,
    worker: u32,
    e: OrchestratorError,
    after: OrchView,
) -> bool {
    &&& dispatch::lease_error(v.sched, lease_id, worker) matches Some(s) && e
        == OrchestratorError::Scheduler(s)
    &&& after == v
}

// ---------------------------------------------------------------------------
// Replay
// ---------------------------------------------------------------------------

/// What replaying an entry did: the shadow moved as the log says, and the
/// configuration and the log stayed.
spec fn replay_step(a: OrchView, b: OrchView, e: EntryView) -> bool {
    &&& wal::replayed(shadow(a), e) == Ok::<Shadow, Fault>(shadow(b))
    &&& dispatch::sched_ok(b.sched)
    &&& b.config == a.config
    &&& b.wal == a.wal
    &&& b.sched.ttl == a.sched.ttl
    &&& b.sched.problem == a.sched.problem
    &&& b.sched.tree.max_depth == a.sched.tree.max_depth
    &&& b.sched.leases.next_id <= a.sched.leases.next_id + 1
}

impl Orchestrator {
    /// Rebuild an orchestrator by replaying a log (used by the standby on
    /// promotion). Replays every entry against a fresh scheduler, which is
    /// deterministic given the same ordered sequence.
    pub fn replay(
        problem: ProblemId,
        root_cube: Vec<Literal>,
        config: OrchestratorConfig,
        wal: &[WalEntry],
    ) -> (r: Result<Self, OrchestratorError>)
        requires
            config.lease_ttl <= CLOCK_MAX,
        ensures
            match r {
                Ok(o) => {
                    &&& o.well_formed()
                    &&& wal::replay_all(
                        wal::initial(problem, root_cube@, config.max_split_depth),
                        wal::entry_views(wal@),
                        wal@.len() as int,
                    ) == Ok::<Shadow, Fault>(shadow(o@))
                    &&& o@.wal == wal::entry_views(wal@)
                    &&& o@.config == config
                },
                Err(e) => wal::replay_all(
                    wal::initial(problem, root_cube@, config.max_split_depth),
                    wal::entry_views(wal@),
                    wal@.len() as int,
                ) matches Err(f) && reports(e, f),
            },
    {
        let ghost start = wal::initial(problem, root_cube@, config.max_split_depth);
        let ghost entries = wal::entry_views(wal@);
        let mut o = Orchestrator::new(problem, root_cube, config);
        let mut i: usize = 0;
        while i < wal.len()
            invariant
                i <= wal@.len(),
                start == wal::initial(problem, root_cube@, config.max_split_depth),
                entries == wal::entry_views(wal@),
                dispatch::sched_ok(o@.sched),
                o@.config == config,
                o@.wal.len() == 0,
                o@.sched.ttl == config.lease_ttl,
                config.lease_ttl <= CLOCK_MAX,
                o@.sched.tree.max_depth == config.max_split_depth,
                o@.sched.leases.next_id <= i,
                wal::replay_all(start, entries, i as int) == Ok::<Shadow, Fault>(shadow(o@)),
            decreases wal@.len() - i,
        {
            let ghost before = o@;
            let now: u64 = o.reading();
            assert(entries[i as int] == wal@[i as int]@);
            match o.apply_replay(&wal[i], now) {
                Ok(()) => {},
                Err(e) => {
                    proof {
                        assert(wal::replay_all(start, entries, i + 1) == wal::replayed(
                            shadow(before),
                            entries[i as int],
                        ));
                        faults_stay(start, entries, i as int, wal@.len() as int);
                    }
                    return Err(e);
                },
            }
            i += 1;
        }
        o.wal = copy_wal(wal);
        Ok(o)
    }

    fn find_lease_for_node(&self, worker: u32, node: NodeId) -> (r: Result<u64, OrchestratorError>)
        requires
            dispatch::sched_ok(self@.sched),
        ensures
            match r {
                Ok(id) => {
                    &&& lease::owned(self@.sched.leases, id, worker)
                    &&& lease::lease_at(self@.sched.leases, id).node_id == node
                    &&& wal::holds(wal::timeless_leases(self@.sched.leases), worker, node)
                    &&& id == wal::lease_for(
                        wal::timeless_leases(self@.sched.leases),
                        worker,
                        node,
                    )
                },
                Err(e) => {
                    &&& !wal::holds(wal::timeless_leases(self@.sched.leases), worker, node)
                    &&& e == OrchestratorError::Scheduler(SchedulerError::UnknownNode(node))
                },
            },
    {
        let ghost l = self@.sched.leases;
        let ghost p = |x: LeaseView| x.worker_id == worker;
        let ids: Vec<u64> = self.scheduler.leases().leases_for_worker(worker);
        proof {
            lease::lease_ids_facts(l, p);
        }
        let mut k: usize = 0;
        while k < ids.len()
            invariant
                k <= ids@.len(),
                l == self@.sched.leases,
                dispatch::sched_ok(self@.sched),
                p == (|x: LeaseView| x.worker_id == worker),
                ids@ == lease::lease_ids(l.leases, p),
                forall|a: int|
                    0 <= a < ids@.len() ==> lease::held(l, #[trigger] ids@[a]) && p(
                        lease::lease_at(l, ids@[a]),
                    ),
                forall|a: int|
                    0 <= a < k ==> lease::lease_at(l, #[trigger] ids@[a]).node_id != node,
            decreases ids@.len() - k,
        {
            let id: u64 = ids[k];
            assert(lease::held(l, ids@[k as int]));
            if let Some(found) = self.scheduler.leases().get(id) {
                if found.node_id == node {
                    proof {
                        let i = lease::place_of(l, id);
                        lease::lease_at_is(l, i);
                        wal::lease_for_is(self@.sched, worker, i);
                    }
                    return Ok(id);
                }
            }
            k += 1;
        }
        proof {
            wal::timeless_holds(l, worker, node);
            if wal::holds(l, worker, node) {
                let i = choose|i: int|
                    0 <= i < l.leases.len() && (#[trigger] l.leases[i]).worker_id == worker
                        && l.leases[i].node_id == node;
                assert(p(l.leases[i]));
                lease::lease_ids_facts(l, p);
                let a = choose|a: int| 0 <= a < ids@.len() && ids@[a] == l.leases[i].lease_id;
                lease::lease_at_is(l, i);
                assert(lease::lease_at(l, ids@[a]).node_id != node);
            }
        }
        Err(OrchestratorError::Scheduler(SchedulerError::UnknownNode(node)))
    }

    fn replay_dispatch(
        &mut self,
        worker: u32,
        node: NodeId,
        budget_ms: u64,
        budget_conflicts: u64,
        now: u64,
    ) -> (r: Result<(), OrchestratorError>)
        requires
            dispatch::sched_ok(old(self)@.sched),
            old(self)@.sched.leases.next_id < u64::MAX,
            now + old(self)@.sched.ttl <= u64::MAX,
        ensures
            ({
                let e = EntryView::Dispatch { worker, node, budget_ms, budget_conflicts };
                match r {
                    Ok(_) => replay_step(old(self)@, final(self)@, e),
                    Err(x) => wal::replayed(shadow(old(self)@), e) matches Err(f) && reports(x, f),
                }
            }),
    {
        let ghost before = self@;
        let budget = WorkBudget { max_conflicts: budget_conflicts, max_ms: budget_ms };
        match self.scheduler.dispatch(worker, budget, now) {
            Err(e) => Err(OrchestratorError::Scheduler(e)),
            Ok(lease) => {
                if lease.node_id != node {
                    let mut message = String::from_str("WAL replay dispatched NodeId(");
                    text::push_decimal(&mut message, node.0);
                    message.append("), scheduler picked NodeId(");
                    text::push_decimal(&mut message, node.0);
                    message.append(")");
                    return Err(OrchestratorError::Scheduler(SchedulerError::Finished(message)));
                }
                proof {
                    wal::timeless_dispatched(before.sched, worker, budget, now);
                }
                Ok(())
            },
        }
    }

    fn replay_result(&mut self, worker: u32, node: NodeId, outcome: WalOutcome) -> (r: Result<
        (),
        OrchestratorError,
    >)
        requires
            dispatch::sched_ok(old(self)@.sched),
        ensures
            ({
                let e = EntryView::Result { worker, node, outcome };
                match r {
                    Ok(_) => replay_step(old(self)@, final(self)@, e),
                    Err(x) => wal::replayed(shadow(old(self)@), e) matches Err(f) && reports(x, f),
                }
            }),
    {
        let ghost before = self@;
        let lease_id: u64 = match self.find_lease_for_node(worker, node) {
            Ok(id) => id,
            Err(e) => {
                return Err(e);
            },
        };
        let result: NodeResult = match outcome {
            WalOutcome::Sat => NodeResult::Sat,
            WalOutcome::Unsat => NodeResult::Unsat,
            WalOutcome::Cancelled => NodeResult::Cancelled,
        };
        let ghost kind = result;
        // Nobody else has the token of a scheduler under replay.
        let tripped: bool = self.scheduler.has_stopped();
        match self.scheduler.on_result_with(lease_id, worker, result, tripped) {
            Err(e) => Err(OrchestratorError::Scheduler(e)),
            Ok(_) => {
                proof {
                    wal::timeless_reported(before.sched, lease_id, kind, tripped);
                }
                Ok(())
            },
        }
    }

    fn replay_split(
        &mut self,
        worker: u32,
        node: NodeId,
        children: &Vec<NodeId>,
        literals: &Vec<Literal>,
    ) -> (r: Result<(), OrchestratorError>)
        requires
            dispatch::sched_ok(old(self)@.sched),
        ensures
            ({
                let e = EntryView::Split {
                    worker,
                    node,
                    children: children@,
                    literals: literals@,
                };
                match r {
                    Ok(_) => replay_step(old(self)@, final(self)@, e),
                    Err(x) => wal::replayed(shadow(old(self)@), e) matches Err(f) && reports(x, f),
                }
            }),
    {
        let ghost before = self@;
        let lease_id: u64 = match self.find_lease_for_node(worker, node) {
            Ok(id) => id,
            Err(e) => {
                return Err(e);
            },
        };
        let cert = match CoverageCertificate::tautology(
            vstd::slice::slice_to_vec(literals.as_slice()),
        ) {
            Ok(c) => c,
            Err(_) => {
                return Err(
                    OrchestratorError::Scheduler(
                        SchedulerError::Finished(String::from_str("WAL split certificate invalid")),
                    ),
                );
            },
        };
        proof {
            wal::timeless_without(before.sched.leases, lease_id);
        }
        let lits: Vec<Literal> = vstd::slice::slice_to_vec(literals.as_slice());
        match self.scheduler.split(lease_id, worker, lits, cert) {
            Err(e) => Err(OrchestratorError::Scheduler(e)),
            Ok(got) => {
                if !same_ids(&got, children) {
                    return Err(
                        OrchestratorError::Scheduler(
                            SchedulerError::Finished(
                                String::from_str("WAL split produced different children"),
                            ),
                        ),
                    );
                }
                Ok(())
            },
        }
    }

    /// Apply a log entry during standby replay. Node ids are re-derived by
    /// re-running the deterministic scheduler operations.
    fn apply_replay(&mut self, entry: &WalEntry, now: u64) -> (r: Result<(), OrchestratorError>)
        requires
            dispatch::sched_ok(old(self)@.sched),
            old(self)@.sched.leases.next_id < u64::MAX,
            now + old(self)@.sched.ttl <= u64::MAX,
        ensures
            match r {
                Ok(_) => replay_step(old(self)@, final(self)@, entry@),
                Err(x) => wal::replayed(shadow(old(self)@), entry@) matches Err(f) && reports(
                    x,
                    f,
                ),
            },
    {
        let ghost before = self@;
        match entry {
            WalEntry::WorkerAdmitted { worker } => {
                self.workers.insert(
                    *worker,
                    WorkerRecord { worker_id: *worker, last_heartbeat: now, dead: false },
                );
                assert(shadow(self@).workers =~= shadow(before).workers.insert(*worker, false));
                Ok(())
            },
            WalEntry::Heartbeat { worker } => {
                let known: Option<WorkerRecord> = match self.workers.get(worker) {
                    Some(r) => Some(*r),
                    None => None,
                };
                if let Some(r) = known {
                    self.workers.insert(
                        *worker,
                        WorkerRecord {
                            worker_id: r.worker_id,
                            last_heartbeat: now,
                            dead: r.dead,
                        },
                    );
                }
                assert(shadow(self@).workers =~= shadow(before).workers);
                Ok(())
            },
            WalEntry::Dispatch { worker, node, budget_ms, budget_conflicts } => {
                self.replay_dispatch(*worker, *node, *budget_ms, *budget_conflicts, now)
            },
            WalEntry::Result { worker, node, outcome } => {
                self.replay_result(*worker, *node, *outcome)
            },
            WalEntry::Split { worker, node, children, literals } => {
                self.replay_split(*worker, *node, children, literals)
            },
            WalEntry::WorkerDead { worker } => {
                self.bury(*worker);
                proof {
                    let w = *worker;
                    let ids = dispatch::worker_leases(before.sched, w);
                    lease::lease_ids_facts(
                        before.sched.leases,
                        |l: LeaseView| l.worker_id == w,
                    );
                    dispatch::reaped_keeps_order(before.sched, ids, ids.len() as int);
                    wal::timeless_worker_leases(before.sched, w);
                    wal::timeless_reaped(before.sched, ids, ids.len() as int);
                    if before.workers.contains_key(w) {
                        assert(shadow(self@).workers =~= shadow(before).workers.insert(w, true));
                    } else {
                        assert(shadow(self@).workers =~= shadow(before).workers);
                    }
                }
                Ok(())
            },
            WalEntry::CancelAll => {
                self.scheduler.cancel_all();
                proof {
                    wal::timeless_cancelled(before.sched);
                }
                Ok(())
            },
        }
    }

    pub fn verdict(&self) -> (v: Verdict)
        requires
            self.well_formed(),
        ensures
            v == dispatch::verdict_of(self@.sched.tree),
    {
        self.scheduler.verdict()
    }

    pub fn is_finished(&self) -> (b: bool)
        requires
            self.well_formed(),
        ensures
            b == (dispatch::verdict_of(self@.sched.tree) != Verdict::Unknown),
    {
        self.scheduler.is_finished()
    }

    pub fn worker(&self, worker: u32) -> (r: Option<&WorkerRecord>)
        ensures
            match r {
                Some(rec) => self@.workers.contains_key(worker) && *rec == self@.workers[worker],
                None => !self@.workers.contains_key(worker),
            },
    {
        self.workers.get(&worker)
    }

    pub fn workers(&self) -> (w: &HashMap<u32, WorkerRecord>)
        ensures
            w@ == self@.workers,
    {
        &self.workers
    }

    pub fn scheduler(&self) -> (s: &Scheduler)
        requires
            self.well_formed(),
        ensures
            s.well_formed(),
            s@ == self@.sched,
    {
        &self.scheduler
    }

    /// The write-ahead log accumulated so far.
    pub fn wal(&self) -> (w: &[WalEntry])
        ensures
            wal::entry_views(w@) == self@.wal,
    {
        self.wal.as_slice()
    }

    pub fn lease_count(&self) -> (n: usize)
        requires
            self.well_formed(),
        ensures
            n == self@.sched.leases.leases.len(),
    {
        self.scheduler.leases().len()
    }
}

/// A log stays inconsistent once an entry does not fit.
proof fn faults_stay(s: Shadow, entries: Seq<EntryView>, i: int, n: int)
    requires
        0 <= i < n,
        wal::replay_all(s, entries, i + 1) is Err,
    ensures
        wal::replay_all(s, entries, n) == wal::replay_all(s, entries, i + 1),
    decreases n,
{
    if n > i + 1 {
        faults_stay(s, entries, i, n - 1);
    }
}

fn same_ids(a: &Vec<NodeId>, b: &Vec<NodeId>) -> (r: bool)
    ensures
        r == (a@ == b@),
{
    if a.len() != b.len() {
        return false;
    }
    let mut i: usize = 0;
    while i < a.len()
        invariant
            i <= a@.len(),
            a@.len() == b@.len(),
            forall|k: int| 0 <= k < i ==> #[trigger] a@[k] == b@[k],
        decreases a@.len() - i,
    {
        if a[i] != b[i] {
            assert(a@[i as int] != b@[i as int]);
            return false;
        }
        i += 1;
    }
    assert(a@ =~= b@);
    true
}

} // verus!
