//! Lease tracking for distributed work units.
//!
//! A worker holds a lease on a partition node for some time. The orchestrator
//! renews leases as workers report progress; expired leases are reaped and
//! their nodes returned to the open pool for reassignment. On lease expiry
//! the worker's `WorkUnit::shutdown` token is tripped so it abandons the
//! unit promptly.
//!
//! Times are nanoseconds on a monotonic clock.

use vstd::prelude::*;

use crate::akx::work::WorkUnit;
use crate::scheduler::error::SchedulerError;
use crate::scheduler::tree::NodeId;
#[allow(unused_imports)]
use std::sync::atomic::AtomicBool;
#[allow(unused_imports)]
use std::sync::Arc;
#[allow(unused_imports)]
use crate::akx::work::UnitView;

verus! {

/// A grant of ownership over a partition node to one worker.
#[derive(Debug)]
pub struct Lease {
    pub lease_id: u64,
    /// Partition node this lease covers.
    pub node_id: NodeId,
    /// Worker that holds the lease.
    pub worker_id: u32,
    /// When this lease expires.
    pub expires_at: u64,
    /// The dispatched work unit (carries the node's cube and shutdown token).
    pub work_unit: WorkUnit,
}

/// The contents of a lease.
#[verifier::ext_equal]
pub struct LeaseView {
    pub lease_id: u64,
    pub node_id: NodeId,
    pub worker_id: u32,
    pub expires_at: u64,
    pub unit: UnitView,
}

impl View for Lease {
    type V = LeaseView;

    open spec fn view(&self) -> LeaseView {
        LeaseView {
            lease_id: self.lease_id,
            node_id: self.node_id,
            worker_id: self.worker_id,
            expires_at: self.expires_at,
            unit: self.work_unit@,
        }
    }
}

pub open spec fn expired(l: LeaseView, now: u64) -> bool {
    now >= l.expires_at
}

impl Lease {
    pub fn is_expired(&self, now: u64) -> (b: bool)
        ensures
            b == expired(self@, now),
    {
        now >= self.expires_at
    }
}

impl Clone for Lease {
    fn clone(&self) -> (l: Self)
        ensures
            l@ == self@,
            l.work_unit.shutdown == self.work_unit.shutdown,
    {
        Lease {
            lease_id: self.lease_id,
            node_id: self.node_id,
            worker_id: self.worker_id,
            expires_at: self.expires_at,
            work_unit: self.work_unit.clone(),
        }
    }
}

/// Holds the leases in the order in which they were granted; owns the id
/// counter.
#[derive(Debug)]
pub struct LeaseStore {
    leases: Vec<Lease>,
    next_id: u64,
}

/// The contents of a lease store.
#[verifier::ext_equal]
pub struct LeasesView {
    pub leases: Seq<LeaseView>,
    pub next_id: u64,
}

/// The identifiers ascend, below the next one.
pub open spec fn leases_ok(s: LeasesView) -> bool {
    &&& forall|i: int, j: int|
        0 <= i < j < s.leases.len() ==> (#[trigger] s.leases[i]).lease_id < (
        #[trigger] s.leases[j]).lease_id
    &&& forall|i: int| 0 <= i < s.leases.len() ==> (#[trigger] s.leases[i]).lease_id < s.next_id
}

/// Whether a lease is held.
pub open spec fn held(s: LeasesView, id: u64) -> bool {
    exists|i: int| 0 <= i < s.leases.len() && (#[trigger] s.leases[i]).lease_id == id
}

/// Where a held lease stands.
pub open spec fn place_of(s: LeasesView, id: u64) -> int {
    choose|i: int| 0 <= i < s.leases.len() && (#[trigger] s.leases[i]).lease_id == id
}

/// A held lease.
pub open spec fn lease_at(s: LeasesView, id: u64) -> LeaseView {
    s.leases[place_of(s, id)]
}

/// A lease is held by a worker.
pub open spec fn owned(s: LeasesView, id: u64, worker: u32) -> bool {
    held(s, id) && lease_at(s, id).worker_id == worker
}

/// The store after granting a lease.
pub open spec fn granted(
    s: LeasesView,
    node_id: NodeId,
    worker_id: u32,
    unit: UnitView,
    expires_at: u64,
) -> LeasesView {
    LeasesView {
        leases: s.leases.push(
            LeaseView { lease_id: s.next_id, node_id, worker_id, expires_at, unit },
        ),
        next_id: (s.next_id + 1) as u64,
    }
}

/// The store without a lease.
pub open spec fn without(s: LeasesView, id: u64) -> LeasesView {
    LeasesView { leases: s.leases.filter(|l: LeaseView| l.lease_id != id), ..s }
}

/// The store with a lease's deadline moved.
pub open spec fn renewed(s: LeasesView, id: u64, expires_at: u64) -> LeasesView {
    LeasesView {
        leases: s.leases.map_values(
            |l: LeaseView|
                if l.lease_id == id {
                    LeaseView { expires_at, ..l }
                } else {
                    l
                },
        ),
        ..s
    }
}

/// The identifiers of the leases that satisfy a condition, in order.
pub open spec fn lease_ids(leases: Seq<LeaseView>, p: spec_fn(LeaseView) -> bool) -> Seq<u64>
    decreases leases.len(),
{
    if leases.len() == 0 {
        Seq::empty()
    } else {
        let before = lease_ids(leases.drop_last(), p);
        if p(leases.last()) {
            before.push(leases.last().lease_id)
        } else {
            before
        }
    }
}

pub open spec fn lease_views(leases: Seq<Lease>) -> Seq<LeaseView> {
    leases.map_values(|l: Lease| l@)
}

/// In an ordered store an identifier stands at one place.
pub proof fn lease_at_is(s: LeasesView, i: int)
    requires
        leases_ok(s),
        0 <= i < s.leases.len(),
    ensures
        held(s, s.leases[i].lease_id),
        place_of(s, s.leases[i].lease_id) == i,
        lease_at(s, s.leases[i].lease_id) == s.leases[i],
{
    let id = s.leases[i].lease_id;
    let j = choose|j: int| 0 <= j < s.leases.len() && (#[trigger] s.leases[j]).lease_id == id;
    assert(s.leases[i].lease_id == id);
    if j < i {
        assert(s.leases[j].lease_id < s.leases[i].lease_id);
    }
    if i < j {
        assert(s.leases[i].lease_id < s.leases[j].lease_id);
    }
}

/// Removing the one entry with an identifier filters it out.
pub proof fn remove_is_filter(s: LeasesView, i: int)
    requires
        leases_ok(s),
        0 <= i < s.leases.len(),
    ensures
        s.leases.remove(i) == without(s, s.leases[i].lease_id).leases,
{
    let id = s.leases[i].lease_id;
    let p = |l: LeaseView| l.lease_id != id;
    filter_prefix(s.leases.take(i), p);
    filter_prefix(s.leases.skip(i + 1), p);
    assert(s.leases =~= s.leases.take(i) + s.leases.skip(i));
    assert(s.leases.skip(i) =~= seq![s.leases[i]] + s.leases.skip(i + 1));
    Seq::filter_distributes_over_add(s.leases.take(i), s.leases.skip(i), p);
    Seq::filter_distributes_over_add(seq![s.leases[i]], s.leases.skip(i + 1), p);
    assert(seq![s.leases[i]].filter(p) =~= Seq::<LeaseView>::empty()) by {
        reveal(Seq::filter);
        assert(seq![s.leases[i]].drop_last() =~= Seq::<LeaseView>::empty());
        assert(Seq::<LeaseView>::empty().filter(p) =~= Seq::<LeaseView>::empty());
    }
    assert(s.leases.remove(i) =~= s.leases.take(i) + s.leases.skip(i + 1));
    assert(Seq::<LeaseView>::empty() + s.leases.skip(i + 1) =~= s.leases.skip(i + 1));
}

/// A filter that keeps every element changes nothing.
pub proof fn filter_prefix(s: Seq<LeaseView>, p: spec_fn(LeaseView) -> bool)
    requires
        forall|i: int| 0 <= i < s.len() ==> p(#[trigger] s[i]),
    ensures
        s.filter(p) == s,
    decreases s.len(),
{
    reveal(Seq::filter);
    if s.len() > 0 {
        let t = s.drop_last();
        assert forall|i: int| 0 <= i < t.len() implies p(#[trigger] t[i]) by {
            assert(t[i] == s[i]);
        }
        filter_prefix(t, p);
        assert(s =~= t.push(s.last()));
    }
}

/// Leaving out a lease keeps the order, and the other leases.
pub proof fn without_keeps_order(s: LeasesView, id: u64)
    requires
        leases_ok(s),
    ensures
        leases_ok(without(s, id)),
        !held(without(s, id), id),
        forall|k: u64|
            k != id ==> #[trigger] held(without(s, id), k) == held(s, k) && (held(s, k)
                ==> lease_at(without(s, id), k) == lease_at(s, k)),
{
    let w = without(s, id);
    if held(s, id) {
        let i = choose|i: int| 0 <= i < s.leases.len() && (#[trigger] s.leases[i]).lease_id == id;
        remove_is_filter(s, i);
        assert(w.leases == s.leases.remove(i));
        assert forall|a: int, b: int| 0 <= a < b < w.leases.len() implies (
        #[trigger] w.leases[a]).lease_id < (#[trigger] w.leases[b]).lease_id by {
            let a0 = if a < i { a } else { a + 1 };
            let b0 = if b < i { b } else { b + 1 };
            assert(s.leases[a0].lease_id < s.leases[b0].lease_id);
        }
        assert forall|a: int| 0 <= a < w.leases.len() implies (#[trigger] w.leases[a]).lease_id
            < w.next_id && w.leases[a].lease_id != id by {
            let a0 = if a < i { a } else { a + 1 };
            assert(w.leases[a] == s.leases[a0]);
            if a0 < i {
                assert(s.leases[a0].lease_id < s.leases[i].lease_id);
            } else {
                assert(s.leases[i].lease_id < s.leases[a0].lease_id);
            }
        }
        assert forall|k: u64| k != id implies #[trigger] held(w, k) == held(s, k) && (held(s, k)
            ==> lease_at(w, k) == lease_at(s, k)) by {
            if held(s, k) {
                let j = choose|j: int|
                    0 <= j < s.leases.len() && (#[trigger] s.leases[j]).lease_id == k;
                let j1 = if j < i { j } else { j - 1 };
                assert(w.leases[j1] == s.leases[j]);
                lease_at_is(w, j1);
                lease_at_is(s, j);
            }
            if held(w, k) {
                let j = choose|j: int|
                    0 <= j < w.leases.len() && (#[trigger] w.leases[j]).lease_id == k;
                let j0 = if j < i { j } else { j + 1 };
                assert(s.leases[j0] == w.leases[j]);
            }
        }
    } else {
        assert forall|i: int| 0 <= i < s.leases.len() implies (|l: LeaseView| l.lease_id != id)(
            #[trigger] s.leases[i],
        ) by {}
        filter_prefix(s.leases, |l: LeaseView| l.lease_id != id);
    }
}

proof fn lease_ids_step(leases: Seq<LeaseView>, p: spec_fn(LeaseView) -> bool, i: int)
    requires
        0 <= i < leases.len(),
    ensures
        lease_ids(leases.take(i + 1), p) == (if p(leases[i]) {
            lease_ids(leases.take(i), p).push(leases[i].lease_id)
        } else {
            lease_ids(leases.take(i), p)
        }),
{
    assert(leases.take(i + 1).drop_last() =~= leases.take(i));
    assert(leases.take(i + 1).last() == leases[i]);
}

/// The collected identifiers ascend, and are those of the leases that satisfy
/// the condition.
pub proof fn lease_ids_facts(s: LeasesView, p: spec_fn(LeaseView) -> bool)
    requires
        leases_ok(s),
    ensures
        forall|a: int, b: int|
            0 <= a < b < lease_ids(s.leases, p).len() ==> #[trigger] lease_ids(s.leases, p)[a]
                < #[trigger] lease_ids(s.leases, p)[b],
        forall|a: int|
            0 <= a < lease_ids(s.leases, p).len() ==> held(
                s,
                #[trigger] lease_ids(s.leases, p)[a],
            ) && p(lease_at(s, lease_ids(s.leases, p)[a])),
        forall|i: int|
            0 <= i < s.leases.len() && p(#[trigger] s.leases[i]) ==> lease_ids(
                s.leases,
                p,
            ).contains(s.leases[i].lease_id),
    decreases s.leases.len(),
{
    let ids = lease_ids(s.leases, p);
    if s.leases.len() > 0 {
        let t = LeasesView { leases: s.leases.drop_last(), next_id: s.leases.last().lease_id };
        assert forall|i: int| 0 <= i < t.leases.len() implies (#[trigger] t.leases[i]).lease_id
            < t.next_id by {
            assert(s.leases[i].lease_id < s.leases[s.leases.len() - 1].lease_id);
        }
        lease_ids_facts(t, p);
        let before = lease_ids(t.leases, p);
        assert forall|a: int| 0 <= a < before.len() implies held(s, #[trigger] before[a]) && p(
            lease_at(s, before[a]),
        ) && before[a] < s.leases.last().lease_id by {
            let j = place_of(t, before[a]);
            lease_at_is(t, j);
            assert(s.leases[j] == t.leases[j]);
            lease_at_is(s, j);
        }
        let last = s.leases.len() - 1;
        lease_at_is(s, last);
        assert forall|i: int| 0 <= i < s.leases.len() && p(#[trigger] s.leases[i]) implies
            ids.contains(s.leases[i].lease_id) by {
            if i < last {
                assert(t.leases[i] == s.leases[i]);
                let a = choose|a: int| 0 <= a < before.len() && before[a] == t.leases[i].lease_id;
                assert(ids[a] == before[a]);
            } else {
                assert(ids[ids.len() - 1] == s.leases[i].lease_id);
            }
        }
    }
}

impl LeaseStore {
    pub closed spec fn view(&self) -> LeasesView {
        LeasesView { leases: lease_views(self.leases@), next_id: self.next_id }
    }

    pub open spec fn well_formed(&self) -> bool {
        leases_ok(self@)
    }

    /// The shutdown token of the work unit of a held lease.
    pub closed spec fn token_of(&self, id: u64) -> Arc<AtomicBool> {
        self.leases@[place_of(self@, id)].work_unit.shutdown
    }

    pub fn new() -> (s: Self)
        ensures
            s.well_formed(),
            s@ == (LeasesView { leases: Seq::empty(), next_id: 0 }),
    {
        let s = LeaseStore { leases: Vec::new(), next_id: 0 };
        assert(s@.leases =~= Seq::<LeaseView>::empty());
        s
    }

    /// Grant a lease with the given time to live. Returns the new lease id.
    pub fn grant(
        &mut self,
        node_id: NodeId,
        worker_id: u32,
        work_unit: WorkUnit,
        ttl: u64,
        now: u64,
    ) -> (id: u64)
        requires
            old(self).well_formed(),
            old(self)@.next_id < u64::MAX,
            now + ttl <= u64::MAX,
        ensures
            final(self).well_formed(),
            id == old(self)@.next_id,
            final(self)@ == granted(
                old(self)@,
                node_id,
                worker_id,
                work_unit@,
                (now + ttl) as u64,
            ),
            held(final(self)@, id),
            lease_at(final(self)@, id) == final(self)@.leases.last(),
            final(self).token_of(id) == work_unit.shutdown,
    {
        let id: u64 = self.next_id;
        let ghost before = self@;
        self.next_id = id + 1;
        let lease = Lease { lease_id: id, node_id, worker_id, expires_at: now + ttl, work_unit };
        let ghost v = lease@;
        self.leases.push(lease);
        proof {
            assert(self@.leases =~= before.leases.push(v));
            lease_at_is(self@, before.leases.len() as int);
        }
        id
    }

    fn position(&self, lease_id: u64) -> (r: Option<usize>)
        ensures
            match r {
                Some(i) => i < self.leases@.len() && self.leases@[i as int].lease_id == lease_id,
                None => !held(self@, lease_id),
            },
    {
        let mut i: usize = 0;
        while i < self.leases.len()
            invariant
                i <= self.leases@.len(),
                forall|k: int| 0 <= k < i ==> (#[trigger] self@.leases[k]).lease_id != lease_id,
            decreases self.leases@.len() - i,
        {
            if self.leases[i].lease_id == lease_id {
                return Some(i);
            }
            assert(self@.leases[i as int] == self.leases@[i as int]@);
            i += 1;
        }
        None
    }

    pub fn get(&self, lease_id: u64) -> (l: Option<&Lease>)
        requires
            self.well_formed(),
        ensures
            match l {
                Some(lease) => held(self@, lease_id) && lease@ == lease_at(self@, lease_id)
                    && lease.work_unit.shutdown == self.token_of(lease_id),
                None => !held(self@, lease_id),
            },
    {
        match self.position(lease_id) {
            Some(i) => {
                proof {
                    assert(self@.leases[i as int] == self.leases@[i as int]@);
                    lease_at_is(self@, i as int);
                }
                Some(&self.leases[i])
            },
            None => None,
        }
    }

    /// A lease for changing. What the caller makes of it is what the store
    /// holds afterwards.
    pub fn get_mut(&mut self, lease_id: u64) -> (l: Option<&mut Lease>)
        requires
            old(self).well_formed(),
        ensures
            match l {
                Some(lease) => {
                    &&& held(old(self)@, lease_id)
                    &&& lease@ == lease_at(old(self)@, lease_id)
                    &&& final(self)@.leases == old(self)@.leases.update(
                        place_of(old(self)@, lease_id),
                        final(lease)@,
                    )
                    &&& final(self)@.next_id == old(self)@.next_id
                },
                None => !held(old(self)@, lease_id) && final(self)@ == old(self)@,
            },
    {
        match self.position(lease_id) {
            Some(i) => {
                let ghost before = self.leases@;
                proof {
                    assert(self@.leases[i as int] == before[i as int]@);
                    lease_at_is(self@, i as int);
                }
                let lease = &mut self.leases[i];
                proof {
                    assert(lease_views(before.update(i as int, *final(lease))) =~= lease_views(
                        before,
                    ).update(i as int, final(lease)@));
                }
                Some(lease)
            },
            None => None,
        }
    }

    /// Remove and return the lease, if present.
    pub fn release(&mut self, lease_id: u64) -> (l: Option<Lease>)
        requires
            old(self).well_formed(),
        ensures
            final(self).well_formed(),
            final(self)@ == without(old(self)@, lease_id),
            match l {
                Some(lease) => held(old(self)@, lease_id) && lease@ == lease_at(
                    old(self)@,
                    lease_id,
                ) && lease.work_unit.shutdown == old(self).token_of(lease_id),
                None => !held(old(self)@, lease_id),
            },
    {
        let ghost before = self@;
        proof {
            without_keeps_order(before, lease_id);
        }
        match self.position(lease_id) {
            Some(i) => {
                proof {
                    assert(before.leases[i as int] == self.leases@[i as int]@);
                    lease_at_is(before, i as int);
                    remove_is_filter(before, i as int);
                }
                let lease: Lease = self.leases.remove(i);
                assert(self@.leases =~= before.leases.remove(i as int));
                Some(lease)
            },
            None => {
                proof {
                    filter_prefix(before.leases, |l: LeaseView| l.lease_id != lease_id);
                }
                None
            },
        }
    }

    /// Remove and return every lease.
    pub fn drain_all(&mut self) -> (all: Vec<Lease>)
        ensures
            lease_views(all@) == old(self)@.leases,
            final(self)@ == (LeasesView { leases: Seq::empty(), ..old(self)@ }),
    {
        let mut all: Vec<Lease> = Vec::new();
        std::mem::swap(&mut all, &mut self.leases);
        assert(self@.leases =~= Seq::<LeaseView>::empty());
        all
    }

    pub fn len(&self) -> (n: usize)
        ensures
            n == self@.leases.len(),
    {
        self.leases.len()
    }

    pub fn is_empty(&self) -> (b: bool)
        ensures
            b == (self@.leases.len() == 0),
    {
        self.leases.len() == 0
    }

    /// Collect ids of all leases that have expired by `now`, *without*
    /// removing them. Callers typically follow up with `release`.
    pub fn expired_ids(&self, now: u64) -> (ids: Vec<u64>)
        ensures
            ids@ == lease_ids(self@.leases, |l: LeaseView| expired(l, now)),
    {
        let ghost p = |l: LeaseView| expired(l, now);
        let mut ids: Vec<u64> = Vec::new();
        let mut i: usize = 0;
        while i < self.leases.len()
            invariant
                i <= self.leases@.len(),
                p == (|l: LeaseView| expired(l, now)),
                ids@ == lease_ids(self@.leases.take(i as int), p),
            decreases self.leases@.len() - i,
        {
            proof {
                lease_ids_step(self@.leases, p, i as int);
            }
            if self.leases[i].is_expired(now) {
                ids.push(self.leases[i].lease_id);
            }
            i += 1;
        }
        assert(self@.leases.take(i as int) =~= self@.leases);
        ids
    }

    /// Renew a lease's deadline. Returns an error if the lease is unknown.
    pub fn renew(&mut self, lease_id: u64, ttl: u64, now: u64) -> (r: Result<(), SchedulerError>)
        requires
            old(self).well_formed(),
            now + ttl <= u64::MAX,
        ensures
            final(self).well_formed(),
            match r {
                Ok(_) => held(old(self)@, lease_id) && final(self)@ == renewed(
                    old(self)@,
                    lease_id,
                    (now + ttl) as u64,
                ),
                Err(e) => e == SchedulerError::UnknownLease(lease_id) && !held(
                    old(self)@,
                    lease_id,
                ) && final(self)@ == old(self)@,
            },
    {
        match self.position(lease_id) {
            Some(i) => {
                let ghost before = self@;
                let ghost leases0 = self.leases@;
                self.leases[i].expires_at = now + ttl;
                proof {
                    assert(before.leases[i as int] == leases0[i as int]@);
                    let after = renewed(before, lease_id, (now + ttl) as u64);
                    assert forall|k: int| 0 <= k < after.leases.len() implies
                        #[trigger] self@.leases[k] == after.leases[k] by {
                        if k != i {
                            assert(self.leases@[k] == leases0[k]);
                            assert(before.leases[k].lease_id != lease_id) by {
                                if k < i {
                                    assert(before.leases[k].lease_id
                                        < before.leases[i as int].lease_id);
                                } else {
                                    assert(before.leases[i as int].lease_id
                                        < before.leases[k].lease_id);
                                }
                            }
                        }
                    }
                    assert(self@.leases =~= after.leases);
                    renewal_keeps_order(before, lease_id, (now + ttl) as u64);
                }
                Ok(())
            },
            None => Err(SchedulerError::UnknownLease(lease_id)),
        }
    }

    /// True if `lease_id` names a lease held by `worker_id`.
    pub fn is_owned_by(&self, lease_id: u64, worker_id: u32) -> (b: bool)
        requires
            self.well_formed(),
        ensures
            b == owned(self@, lease_id, worker_id),
    {
        match self.get(lease_id) {
            Some(l) => l.worker_id == worker_id,
            None => false,
        }
    }

    /// Collect all lease ids currently held by `worker_id`.
    pub fn leases_for_worker(&self, worker_id: u32) -> (ids: Vec<u64>)
        ensures
            ids@ == lease_ids(self@.leases, |l: LeaseView| l.worker_id == worker_id),
    {
        let ghost p = |l: LeaseView| l.worker_id == worker_id;
        let mut ids: Vec<u64> = Vec::new();
        let mut i: usize = 0;
        while i < self.leases.len()
            invariant
                i <= self.leases@.len(),
                p == (|l: LeaseView| l.worker_id == worker_id),
                ids@ == lease_ids(self@.leases.take(i as int), p),
            decreases self.leases@.len() - i,
        {
            proof {
                lease_ids_step(self@.leases, p, i as int);
            }
            if self.leases[i].worker_id == worker_id {
                ids.push(self.leases[i].lease_id);
            }
            i += 1;
        }
        assert(self@.leases.take(i as int) =~= self@.leases);
        ids
    }
}

/// Renewal changes no identifier, node or worker, and no other lease.
pub proof fn renewal_keeps_order(s: LeasesView, id: u64, expires_at: u64)
    requires
        leases_ok(s),
    ensures
        leases_ok(renewed(s, id, expires_at)),
        forall|k: u64|
            #[trigger] held(renewed(s, id, expires_at), k) == held(s, k) && (held(s, k)
                ==> lease_at(renewed(s, id, expires_at), k) == (LeaseView {
                expires_at: if k == id {
                    expires_at
                } else {
                    lease_at(s, k).expires_at
                },
                ..lease_at(s, k)
            })),
{
    let r = renewed(s, id, expires_at);
    assert forall|a: int, b: int| 0 <= a < b < r.leases.len() implies (
    #[trigger] r.leases[a]).lease_id < (#[trigger] r.leases[b]).lease_id by {
        assert(s.leases[a].lease_id < s.leases[b].lease_id);
    }
    assert forall|a: int| 0 <= a < r.leases.len() implies (#[trigger] r.leases[a]).lease_id
        < r.next_id by {
        assert(s.leases[a].lease_id < s.next_id);
    }
    assert forall|k: u64| #[trigger] held(r, k) == held(s, k) && (held(s, k) ==> lease_at(r, k)
        == (LeaseView {
        expires_at: if k == id {
            expires_at
        } else {
            lease_at(s, k).expires_at
        },
        ..lease_at(s, k)
    })) by {
        if held(s, k) {
            let j = choose|j: int| 0 <= j < s.leases.len() && (#[trigger] s.leases[j]).lease_id == k;
            assert(r.leases[j].lease_id == k);
            lease_at_is(s, j);
            lease_at_is(r, j);
        }
        if held(r, k) {
            let j = choose|j: int| 0 <= j < r.leases.len() && (#[trigger] r.leases[j]).lease_id == k;
            assert(s.leases[j].lease_id == k);
        }
    }
}

} // verus!
