//! Feeding objects into a queue and draining them, with counters.

use vstd::prelude::*;

use crate::akx::knowledge::KnowledgeObject;
use crate::akx::reasoner::KnowledgeBatch;
use crate::bus::interface::{BusError, PublishHandle};
use crate::bus::queue::{InsertOutcome, Queue};
#[allow(unused_imports)]
use crate::akx::import;
#[allow(unused_imports)]
use crate::akx::knowledge::ObjectView;
#[allow(unused_imports)]
use crate::bus::queue;
#[allow(unused_imports)]
use crate::bus::queue::QueueView;

verus! {

/// Counters of a bus. They wrap around.
#[derive(Clone, Copy, Debug, PartialEq, Eq, Structural)]
pub struct Tally {
    pub published: u64,
    pub polled: u64,
    pub deduplicated: u64,
    pub evicted: u64,
    pub superseded: u64,
    pub backpressure: u64,
}

impl Default for Tally {
    fn default() -> (t: Self)
        ensures
            t == (Tally {
                published: 0,
                polled: 0,
                deduplicated: 0,
                evicted: 0,
                superseded: 0,
                backpressure: 0,
            }),
    {
        Tally {
            published: 0,
            polled: 0,
            deduplicated: 0,
            evicted: 0,
            superseded: 0,
            backpressure: 0,
        }
    }
}

/// The counters after one insertion.
pub open spec fn tallied(t: Tally, outcome: Option<InsertOutcome>) -> Tally {
    match outcome {
        Some(InsertOutcome::Inserted { superseded, evicted }) => Tally {
            published: t.published.wrapping_add(1),
            superseded: t.superseded.wrapping_add(superseded as u64),
            evicted: t.evicted.wrapping_add(evicted as u64),
            ..t
        },
        Some(_) => Tally { deduplicated: t.deduplicated.wrapping_add(1), ..t },
        None => Tally { backpressure: t.backpressure.wrapping_add(1), ..t },
    }
}

/// How far a batch has got: the queue, the counters, how many objects were
/// enqueued, and whether one was rejected, which ends the batch.
#[verifier::ext_equal]
pub struct Progress {
    pub queue: QueueView,
    pub tally: Tally,
    pub enqueued: nat,
    pub rejected: bool,
}

/// The state after the first `n` objects of a batch.
pub open spec fn fed(q: QueueView, t: Tally, batch: Seq<ObjectView>, n: int) -> Progress
    decreases n,
{
    if n <= 0 {
        Progress { queue: q, tally: t, enqueued: 0, rejected: false }
    } else {
        let before = fed(q, t, batch, n - 1);
        if before.rejected {
            before
        } else {
            let (after, outcome) = queue::inserted(before.queue, batch[n - 1]);
            Progress {
                queue: after,
                tally: tallied(before.tally, outcome),
                enqueued: before.enqueued + (if outcome matches Some(
                    InsertOutcome::Inserted { .. },
                ) {
                    1nat
                } else {
                    0
                }),
                rejected: outcome is None,
            }
        }
    }
}

/// A batch that was rejected at some object stays so.
proof fn rejection_ends(q: QueueView, t: Tally, batch: Seq<ObjectView>, i: int, n: int)
    requires
        0 <= i <= n,
        fed(q, t, batch, i).rejected,
    ensures
        fed(q, t, batch, n) == fed(q, t, batch, i),
    decreases n,
{
    if n > i {
        rejection_ends(q, t, batch, i, n - 1);
    }
}

/// Insert a batch into a queue, in order, until one object is rejected.
pub fn feed(q: &mut Queue, tally: &mut Tally, batch: KnowledgeBatch) -> (r: Result<
    PublishHandle,
    BusError,
>)
    requires
        old(q).well_formed(),
    ensures
        final(q).well_formed(),
        ({
            let end = fed(
                old(q)@,
                *old(tally),
                import::object_views(batch@),
                batch@.len() as int,
            );
            &&& final(q)@ == end.queue
            &&& *final(tally) == end.tally
            &&& match r {
                Ok(h) => !end.rejected && h.enqueued == end.enqueued,
                Err(e) => end.rejected && e == BusError::BufferFull,
            }
        }),
{
    let ghost q0 = q@;
    let ghost t0 = *tally;
    let ghost all = import::object_views(batch@);
    let total: usize = batch.len();
    let mut enqueued: usize = 0;
    let mut t: Tally = *tally;
    for obj in it: batch
        invariant
            all == import::object_views(it.seq()),
            all == import::object_views(batch@),
            q0 == old(q)@,
            t0 == *old(tally),
            q.well_formed(),
            q@ == fed(q0, t0, all, it.index() as int).queue,
            t == fed(q0, t0, all, it.index() as int).tally,
            !fed(q0, t0, all, it.index() as int).rejected,
            enqueued == fed(q0, t0, all, it.index() as int).enqueued,
            enqueued <= it.index(),
            it.seq().len() == total,
    {
        let ghost i = it.index() as int;
        assert(all[i] == it.seq()[i]@);
        match q.insert(obj) {
            Ok(InsertOutcome::Inserted { superseded, evicted }) => {
                t.superseded = t.superseded.wrapping_add(superseded as u64);
                t.evicted = t.evicted.wrapping_add(evicted as u64);
                t.published = t.published.wrapping_add(1);
                enqueued += 1;
            },
            Ok(_) => {
                t.deduplicated = t.deduplicated.wrapping_add(1);
            },
            Err(e) => {
                t.backpressure = t.backpressure.wrapping_add(1);
                *tally = t;
                proof {
                    rejection_ends(q0, t0, all, i + 1, all.len() as int);
                }
                return Err(e);
            },
        }
    }
    *tally = t;
    Ok(PublishHandle { enqueued })
}

/// How many objects a poll takes.
pub open spec fn share(q: QueueView, max_items: usize) -> int {
    if q.objs.len() < max_items {
        q.objs.len() as int
    } else {
        max_items as int
    }
}

/// Take up to `max_items` objects out of a queue, oldest first.
pub fn drain(q: &mut Queue, tally: &mut Tally, max_items: usize) -> (batch: KnowledgeBatch)
    requires
        old(q).well_formed(),
    ensures
        final(q).well_formed(),
        import::object_views(batch@) == old(q)@.objs.take(share(old(q)@, max_items)),
        final(q)@ == (QueueView {
            objs: old(q)@.objs.skip(share(old(q)@, max_items)),
            ..old(q)@
        }),
        *final(tally) == (Tally {
            polled: old(tally).polled.wrapping_add(share(old(q)@, max_items) as u64),
            ..*old(tally)
        }),
{
    let ghost a = q@.objs;
    let mut batch: Vec<KnowledgeObject> = Vec::new();
    proof {
        assert(import::object_views(batch@) =~= a.take(0));
        assert(a.skip(0) =~= a);
    }
    while batch.len() < max_items && q.len() > 0
        invariant
            a == old(q)@.objs,
            q.well_formed(),
            batch@.len() <= max_items,
            batch@.len() <= a.len(),
            import::object_views(batch@) == a.take(batch@.len() as int),
            q@ == (QueueView { objs: a.skip(batch@.len() as int), ..old(q)@ }),
        decreases q@.objs.len(),
    {
        let ghost n = batch@.len() as int;
        let ghost before = import::object_views(batch@);
        match q.pop_front() {
            Some(obj) => {
                let ghost v = obj@;
                batch.push(obj);
                proof {
                    assert(v == a[n]);
                    assert(import::object_views(batch@) =~= before.push(v));
                    assert(a.take(n + 1) =~= a.take(n).push(a[n]));
                    assert(a.skip(n).remove(0) =~= a.skip(n + 1));
                }
            },
            None => {},
        }
    }
    tally.polled = tally.polled.wrapping_add(batch.len() as u64);
    batch
}

} // verus!
