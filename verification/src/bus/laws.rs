//! What a bus promises of the objects that pass through it: none is lost or
//! made up without a reason, and every one is counted.

use vstd::prelude::*;

#[allow(unused_imports)]
use crate::akx::knowledge;
#[allow(unused_imports)]
use crate::akx::knowledge::{ObjectView, Scope, Utility, UTILITY_ONE};
#[allow(unused_imports)]
use crate::bus::flow;
#[allow(unused_imports)]
use crate::bus::flow::Tally;
#[allow(unused_imports)]
use crate::bus::hierarchy;
#[allow(unused_imports)]
use crate::bus::hierarchy::{HierView, Lift};
#[allow(unused_imports)]
use crate::bus::net;
#[allow(unused_imports)]
use crate::bus::net::Reading;
#[allow(unused_imports)]
use crate::bus::policy::EvictionPolicy;
#[allow(unused_imports)]
use crate::bus::queue;
#[allow(unused_imports)]
use crate::bus::queue::{InsertOutcome, QueueView};

verus! {

// ---------------------------------------------------------------------------
// Queues
// ---------------------------------------------------------------------------

/// A conditional version of what an unconditional object says.
pub open spec fn made_redundant(x: ObjectView, by: ObjectView) -> bool {
    &&& by.assumptions.len() == 0
    &&& x.assumptions.len() > 0
    &&& knowledge::bare_key_of(x) == knowledge::bare_key_of(by)
}

/// What can happen to an object that arrives.
///
/// It is a duplicate if one with its key is there; redundant if not, and its
/// conclusion is there unconditionally; and only if neither holds it can be
/// inserted or rejected. What is not inserted changes nothing.
pub proof fn arrivals_are_judged(q: QueueView, o: ObjectView)
    ensures
        ({
            let known = exists|i: int|
                0 <= i < q.objs.len() && knowledge::key_of(#[trigger] q.objs[i])
                    == knowledge::key_of(o);
            let said = exists|i: int|
                0 <= i < q.objs.len() && (#[trigger] q.objs[i]).assumptions.len() == 0
                    && knowledge::bare_key_of(q.objs[i]) == knowledge::bare_key_of(o);
            let (after, outcome) = queue::inserted(q, o);
            &&& outcome == Some(InsertOutcome::Duplicate) <==> known
            &&& outcome == Some(InsertOutcome::Redundant) <==> !known && said
            &&& !(outcome matches Some(InsertOutcome::Inserted { .. })) ==> after == q
            &&& after.cap == q.cap && after.eviction == q.eviction
        }),
{
    if queue::has_unconditional(q.objs, knowledge::bare_key_of(o)) {
        let i = choose|i: int|
            0 <= i < q.objs.len() && queue::is_unconditional(#[trigger] q.objs[i])
                && knowledge::bare_key_of(q.objs[i]) == knowledge::bare_key_of(o);
        assert(q.objs[i].assumptions.len() == 0);
    }
    if exists|i: int|
        0 <= i < q.objs.len() && (#[trigger] q.objs[i]).assumptions.len() == 0
            && knowledge::bare_key_of(q.objs[i]) == knowledge::bare_key_of(o) {
        let i = choose|i: int|
            0 <= i < q.objs.len() && (#[trigger] q.objs[i]).assumptions.len() == 0
                && knowledge::bare_key_of(q.objs[i]) == knowledge::bare_key_of(o);
        assert(queue::is_unconditional(q.objs[i]));
        assert(queue::has_unconditional(q.objs, knowledge::bare_key_of(o)));
    }
}

proof fn filter_keeps(objs: Seq<ObjectView>, ck: u64, x: ObjectView)
    ensures
        queue::without_conditionals(objs, ck).contains(x) <==> objs.contains(x)
            && !queue::superseded_by(x, ck),
        queue::without_conditionals(objs, ck).len() <= objs.len(),
    decreases objs.len(),
{
    reveal(Seq::filter);
    let p = |o: ObjectView| !queue::superseded_by(o, ck);
    if objs.len() > 0 {
        let t = objs.drop_last();
        filter_keeps(t, ck, x);
        let a = queue::without_conditionals(t, ck);
        let b = queue::without_conditionals(objs, ck);
        if objs.contains(x) {
            let i = choose|i: int| 0 <= i < objs.len() && objs[i] == x;
            if i < t.len() {
                assert(t[i] == x);
            }
        }
        if t.contains(x) {
            let i = choose|i: int| 0 <= i < t.len() && t[i] == x;
            assert(objs[i] == x);
        }
        assert(objs[objs.len() - 1] == objs.last());
        if p(objs.last()) {
            assert(b =~= a.push(objs.last()));
            if b.contains(x) {
                let i = choose|i: int| 0 <= i < b.len() && b[i] == x;
                if i < a.len() {
                    assert(a[i] == x);
                }
            }
            if a.contains(x) {
                let i = choose|i: int| 0 <= i < a.len() && a[i] == x;
                assert(b[i] == x);
            }
            if objs.last() == x {
                assert(b[a.len() as int] == x);
            }
        } else {
            assert(b =~= a);
        }
    }
}

/// An object that is inserted goes to the end, and nothing is made up. Without
/// an eviction the queue loses what the object makes redundant, and nothing
/// else.
pub proof fn insertions_keep_the_rest(q: QueueView, o: ObjectView, x: ObjectView)
    requires
        queue::queue_ok(q),
        queue::inserted(q, o).1 matches Some(InsertOutcome::Inserted { .. }),
    ensures
        ({
            let (after, outcome) = queue::inserted(q, o);
            let superseded = outcome->0->Inserted_superseded;
            let evicted = outcome->0->Inserted_evicted;
            &&& after.objs.len() > 0 && after.objs.last() == o
            &&& after.objs.drop_last().contains(x) ==> q.objs.contains(x) && !made_redundant(x, o)
            &&& evicted == 0 && q.objs.contains(x) && !made_redundant(x, o)
                ==> after.objs.drop_last().contains(x)
            &&& after.objs.len() + superseded + evicted == q.objs.len() + 1
            &&& superseded == 0 && evicted == 0 && o.assumptions.len() > 0 ==> after.objs
                == q.objs.push(o)
        }),
{
    let ck = knowledge::bare_key_of(o);
    let (after, outcome) = queue::inserted(q, o);
    let rest = if queue::is_unconditional(o) {
        queue::without_conditionals(q.objs, ck)
    } else {
        q.objs
    };
    filter_keeps(q.objs, ck, x);
    let (objs, _gone) = queue::room(QueueView { objs: rest, ..q }, o.utility)->0;
    assert(after.objs == objs.push(o));
    assert(after.objs.drop_last() =~= objs);
    let evicted = outcome->0->Inserted_evicted;
    if rest.len() >= q.cap && rest.len() > 0 {
        queue::lowest_is_oldest_least(rest);
        let k = if q.eviction == EvictionPolicy::Oldest {
            0
        } else {
            queue::lowest(rest)
        };
        assert(objs == rest.remove(k));
        if objs.contains(x) {
            let i = choose|i: int| 0 <= i < objs.len() && objs[i] == x;
            assert(rest[if i < k {
                i
            } else {
                i + 1
            }] == x);
        }
    }
}

/// What a full queue evicts for an object that makes nothing redundant: the
/// oldest object, or the oldest of those with the lowest utility if that is
/// lower than the newcomer's; a queue that rejects evicts nothing.
pub proof fn evictions_follow_the_policy(q: QueueView, o: ObjectView) -> (k: int)
    requires
        q.objs.len() == q.cap,
        q.cap > 0,
        o.assumptions.len() > 0,
        !queue::has_key(q.objs, knowledge::key_of(o)),
        !queue::has_unconditional(q.objs, knowledge::bare_key_of(o)),
    ensures
        ({
            let (after, outcome) = queue::inserted(q, o);
            &&& 0 <= k < q.objs.len()
            &&& q.eviction == EvictionPolicy::RejectIncoming ==> outcome is None && after == q
            &&& q.eviction == EvictionPolicy::Oldest ==> k == 0
            &&& q.eviction != EvictionPolicy::RejectIncoming && q.eviction
                != EvictionPolicy::Oldest ==> {
                &&& forall|i: int|
                    0 <= i < q.objs.len() ==> q.objs[k].utility <= (#[trigger] q.objs[i]).utility
                &&& forall|i: int|
                    0 <= i < k ==> q.objs[k].utility < (#[trigger] q.objs[i]).utility
                &&& outcome is None <==> q.objs[k].utility >= o.utility
            }
            &&& outcome is None ==> after == q && q.eviction != EvictionPolicy::Oldest
            &&& outcome is Some ==> after.objs == q.objs.remove(k).push(o) && outcome == Some(
                InsertOutcome::Inserted { superseded: 0, evicted: 1 },
            )
        }),
{
    queue::lowest_is_oldest_least(q.objs);
    if q.eviction == EvictionPolicy::Oldest {
        0
    } else {
        queue::lowest(q.objs)
    }
}

// ---------------------------------------------------------------------------
// Counters
// ---------------------------------------------------------------------------

/// Every object of a batch is counted once, and the queue has what was
/// published less what was superseded and evicted.
pub proof fn objects_are_accounted_for(q: QueueView, batch: Seq<ObjectView>, n: int)
    requires
        queue::queue_ok(q),
        0 <= n <= batch.len(),
        q.objs.len() + batch.len() <= u64::MAX,
    ensures
        ({
            let zero = Tally {
                published: 0,
                polled: 0,
                deduplicated: 0,
                evicted: 0,
                superseded: 0,
                backpressure: 0,
            };
            let end = flow::fed(q, zero, batch, n);
            let t = end.tally;
            &&& queue::queue_ok(end.queue)
            &&& end.queue.cap == q.cap
            &&& end.rejected <==> t.backpressure == 1
            &&& !end.rejected ==> t.backpressure == 0 && t.published + t.deduplicated == n
            &&& end.rejected ==> t.published + t.deduplicated < n
            &&& end.enqueued == t.published
            &&& end.queue.objs.len() + t.superseded + t.evicted == q.objs.len() + t.published
            &&& t.polled == 0
        }),
    decreases n,
{
    if n > 0 {
        objects_are_accounted_for(q, batch, n - 1);
        let zero = Tally {
            published: 0,
            polled: 0,
            deduplicated: 0,
            evicted: 0,
            superseded: 0,
            backpressure: 0,
        };
        let before = flow::fed(q, zero, batch, n - 1);
        if !before.rejected {
            let o = batch[n - 1];
            queue::insertion_keeps_order(before.queue, o);
            arrivals_are_judged(before.queue, o);
            if queue::inserted(before.queue, o).1 matches Some(InsertOutcome::Inserted { .. }) {
                insertions_keep_the_rest(before.queue, o, o);
            }
        }
    }
}

/// A poll takes as many objects as are asked for, or all.
pub proof fn polls_take_what_is_there(q: QueueView, max_items: usize)
    ensures
        flow::share(q, max_items) <= max_items,
        flow::share(q, max_items) <= q.objs.len(),
        flow::share(q, max_items) == max_items || flow::share(q, max_items) == q.objs.len(),
{
}

// ---------------------------------------------------------------------------
// Promotion
// ---------------------------------------------------------------------------

/// A scope and the one above it.
pub open spec fn one_up(from: Scope, to: Scope) -> bool {
    ||| from == Scope::Local && to == Scope::Process
    ||| from == Scope::Process && to == Scope::Node
    ||| from == Scope::Node && to == Scope::Global
}

/// An object that is useful enough is promoted to the scope above its own: it
/// joins the target, the same but for its scope, unless the target knows it or
/// has no room.
pub proof fn useful_objects_are_promoted(
    s: Lift,
    o: ObjectView,
    to: Scope,
    threshold: Utility,
)
    requires
        queue::queue_ok(s.target),
        s.target.objs.len() < s.target.cap,
        one_up(o.scope, to),
        o.utility >= threshold,
        threshold < UTILITY_ONE,
        !queue::has_key(s.target.objs, knowledge::key_of(o)),
        !queue::has_unconditional(s.target.objs, knowledge::bare_key_of(o)),
    ensures
        ({
            let after = hierarchy::lift_one(s, o, to, threshold);
            let last = after.target.objs.last();
            &&& after.count == s.count + 1
            &&& after.target.objs.len() > 0
            &&& last.scope == to
            &&& last == (ObjectView { scope: last.scope, ..o })
        }),
{
    let moved = hierarchy::at_scope(o, to);
    assert(knowledge::key_of(moved) == knowledge::key_of(o));
    assert(knowledge::bare_key_of(moved) == knowledge::bare_key_of(o));
    filter_keeps(s.target.objs, knowledge::bare_key_of(o), o);
    arrivals_are_judged(s.target, moved);
}

/// An object of another scope, or one that is not useful enough, stays out of
/// the target.
pub proof fn other_objects_stay(s: Lift, o: ObjectView, to: Scope, threshold: Utility)
    requires
        !one_up(o.scope, to) || o.utility < threshold || threshold >= UTILITY_ONE,
    ensures
        hierarchy::lift_one(s, o, to, threshold).target == s.target,
        hierarchy::lift_one(s, o, to, threshold).count == s.count,
        hierarchy::lift_one(s, o, to, threshold).tally == s.tally,
{
}

// ---------------------------------------------------------------------------
// Frames
// ---------------------------------------------------------------------------

/// Frames on the wire: four bytes of the version, four bytes of the length of
/// the payload, the lowest byte first, and the payload.
pub proof fn frames_on_the_wire(version: u32, payload: Seq<u8>, i: int)
    requires
        payload.len() <= u32::MAX,
        0 <= i < payload.len(),
    ensures
        ({
            let f = net::frame_bytes(version, payload);
            &&& f.len() == 8 + payload.len()
            &&& f[0] == version % 256
            &&& f[1] == version as int / 256 % 256
            &&& f[2] == version as int / 65_536 % 256
            &&& f[3] == version as int / 16_777_216
            &&& f[4] == payload.len() % 256
            &&& f[5] == payload.len() as int / 256 % 256
            &&& f[6] == payload.len() as int / 65_536 % 256
            &&& f[7] == payload.len() as int / 16_777_216
            &&& f[8 + i] == payload[i]
        }),
{
}

/// A frame whose payload is longer than the limit is refused as soon as its
/// header is there, and the refusal says how long it is.
pub proof fn oversized_frames_are_refused(
    version: u32,
    payload: Seq<u8>,
    n: int,
    max_frame: int,
)
    requires
        max_frame < payload.len() <= u32::MAX,
        8 <= n <= 8 + payload.len(),
    ensures
        net::reading(net::frame_bytes(version, payload).take(n), max_frame) == (
        Reading::TooLarge { len: payload.len() as int }),
{
    let part = net::frame_bytes(version, payload).take(n);
    net::number_round_trip(payload.len() as u32);
    assert(part.subrange(4, 8) =~= net::le_bytes(payload.len() as u32));
}

// ---------------------------------------------------------------------------
// Levels
// ---------------------------------------------------------------------------

/// A level has room for what was asked for, and for one object at least; sums
/// stop at the largest number; and every object that came counts as offered.
pub proof fn levels_and_sums(cap: usize, eviction: EvictionPolicy, n: nat, t: Tally)
    ensures
        queue::queue_ok(hierarchy::empty_level(cap, eviction)),
        cap > 0 ==> hierarchy::empty_level(cap, eviction).cap == cap,
        hierarchy::empty_level(cap, eviction).eviction == eviction,
        hierarchy::capped(n) <= n,
        n <= u64::MAX ==> hierarchy::capped(n) == n,
        t.published + t.deduplicated <= u64::MAX ==> hierarchy::offered(t) == t.published
            + t.deduplicated,
{
}

/// Every object of a level that is promoted is counted once: as promoted, as
/// already there, as already global, as of another scope, as not useful enough,
/// or as rejected for want of room.
pub proof fn promotions_are_accounted_for(
    s: Lift,
    source: Seq<ObjectView>,
    to: Scope,
    threshold: Utility,
    n: int,
)
    requires
        0 <= n <= source.len() <= u64::MAX,
        s.count == 0,
        s.tally.backpressure == 0,
        s.promotions.deduplicated == 0,
        s.promotions.at_cap == 0,
        s.promotions.not_eligible == 0,
        s.promotions.below_threshold == 0,
    ensures
        ({
            let l = hierarchy::lifted(s, source, to, threshold, n);
            l.count + l.promotions.deduplicated + l.promotions.at_cap + l.promotions.not_eligible
                + l.promotions.below_threshold + l.tally.backpressure == n
        }),
    decreases n,
{
    if n > 0 {
        promotions_are_accounted_for(s, source, to, threshold, n - 1);
    }
}

/// A whole level is promoted, object by object, and what was promoted before
/// counts on.
pub proof fn whole_levels_are_promoted(h: HierView, from: int)
    requires
        h.levels.len() == 4,
        0 <= from < 3,
    ensures
        ({
            let s = Lift {
                target: h.levels[from + 1],
                tally: h.tally,
                promotions: h.promotions,
                count: 0,
            };
            let l = hierarchy::lifted(
                s,
                h.levels[from].objs,
                hierarchy::above(from),
                h.threshold,
                h.levels[from].objs.len() as int,
            );
            &&& hierarchy::promoted(h, from).levels[from + 1] == l.target
            &&& hierarchy::promoted_count(h, from) == l.count
            &&& hierarchy::promoted(h, from).threshold == h.threshold
        }),
{
}

} // verus!
