//! Shared bounded queue with eviction and superseding. Used by both the
//! in-process bus and the hierarchical router.

use vstd::prelude::*;

use crate::akx::fx;
use crate::akx::knowledge::{canonical_key, conclusion_key, KnowledgeObject, Utility};
use crate::bus::interface::BusError;
use crate::bus::policy::EvictionPolicy;
use rustc_hash::FxHashSet;
use std::collections::VecDeque;
#[allow(unused_imports)]
use crate::akx::import;
#[allow(unused_imports)]
use crate::akx::knowledge;
#[allow(unused_imports)]
use crate::akx::knowledge::ObjectView;

verus! {

/// Outcome of inserting one object into a [`Queue`].
#[derive(Debug, Clone, Copy, PartialEq, Eq, Structural)]
pub enum InsertOutcome {
    /// The object was accepted into the buffer.
    Inserted {
        /// Number of conditional versions of the same conclusion that were
        /// evicted as superseded.
        superseded: usize,
        /// Number of items evicted to make room.
        evicted: usize,
    },
    /// Duplicate of an object already buffered (same canonical key).
    Duplicate,
    /// Redundant: a conditional whose conclusion already has an unconditional
    /// version buffered, or an unconditional already present.
    Redundant,
}

/// The bounded buffer plus the indexing needed for dedup/supersede/evict.
pub struct Queue {
    buf: VecDeque<KnowledgeObject>,
    cap: usize,
    eviction: EvictionPolicy,
    /// Canonical keys of objects currently buffered.
    keys: FxHashSet<u64>,
    /// Conclusion keys that have an unconditional version currently buffered.
    /// A conditional of such a conclusion is redundant and dropped on arrival.
    unconditional: FxHashSet<u64>,
}

/// The contents of a queue, oldest first.
#[verifier::ext_equal]
pub struct QueueView {
    pub objs: Seq<ObjectView>,
    pub cap: usize,
    pub eviction: EvictionPolicy,
}

pub open spec fn is_unconditional(o: ObjectView) -> bool {
    o.assumptions.len() == 0
}

/// An object with this canonical key is buffered.
pub open spec fn has_key(objs: Seq<ObjectView>, key: u64) -> bool {
    exists|i: int| 0 <= i < objs.len() && knowledge::key_of(#[trigger] objs[i]) == key
}

/// An unconditional object with this conclusion key is buffered.
pub open spec fn has_unconditional(objs: Seq<ObjectView>, ck: u64) -> bool {
    exists|i: int|
        0 <= i < objs.len() && is_unconditional(#[trigger] objs[i]) && knowledge::bare_key_of(
            objs[i],
        ) == ck
}

/// Two objects may be buffered together: they are no duplicates, and neither
/// makes the other redundant.
pub open spec fn compatible(a: ObjectView, b: ObjectView) -> bool {
    &&& knowledge::key_of(a) != knowledge::key_of(b)
    &&& is_unconditional(a) || is_unconditional(b) ==> knowledge::bare_key_of(a)
        != knowledge::bare_key_of(b)
}

/// The queue is in order: within its capacity, without duplicates, and without
/// a conditional version of a conclusion that is there unconditionally.
pub open spec fn queue_ok(q: QueueView) -> bool {
    &&& 1 <= q.cap
    &&& q.objs.len() <= q.cap
    &&& forall|i: int, j: int|
        0 <= i < j < q.objs.len() ==> compatible(#[trigger] q.objs[i], #[trigger] q.objs[j])
}

/// A conditional version of a conclusion.
pub open spec fn superseded_by(o: ObjectView, ck: u64) -> bool {
    !is_unconditional(o) && knowledge::bare_key_of(o) == ck
}

/// The objects without the conditional versions of a conclusion.
pub open spec fn without_conditionals(objs: Seq<ObjectView>, ck: u64) -> Seq<ObjectView> {
    objs.filter(|o: ObjectView| !superseded_by(o, ck))
}

/// The position of the lowest utility, the oldest of several.
pub open spec fn lowest(objs: Seq<ObjectView>) -> int
    decreases objs.len(),
{
    if objs.len() <= 1 {
        0
    } else {
        let k = lowest(objs.drop_last());
        if objs.last().utility < objs[k].utility {
            objs.len() - 1
        } else {
            k
        }
    }
}

/// The objects after making room for one more, and how many were evicted;
/// `None` if the newcomer has to be rejected.
pub open spec fn room(q: QueueView, utility: Utility) -> Option<(Seq<ObjectView>, usize)> {
    if q.objs.len() < q.cap {
        Some((q.objs, 0))
    } else {
        match q.eviction {
            EvictionPolicy::Oldest => Some((q.objs.remove(0), 1)),
            EvictionPolicy::RejectIncoming => None,
            _ => if q.objs[lowest(q.objs)].utility < utility {
                Some((q.objs.remove(lowest(q.objs)), 1))
            } else {
                None
            },
        }
    }
}

/// The queue after inserting an object, and the outcome; `None` if the object
/// was rejected under back-pressure, which leaves the queue as it was.
pub open spec fn inserted(q: QueueView, o: ObjectView) -> (QueueView, Option<InsertOutcome>) {
    let ck = knowledge::bare_key_of(o);
    if has_key(q.objs, knowledge::key_of(o)) {
        (q, Some(InsertOutcome::Duplicate))
    } else if has_unconditional(q.objs, ck) {
        (q, Some(InsertOutcome::Redundant))
    } else {
        let rest = if is_unconditional(o) {
            without_conditionals(q.objs, ck)
        } else {
            q.objs
        };
        match room(QueueView { objs: rest, ..q }, o.utility) {
            None => (q, None),
            Some((objs, evicted)) => (
                QueueView { objs: objs.push(o), ..q },
                Some(
                    InsertOutcome::Inserted {
                        superseded: (q.objs.len() - rest.len()) as usize,
                        evicted,
                    },
                ),
            ),
        }
    }
}

// ---------------------------------------------------------------------------
// Lemmas and laws
// ---------------------------------------------------------------------------

/// The lowest position is one, holds the least utility, and everything before
/// it has more.
pub proof fn lowest_is_oldest_least(objs: Seq<ObjectView>)
    requires
        objs.len() > 0,
    ensures
        0 <= lowest(objs) < objs.len(),
        forall|i: int|
            0 <= i < objs.len() ==> (#[trigger] objs[i]).utility >= objs[lowest(objs)].utility,
        forall|i: int|
            0 <= i < lowest(objs) ==> (#[trigger] objs[i]).utility > objs[lowest(objs)].utility,
    decreases objs.len(),
{
    if objs.len() > 1 {
        let t = objs.drop_last();
        lowest_is_oldest_least(t);
        assert forall|i: int| 0 <= i < objs.len() implies (#[trigger] objs[i]).utility
            >= objs[lowest(objs)].utility by {
            if i < t.len() {
                assert(t[i] == objs[i]);
            }
        }
        assert forall|i: int| 0 <= i < lowest(objs) implies (#[trigger] objs[i]).utility
            > objs[lowest(objs)].utility by {
            assert(t[i] == objs[i]);
        }
    }
}

/// Taking out one object takes out its keys and keeps the rest in order.
proof fn remove_facts(q: QueueView, i: int)
    requires
        queue_ok(q),
        0 <= i < q.objs.len(),
    ensures
        queue_ok(QueueView { objs: q.objs.remove(i), ..q }),
        forall|k: u64| #[trigger]
            has_key(q.objs.remove(i), k) <==> has_key(q.objs, k) && k != knowledge::key_of(
                q.objs[i],
            ),
        forall|k: u64| #[trigger]
            has_unconditional(q.objs.remove(i), k) <==> has_unconditional(q.objs, k) && !(
            is_unconditional(q.objs[i]) && k == knowledge::bare_key_of(q.objs[i])),
{
    let a = q.objs;
    let b = q.objs.remove(i);
    assert forall|x: int, y: int| 0 <= x < y < b.len() implies compatible(
        #[trigger] b[x],
        #[trigger] b[y],
    ) by {
        let x0 = if x < i { x } else { x + 1 };
        let y0 = if y < i { y } else { y + 1 };
        assert(compatible(a[x0], a[y0]));
    }
    assert forall|x: int| 0 <= x < a.len() && x != i implies compatible(#[trigger] a[x], a[i]) by {
        if x < i {
            assert(compatible(a[x], a[i]));
        } else {
            assert(compatible(a[i], a[x]));
        }
    }
    assert forall|k: u64| #[trigger] has_key(b, k) <==> has_key(a, k) && k != knowledge::key_of(
        a[i],
    ) by {
        if has_key(b, k) {
            let x = choose|x: int| 0 <= x < b.len() && knowledge::key_of(#[trigger] b[x]) == k;
            let x0 = if x < i { x } else { x + 1 };
            assert(a[x0] == b[x]);
        }
        if has_key(a, k) && k != knowledge::key_of(a[i]) {
            let x = choose|x: int| 0 <= x < a.len() && knowledge::key_of(#[trigger] a[x]) == k;
            let x1 = if x < i { x } else { x - 1 };
            assert(b[x1] == a[x]);
        }
    }
    assert forall|k: u64| #[trigger] has_unconditional(b, k) <==> has_unconditional(a, k) && !(
    is_unconditional(a[i]) && k == knowledge::bare_key_of(a[i])) by {
        if has_unconditional(b, k) {
            let x = choose|x: int|
                0 <= x < b.len() && is_unconditional(#[trigger] b[x]) && knowledge::bare_key_of(
                    b[x],
                ) == k;
            let x0 = if x < i { x } else { x + 1 };
            assert(a[x0] == b[x]);
        }
        if has_unconditional(a, k) && !(is_unconditional(a[i]) && k == knowledge::bare_key_of(
            a[i],
        )) {
            let x = choose|x: int|
                0 <= x < a.len() && is_unconditional(#[trigger] a[x]) && knowledge::bare_key_of(
                    a[x],
                ) == k;
            let x1 = if x < i { x } else { x - 1 };
            assert(b[x1] == a[x]);
        }
    }
}

/// Adding one compatible object adds its keys and keeps the queue in order.
pub proof fn push_facts(q: QueueView, o: ObjectView)
    requires
        queue_ok(q),
        q.objs.len() < q.cap,
        forall|i: int| 0 <= i < q.objs.len() ==> compatible(#[trigger] q.objs[i], o),
    ensures
        queue_ok(QueueView { objs: q.objs.push(o), ..q }),
        forall|k: u64| #[trigger]
            has_key(q.objs.push(o), k) <==> has_key(q.objs, k) || k == knowledge::key_of(o),
        forall|k: u64| #[trigger]
            has_unconditional(q.objs.push(o), k) <==> has_unconditional(q.objs, k) || (
            is_unconditional(o) && k == knowledge::bare_key_of(o)),
{
    let a = q.objs;
    let b = a.push(o);
    assert forall|x: int, y: int| 0 <= x < y < b.len() implies compatible(
        #[trigger] b[x],
        #[trigger] b[y],
    ) by {
        if y < a.len() {
            assert(compatible(a[x], a[y]));
        } else {
            assert(compatible(a[x], o));
        }
    }
    assert(b[a.len() as int] == o);
    assert forall|k: u64| #[trigger] has_key(b, k) <==> has_key(a, k) || k == knowledge::key_of(
        o,
    ) by {
        if has_key(a, k) {
            let x = choose|x: int| 0 <= x < a.len() && knowledge::key_of(#[trigger] a[x]) == k;
            assert(b[x] == a[x]);
        }
        if has_key(b, k) && k != knowledge::key_of(o) {
            let x = choose|x: int| 0 <= x < b.len() && knowledge::key_of(#[trigger] b[x]) == k;
            assert(a[x] == b[x]);
        }
    }
    assert forall|k: u64| #[trigger] has_unconditional(b, k) <==> has_unconditional(a, k) || (
    is_unconditional(o) && k == knowledge::bare_key_of(o)) by {
        if has_unconditional(a, k) {
            let x = choose|x: int|
                0 <= x < a.len() && is_unconditional(#[trigger] a[x]) && knowledge::bare_key_of(
                    a[x],
                ) == k;
            assert(b[x] == a[x]);
        }
        if has_unconditional(b, k) && !(is_unconditional(o) && k == knowledge::bare_key_of(o)) {
            let x = choose|x: int|
                0 <= x < b.len() && is_unconditional(#[trigger] b[x]) && knowledge::bare_key_of(
                    b[x],
                ) == k;
            assert(a[x] == b[x]);
        }
    }
}

/// An object is compatible with the buffered ones if it is no duplicate, no
/// unconditional version is there and, should it be unconditional itself, no
/// conditional one either.
proof fn newcomer_compatible(objs: Seq<ObjectView>, o: ObjectView)
    requires
        !has_key(objs, knowledge::key_of(o)),
        !has_unconditional(objs, knowledge::bare_key_of(o)),
        is_unconditional(o) ==> forall|i: int|
            0 <= i < objs.len() ==> !superseded_by(
                #[trigger] objs[i],
                knowledge::bare_key_of(o),
            ),
    ensures
        forall|i: int| 0 <= i < objs.len() ==> compatible(#[trigger] objs[i], o),
{
    assert forall|i: int| 0 <= i < objs.len() implies compatible(#[trigger] objs[i], o) by {
        assert(knowledge::key_of(objs[i]) != knowledge::key_of(o));
    }
}

/// Leaving out the conditional versions of a conclusion keeps the order and
/// the unconditional objects, and adds no key.
pub proof fn supersede_facts(q: QueueView, ck: u64)
    requires
        queue_ok(q),
    ensures
        queue_ok(QueueView { objs: without_conditionals(q.objs, ck), ..q }),
        forall|k: u64| #[trigger]
            has_unconditional(without_conditionals(q.objs, ck), k) == has_unconditional(q.objs, k),
        forall|k: u64|
            #[trigger] has_key(without_conditionals(q.objs, ck), k) ==> has_key(q.objs, k),
        forall|i: int|
            0 <= i < without_conditionals(q.objs, ck).len() ==> !superseded_by(
                #[trigger] without_conditionals(q.objs, ck)[i],
                ck,
            ),
        without_conditionals(q.objs, ck).len() <= q.objs.len(),
    decreases q.objs.len(),
{
    reveal(Seq::filter);
    let a = q.objs;
    let p = |o: ObjectView| !superseded_by(o, ck);
    if a.len() > 0 {
        let t = QueueView { objs: a.drop_last(), ..q };
        assert forall|i: int, j: int| 0 <= i < j < t.objs.len() implies compatible(
            #[trigger] t.objs[i],
            #[trigger] t.objs[j],
        ) by {
            assert(compatible(a[i], a[j]));
        }
        supersede_facts(t, ck);
        let u = without_conditionals(t.objs, ck);
        let o = a.last();
        assert(a =~= t.objs.push(o));
        assert forall|i: int| 0 <= i < t.objs.len() implies compatible(
            #[trigger] t.objs[i],
            o,
        ) by {
            assert(compatible(a[i], a[a.len() - 1]));
        }
        push_facts(QueueView { objs: t.objs, cap: q.cap, eviction: q.eviction }, o);
        if p(o) {
            assert(without_conditionals(a, ck) == u.push(o));
            // What is compatible with all is compatible with a part.
            assert forall|i: int| 0 <= i < u.len() implies compatible(#[trigger] u[i], o) by {
                assert(t.objs.filter(p).contains(u[i]));
                t.objs.lemma_filter_contains_rev(p, u[i]);
                assert(t.objs.contains(u[i]));
                let k = choose|k: int| 0 <= k < t.objs.len() && t.objs[k] == u[i];
                assert(compatible(t.objs[k], o));
            }
            push_facts(QueueView { objs: u, ..q }, o);
        }
    } else {
        assert(without_conditionals(a, ck) =~= a);
    }
}

/// Making room keeps the order, adds no key and no unconditional object, and
/// leaves room.
proof fn room_facts(q: QueueView, utility: Utility)
    requires
        queue_ok(q),
        room(q, utility) is Some,
    ensures
        ({
            let (objs, _evicted) = room(q, utility)->0;
            &&& queue_ok(QueueView { objs, ..q })
            &&& objs.len() < q.cap
            &&& forall|k: u64| #[trigger] has_key(objs, k) ==> has_key(q.objs, k)
            &&& forall|k: u64| #[trigger]
                has_unconditional(objs, k) ==> has_unconditional(q.objs, k)
            &&& forall|i: int| 0 <= i < objs.len() ==> q.objs.contains(#[trigger] objs[i])
        }),
{
    let (objs, _evicted) = room(q, utility)->0;
    if q.objs.len() < q.cap {
        assert forall|i: int| 0 <= i < objs.len() implies q.objs.contains(#[trigger] objs[i]) by {
            assert(q.objs[i] == objs[i]);
        }
    } else {
        lowest_is_oldest_least(q.objs);
        let v: int = if q.eviction == EvictionPolicy::Oldest {
            0
        } else {
            lowest(q.objs)
        };
        remove_facts(q, v);
        assert forall|i: int| 0 <= i < objs.len() implies q.objs.contains(#[trigger] objs[i]) by {
            let i0 = if i < v { i } else { i + 1 };
            assert(q.objs[i0] == objs[i]);
        }
    }
}

/// Inserting keeps a queue in order: never over capacity, never a duplicate,
/// and never a conditional version beside an unconditional one.
pub proof fn insertion_keeps_order(q: QueueView, o: ObjectView)
    requires
        queue_ok(q),
    ensures
        queue_ok(inserted(q, o).0),
{
    let ck = knowledge::bare_key_of(o);
    if !has_key(q.objs, knowledge::key_of(o)) && !has_unconditional(q.objs, ck) {
        supersede_facts(q, ck);
        let rest = if is_unconditional(o) {
            without_conditionals(q.objs, ck)
        } else {
            q.objs
        };
        let r = QueueView { objs: rest, ..q };
        if room(r, o.utility) is Some {
            room_facts(r, o.utility);
            let (objs, _evicted) = room(r, o.utility)->0;
            assert(!has_key(objs, knowledge::key_of(o)));
            assert(!has_unconditional(objs, ck));
            if is_unconditional(o) {
                assert forall|i: int| 0 <= i < objs.len() implies !superseded_by(
                    #[trigger] objs[i],
                    ck,
                ) by {
                    assert(rest.contains(objs[i]));
                    let k = choose|k: int| 0 <= k < rest.len() && rest[k] == objs[i];
                    assert(!superseded_by(rest[k], ck));
                }
            }
            newcomer_compatible(objs, o);
            push_facts(QueueView { objs, ..q }, o);
        }
    }
}

/// An accepted object is the newest in the queue, and inserting it again finds
/// a duplicate.
pub proof fn insertion_is_idempotent(q: QueueView, o: ObjectView)
    requires
        queue_ok(q),
        inserted(q, o).1 matches Some(InsertOutcome::Inserted { .. }),
    ensures
        inserted(q, o).0.objs.last() == o,
        inserted(inserted(q, o).0, o) == (inserted(q, o).0, Some(InsertOutcome::Duplicate)),
{
    let b = inserted(q, o).0.objs;
    assert(knowledge::key_of(b[b.len() - 1]) == knowledge::key_of(o));
}

/// Under back-pressure by utility nothing buffered has less utility than what
/// was rejected, and what is evicted has less than what replaced it.
pub proof fn eviction_prefers_utility(q: QueueView, utility: Utility)
    requires
        queue_ok(q),
        q.objs.len() == q.cap,
        q.eviction == EvictionPolicy::LowestUtility || q.eviction
            == EvictionPolicy::LowestUtilityThenOldest,
    ensures
        room(q, utility) is None <==> forall|i: int|
            0 <= i < q.objs.len() ==> (#[trigger] q.objs[i]).utility >= utility,
{
    lowest_is_oldest_least(q.objs);
}

impl Queue {
    pub closed spec fn view(&self) -> QueueView {
        QueueView {
            objs: import::object_views(self.buf@),
            cap: self.cap,
            eviction: self.eviction,
        }
    }

    /// The contents are in order and the two indexes agree with them.
    pub closed spec fn well_formed(&self) -> bool {
        &&& queue_ok(self@)
        &&& forall|k: u64| #[trigger] self.keys@.contains(k) <==> has_key(self@.objs, k)
        &&& forall|k: u64| #[trigger]
            self.unconditional@.contains(k) <==> has_unconditional(self@.objs, k)
    }

    /// The contents of a queue in use are in order.
    pub proof fn in_order(&self)
        requires
            self.well_formed(),
        ensures
            queue_ok(self@),
    {
    }

    pub fn new(cap: usize, eviction: EvictionPolicy) -> (q: Self)
        ensures
            q.well_formed(),
            q@ == (QueueView {
                objs: Seq::empty(),
                cap: if cap == 0 {
                    1
                } else {
                    cap
                },
                eviction,
            }),
    {
        let q = Queue {
            buf: VecDeque::with_capacity(
                if cap < 1024 {
                    cap
                } else {
                    1024
                },
            ),
            cap: if cap == 0 {
                1
            } else {
                cap
            },
            eviction,
            keys: fx::set_new(),
            unconditional: fx::set_new(),
        };
        assert(q@.objs =~= Seq::<ObjectView>::empty());
        q
    }

    /// Number of objects currently buffered.
    pub fn len(&self) -> (n: usize)
        ensures
            n == self@.objs.len(),
    {
        self.buf.len()
    }

    /// Capacity of the buffer.
    pub fn cap(&self) -> (n: usize)
        ensures
            n == self@.cap,
    {
        self.cap
    }

    /// A copy of the object at a position.
    pub fn copy_at(&self, i: usize) -> (o: KnowledgeObject)
        requires
            i < self@.objs.len(),
        ensures
            o@ == self@.objs[i as int],
    {
        self.buf[i].clone()
    }

    /// Insert `obj`, applying dedup/supersede/eviction.
    ///
    /// Returns `Ok(InsertOutcome)` on success, or `Err(BusError::BufferFull)`
    /// if the incoming item must be rejected under back-pressure, which leaves
    /// the buffer unchanged.
    pub fn insert(&mut self, obj: KnowledgeObject) -> (r: Result<InsertOutcome, BusError>)
        requires
            old(self).well_formed(),
        ensures
            final(self).well_formed(),
            final(self)@ == inserted(old(self)@, obj@).0,
            match r {
                Ok(outcome) => inserted(old(self)@, obj@).1 == Some(outcome),
                Err(e) => inserted(old(self)@, obj@).1 is None && e == BusError::BufferFull,
            },
    {
        let ghost before = self@;
        let ghost o = obj@;
        let ck: u64 = conclusion_key(&obj);
        let key: u64 = canonical_key(&obj);
        proof {
            insertion_keeps_order(before, o);
        }
        // Hard dedup: identical conclusion + assumptions already buffered.
        if fx::set_contains(&self.keys, key) {
            return Ok(InsertOutcome::Duplicate);
        }
        if fx::set_contains(&self.unconditional, ck) {
            // A version at least as strong is buffered already.
            return Ok(InsertOutcome::Redundant);
        }
        let mut superseded: usize = 0;
        if obj.is_unconditional() {
            // An unconditional version supersedes buffered conditionals of the
            // same conclusion.
            superseded = self.remove_conditionals(ck);
        }
        let ghost mid = self@;
        let evicted: usize = match self.make_room(obj.utility) {
            Ok(n) => n,
            Err(e) => {
                proof {
                    // A full queue has lost nothing.
                    assert(mid.objs.len() == before.objs.len());
                    if is_unconditional(o) {
                        nothing_filtered(before.objs, ck);
                    }
                }
                return Err(e);
            },
        };
        let ghost ready = self@;
        proof {
            supersede_facts(before, ck);
            room_facts(mid, o.utility);
            assert(!has_key(ready.objs, knowledge::key_of(o)));
            assert(!has_unconditional(ready.objs, ck));
            if is_unconditional(o) {
                assert forall|i: int| 0 <= i < ready.objs.len() implies !superseded_by(
                    #[trigger] ready.objs[i],
                    ck,
                ) by {
                    assert(mid.objs.contains(ready.objs[i]));
                    let k = choose|k: int| 0 <= k < mid.objs.len() && mid.objs[k] == ready.objs[i];
                    assert(!superseded_by(mid.objs[k], ck));
                }
            }
            newcomer_compatible(ready.objs, o);
            push_facts(ready, o);
        }
        if obj.is_unconditional() {
            fx::set_insert(&mut self.unconditional, ck);
        }
        fx::set_insert(&mut self.keys, key);
        self.buf.push_back(obj);
        assert(self@.objs =~= ready.objs.push(o));
        Ok(InsertOutcome::Inserted { superseded, evicted })
    }

    /// Pop the front-most (oldest) object.
    pub fn pop_front(&mut self) -> (o: Option<KnowledgeObject>)
        requires
            old(self).well_formed(),
        ensures
            final(self).well_formed(),
            match o {
                Some(obj) => {
                    &&& old(self)@.objs.len() > 0
                    &&& obj@ == old(self)@.objs[0]
                    &&& final(self)@ == (QueueView {
                        objs: old(self)@.objs.remove(0),
                        ..old(self)@
                    })
                },
                None => old(self)@.objs.len() == 0 && final(self)@ == old(self)@,
            },
    {
        if self.buf.len() == 0 {
            None
        } else {
            Some(self.evict_at(0))
        }
    }

    /// Evict and forget a buffered object at `index`, returning it.
    fn evict_at(&mut self, index: usize) -> (o: KnowledgeObject)
        requires
            old(self).well_formed(),
            index < old(self)@.objs.len(),
        ensures
            final(self).well_formed(),
            o@ == old(self)@.objs[index as int],
            final(self)@ == (QueueView {
                objs: old(self)@.objs.remove(index as int),
                ..old(self)@
            }),
    {
        let ghost before = self@;
        proof {
            remove_facts(before, index as int);
        }
        let taken: Option<KnowledgeObject> = self.buf.remove(index);
        match taken {
            Some(removed) => {
                fx::set_remove(&mut self.keys, canonical_key(&removed));
                if removed.is_unconditional() {
                    fx::set_remove(&mut self.unconditional, conclusion_key(&removed));
                }
                assert(self@.objs =~= before.objs.remove(index as int));
                removed
            },
            None => vstd::pervasive::unreached(),
        }
    }

    /// Remove all conditional versions of `ck` from the buffer. Returns the
    /// number removed.
    fn remove_conditionals(&mut self, ck: u64) -> (n: usize)
        requires
            old(self).well_formed(),
        ensures
            final(self).well_formed(),
            final(self)@ == (QueueView {
                objs: without_conditionals(old(self)@.objs, ck),
                ..old(self)@
            }),
            n == old(self)@.objs.len() - final(self)@.objs.len(),
    {
        let ghost a = self@.objs;
        let ghost p = |o: ObjectView| !superseded_by(o, ck);
        let mut removed: usize = 0;
        let total: usize = self.buf.len();
        let mut i: usize = total;
        proof {
            assert(a.skip(a.len() as int) =~= Seq::<ObjectView>::empty());
            reveal(Seq::filter);
            assert(a.skip(a.len() as int).filter(p) =~= Seq::<ObjectView>::empty());
            assert(self@.objs =~= a.take(a.len() as int) + a.skip(a.len() as int).filter(p));
        }
        while i > 0
            invariant
                i <= a.len(),
                a == old(self)@.objs,
                p == (|o: ObjectView| !superseded_by(o, ck)),
                self.well_formed(),
                self@ == (QueueView { objs: self@.objs, ..old(self)@ }),
                self@.objs == a.take(i as int) + a.skip(i as int).filter(p),
                removed == a.len() - self@.objs.len(),
                removed <= total - i,
                i <= total,
            decreases i,
        {
            let ghost rest = a.skip(i as int).filter(p);
            i -= 1;
            let ghost here = self@.objs;
            proof {
                assert(here[i as int] == a[i as int]);
                assert(a.skip(i as int) =~= seq![a[i as int]] + a.skip(i + 1));
                Seq::filter_distributes_over_add(seq![a[i as int]], a.skip(i + 1), p);
                single_filter(a[i as int], p);
                assert(a.take(i + 1) =~= a.take(i as int).push(a[i as int]));
            }
            let obj: &KnowledgeObject = &self.buf[i];
            if !obj.is_unconditional() && conclusion_key(obj) == ck {
                self.evict_at(i);
                removed += 1;
                proof {
                    assert(Seq::<ObjectView>::empty() + rest =~= rest);
                    assert(self@.objs =~= a.take(i as int) + rest);
                }
            } else {
                assert(self@.objs =~= a.take(i as int) + (seq![a[i as int]] + rest));
            }
        }
        proof {
            assert(a.skip(0) =~= a);
            assert(a.take(0) + a.filter(p) =~= a.filter(p));
        }
        removed
    }

    /// Index of the lowest-utility buffered item whose utility is strictly
    /// below `incoming`, if any. On ties selects the oldest (front-most).
    fn lowest_utility_below(&self, incoming: Utility) -> (r: Option<usize>)
        requires
            self@.objs.len() > 0,
        ensures
            match r {
                Some(i) => i == lowest(self@.objs) && self@.objs[i as int].utility < incoming,
                None => self@.objs[lowest(self@.objs)].utility >= incoming,
            },
    {
        let ghost a = self@.objs;
        let mut best: usize = 0;
        let mut i: usize = 1;
        while i < self.buf.len()
            invariant
                1 <= i <= a.len(),
                a == self@.objs,
                best < i,
                best == lowest(a.take(i as int)),
            decreases a.len() - i,
        {
            assert(a.take(i + 1).drop_last() =~= a.take(i as int));
            assert(a.take(i + 1).last() == a[i as int]);
            assert(a[i as int] == self.buf@[i as int]@);
            assert(a[best as int] == self.buf@[best as int]@);
            if self.buf[i].utility < self.buf[best].utility {
                best = i;
            }
            i += 1;
        }
        assert(a.take(i as int) =~= a);
        assert(a[best as int] == self.buf@[best as int]@);
        if self.buf[best].utility < incoming {
            Some(best)
        } else {
            None
        }
    }

    /// Apply the configured eviction policy to make room for an incoming item.
    /// Returns `Ok(evicted_count)` if room was made (possibly 0), or
    /// `Err(BusError::BufferFull)` if the incoming item must be rejected.
    fn make_room(&mut self, incoming_utility: Utility) -> (r: Result<usize, BusError>)
        requires
            old(self).well_formed(),
        ensures
            final(self).well_formed(),
            match r {
                Ok(n) => room(old(self)@, incoming_utility) matches Some((objs, evicted)) && n
                    == evicted && final(self)@ == (QueueView { objs, ..old(self)@ }),
                Err(e) => {
                    &&& room(old(self)@, incoming_utility) is None
                    &&& e == BusError::BufferFull
                    &&& final(self)@ == old(self)@
                    &&& old(self)@.objs.len() == old(self)@.cap
                },
            },
    {
        if self.buf.len() < self.cap {
            return Ok(0);
        }
        match self.eviction {
            EvictionPolicy::Oldest => {
                self.evict_at(0);
                Ok(1)
            },
            EvictionPolicy::LowestUtility | EvictionPolicy::LowestUtilityThenOldest => {
                proof {
                    lowest_is_oldest_least(self@.objs);
                }
                match self.lowest_utility_below(incoming_utility) {
                    Some(index) => {
                        self.evict_at(index);
                        Ok(1)
                    },
                    None => Err(BusError::BufferFull),
                }
            },
            EvictionPolicy::RejectIncoming => Err(BusError::BufferFull),
        }
    }
}

proof fn single_filter(o: ObjectView, p: spec_fn(ObjectView) -> bool)
    ensures
        seq![o].filter(p) == (if p(o) {
            seq![o]
        } else {
            Seq::empty()
        }),
{
    reveal(Seq::filter);
    assert(seq![o].drop_last() =~= Seq::<ObjectView>::empty());
    assert(Seq::<ObjectView>::empty().filter(p) =~= Seq::<ObjectView>::empty());
    if p(o) {
        assert(Seq::<ObjectView>::empty().push(o) =~= seq![o]);
    }
}

/// A filter that loses nothing changes nothing.
proof fn nothing_filtered(objs: Seq<ObjectView>, ck: u64)
    requires
        without_conditionals(objs, ck).len() == objs.len(),
    ensures
        without_conditionals(objs, ck) == objs,
    decreases objs.len(),
{
    reveal(Seq::filter);
    let p = |o: ObjectView| !superseded_by(o, ck);
    if objs.len() > 0 {
        let t = objs.drop_last();
        t.lemma_filter_len(p);
        nothing_filtered(t, ck);
        assert(objs =~= t.push(objs.last()));
    } else {
        assert(without_conditionals(objs, ck) =~= objs);
    }
}

} // verus!
