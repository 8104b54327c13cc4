//! Hierarchical scope routing with utility-aware promotion.
//!
//! Knowledge lives at a scope level: worker-local, process, node, global. A
//! [`Hierarchy`] router maintains one bounded buffer per level and promotes
//! objects one level up, so knowledge that is valuable enough to justify the
//! bandwidth cost becomes visible to a wider audience.
//!
//! Promotion is utility-aware: an object is promoted only if its `utility` is
//! at least [`HierarchyConfig::promotion_threshold`]. It is also
//! soundness-aware: `KnowledgeObject::promoted_scope()` gates promotion, so an
//! object's current scope can only advance one step per promotion and global
//! objects never travel back down.

use vstd::prelude::*;

use crate::akx::knowledge::{KnowledgeObject, Scope, Utility, UTILITY_ONE};
use crate::akx::reasoner::KnowledgeBatch;
use crate::akx::stats::BusMetrics;
use crate::bus::flow::{drain, feed, Tally};
use crate::bus::interface::{BusError, PollBudget, PublishHandle};
use crate::bus::policy::EvictionPolicy;
use crate::bus::queue::{InsertOutcome, Queue};
#[allow(unused_imports)]
use crate::akx::import;
#[allow(unused_imports)]
use crate::akx::knowledge;
#[allow(unused_imports)]
use crate::akx::knowledge::ObjectView;
#[allow(unused_imports)]
use crate::bus::flow;
#[allow(unused_imports)]
use crate::bus::queue;
#[allow(unused_imports)]
use crate::bus::queue::QueueView;

verus! {

/// Level index for a scope, following the hierarchy order.
pub open spec fn level(scope: Scope) -> int {
    knowledge::scope_rank(scope)
}

/// Scope for a level index.
pub open spec fn scope_at(level: int) -> Scope {
    if level == 0 {
        Scope::Local
    } else if level == 1 {
        Scope::Process
    } else if level == 2 {
        Scope::Node
    } else {
        Scope::Global
    }
}

/// The two are inverse to each other.
pub proof fn levels_and_scopes(scope: Scope, i: int)
    ensures
        scope_at(level(scope)) == scope,
        0 <= i < 4 ==> level(scope_at(i)) == i,
{
}

fn level_of(scope: Scope) -> (i: usize)
    ensures
        i == level(scope),
        i < 4,
{
    scope.rank() as usize
}

fn scope_of(level: usize) -> (s: Scope)
    ensures
        s == scope_at(level as int),
{
    match level {
        0 => Scope::Local,
        1 => Scope::Process,
        2 => Scope::Node,
        _ => Scope::Global,
    }
}

/// Configuration for the hierarchical router.
#[derive(Clone, Copy, Debug, PartialEq, Eq, Structural)]
pub struct HierarchyConfig {
    /// Buffer capacity at the worker-local level.
    pub local_buffer: usize,
    /// Buffer capacity at the process level.
    pub node_buffer: usize,
    /// Buffer capacity at the node level.
    pub cluster_buffer: usize,
    /// Buffer capacity at the global level.
    pub global_buffer: usize,
    /// Eviction policy applied at every level.
    pub eviction: EvictionPolicy,
    /// Minimum utility for an object to be promoted to the next scope.
    /// [`UTILITY_ONE`] disables promotion; `0` promotes everything eligible.
    pub promotion_threshold: Utility,
}

impl Default for HierarchyConfig {
    fn default() -> (c: Self)
        ensures
            c == (HierarchyConfig {
                local_buffer: 8_192,
                node_buffer: 65_536,
                cluster_buffer: 262_144,
                global_buffer: 262_144,
                eviction: EvictionPolicy::LowestUtilityThenOldest,
                promotion_threshold: 500_000_000,
            }),
    {
        HierarchyConfig {
            local_buffer: 8_192,
            node_buffer: 65_536,
            cluster_buffer: 262_144,
            global_buffer: 262_144,
            eviction: EvictionPolicy::LowestUtilityThenOldest,
            promotion_threshold: 500_000_000,
        }
    }
}

/// Per-level metrics snapshot; the utilization is `buffered / capacity`.
#[derive(Clone, Copy, Debug, PartialEq, Eq, Structural)]
pub struct LevelMetrics {
    /// Number of objects currently buffered at this level.
    pub buffered: usize,
    /// Capacity of this level's buffer.
    pub capacity: usize,
}

/// Counters of promotions. They wrap around.
#[derive(Clone, Copy, Debug, PartialEq, Eq, Structural)]
pub struct Promotions {
    /// Successful one-step promotions.
    pub promoted: u64,
    /// Promotion attempts that were duplicates/redundant at the target level.
    pub deduplicated: u64,
    /// Promotion attempts dropped because the object was already global.
    pub at_cap: u64,
    /// Promotion attempts skipped because utility < threshold.
    pub below_threshold: u64,
    /// Promotion attempts rejected because `promoted_scope()` disallows it.
    pub not_eligible: u64,
}

/// Aggregate metrics for a [`Hierarchy`].
#[derive(Clone, Debug, PartialEq)]
pub struct HierarchyMetrics {
    /// Per-level occupancy, the narrowest level first.
    pub levels: Vec<LevelMetrics>,
    /// Total objects published by producers (before dedup/supersede).
    pub published_total: u64,
    /// Objects drained by consumers via `poll`.
    pub polled_total: u64,
    /// Objects dropped as duplicate/redundant at insert time.
    pub deduplicated: u64,
    /// Objects evicted to make room at insert time.
    pub evicted: u64,
    /// Conditional objects superseded by an unconditional version.
    pub superseded: u64,
    /// Insert calls rejected with `BufferFull` back-pressure.
    pub backpressure: u64,
    /// Successful one-step promotions.
    pub promoted: u64,
    pub promotion_deduplicated: u64,
    pub promotion_at_cap: u64,
    pub promotion_below_threshold: u64,
    pub promotion_not_eligible: u64,
}

/// How many objects producers have published: those that entered a buffer and
/// those that were dropped as duplicate or redundant.
pub open spec fn offered(t: Tally) -> u64 {
    t.published.wrapping_add(t.deduplicated)
}

/// Hierarchical scope router.
pub struct Hierarchy {
    /// One queue for each scope, the narrowest first.
    levels: Vec<Queue>,
    threshold: Utility,
    tally: Tally,
    promotions: Promotions,
}

/// The state of a hierarchy.
#[verifier::ext_equal]
pub struct HierView {
    pub levels: Seq<QueueView>,
    pub threshold: Utility,
    pub tally: Tally,
    pub promotions: Promotions,
}

/// Whether an object's utility is too low to be promoted. The threshold for
/// utility 1 lets nothing through.
pub open spec fn too_low(utility: Utility, threshold: Utility) -> bool {
    utility < threshold || threshold >= UTILITY_ONE
}

/// An object may be promoted to a scope.
pub open spec fn promotable(o: ObjectView, to: Scope, threshold: Utility) -> bool {
    knowledge::wider(o.scope) == Some(to) && !too_low(o.utility, threshold)
}

/// The object as it is promoted.
pub open spec fn at_scope(o: ObjectView, to: Scope) -> ObjectView {
    ObjectView { scope: to, ..o }
}

/// How far a promotion has got: the target queue, the counters, and how many
/// objects were promoted.
#[verifier::ext_equal]
pub struct Lift {
    pub target: QueueView,
    pub tally: Tally,
    pub promotions: Promotions,
    pub count: nat,
}

/// A promotion after one more object.
pub open spec fn lift_one(s: Lift, o: ObjectView, to: Scope, threshold: Utility) -> Lift {
    match knowledge::wider(o.scope) {
        None => Lift {
            promotions: Promotions { at_cap: s.promotions.at_cap.wrapping_add(1), ..s.promotions },
            ..s
        },
        Some(next) => if next != to {
            Lift {
                promotions: Promotions {
                    not_eligible: s.promotions.not_eligible.wrapping_add(1),
                    ..s.promotions
                },
                ..s
            }
        } else if too_low(o.utility, threshold) {
            Lift {
                promotions: Promotions {
                    below_threshold: s.promotions.below_threshold.wrapping_add(1),
                    ..s.promotions
                },
                ..s
            }
        } else {
            let (after, outcome) = queue::inserted(s.target, at_scope(o, to));
            match outcome {
                Some(InsertOutcome::Inserted { superseded, evicted }) => Lift {
                    target: after,
                    tally: Tally {
                        superseded: s.tally.superseded.wrapping_add(superseded as u64),
                        evicted: s.tally.evicted.wrapping_add(evicted as u64),
                        ..s.tally
                    },
                    count: s.count + 1,
                    ..s
                },
                Some(_) => Lift {
                    promotions: Promotions {
                        deduplicated: s.promotions.deduplicated.wrapping_add(1),
                        ..s.promotions
                    },
                    ..s
                },
                None => Lift {
                    tally: Tally { backpressure: s.tally.backpressure.wrapping_add(1), ..s.tally },
                    ..s
                },
            }
        },
    }
}

/// A promotion after the first `n` objects of the source.
pub open spec fn lifted(
    s: Lift,
    source: Seq<ObjectView>,
    to: Scope,
    threshold: Utility,
    n: int,
) -> Lift
    decreases n,
{
    if n <= 0 {
        s
    } else {
        lift_one(lifted(s, source, to, threshold, n - 1), source[n - 1], to, threshold)
    }
}

/// The promotion of a whole level of a hierarchy.
pub open spec fn lift(h: HierView, from: int) -> Lift {
    lifted(
        Lift { target: h.levels[from + 1], tally: h.tally, promotions: h.promotions, count: 0 },
        h.levels[from].objs,
        scope_at(from + 1),
        h.threshold,
        h.levels[from].objs.len() as int,
    )
}

/// The hierarchy after promoting from a level. The widest level has no level
/// above it.
pub open spec fn promoted(h: HierView, from: int) -> HierView {
    if from >= 3 {
        h
    } else {
        let l = lift(h, from);
        HierView {
            levels: h.levels.update(from + 1, l.target),
            tally: l.tally,
            promotions: Promotions {
                promoted: l.promotions.promoted.wrapping_add(l.count as u64),
                ..l.promotions
            },
            ..h
        }
    }
}

/// How many objects a promotion from a level carries up.
pub open spec fn promoted_count(h: HierView, from: int) -> nat {
    if from >= 3 {
        0
    } else {
        lift(h, from).count
    }
}

/// Promotion leaves every level but the target as it was: the source keeps its
/// objects, and no object skips a level.
pub proof fn promotion_is_one_level(h: HierView, from: int, i: int)
    requires
        h.levels.len() == 4,
        0 <= from,
        0 <= i < 4,
        i != from + 1,
    ensures
        promoted(h, from).levels[i] == h.levels[i],
{
}

/// An object below the threshold, already global, or of another scope than the
/// source's is never promoted.
pub proof fn only_promotable_objects_move(s: Lift, o: ObjectView, to: Scope, threshold: Utility)
    requires
        !promotable(o, to, threshold),
    ensures
        lift_one(s, o, to, threshold).target == s.target,
        lift_one(s, o, to, threshold).count == s.count,
{
}

/// The key of an object does not depend on its scope.
proof fn scope_keeps_keys(o: ObjectView, to: Scope)
    ensures
        knowledge::key_of(at_scope(o, to)) == knowledge::key_of(o),
        knowledge::bare_key_of(at_scope(o, to)) == knowledge::bare_key_of(o),
        queue::is_unconditional(at_scope(o, to)) == queue::is_unconditional(o),
{
}

/// Promoting the same object again right away finds a duplicate.
pub proof fn repromotion_finds_duplicate(s: Lift, o: ObjectView, to: Scope, threshold: Utility)
    requires
        queue::queue_ok(s.target),
        lift_one(s, o, to, threshold).count == s.count + 1,
    ensures
        ({
            let once = lift_one(s, o, to, threshold);
            let twice = lift_one(once, o, to, threshold);
            &&& twice.target == once.target
            &&& twice.count == once.count
            &&& twice.promotions.deduplicated == once.promotions.deduplicated.wrapping_add(1)
        }),
{
    queue::insertion_is_idempotent(s.target, at_scope(o, to));
}

/// A queue has an object, or an unconditional version of its conclusion.
pub open spec fn knows(q: QueueView, o: ObjectView) -> bool {
    queue::has_key(q.objs, knowledge::key_of(o)) || queue::has_unconditional(
        q.objs,
        knowledge::bare_key_of(o),
    )
}

/// Objects of the two sequences with the same canonical key have the same
/// conclusion key, and are conditional or not alike: no key collides.
pub open spec fn keys_tell_apart(a: Seq<ObjectView>, b: Seq<ObjectView>) -> bool {
    forall|i: int, j: int|
        0 <= i < a.len() && 0 <= j < b.len() && knowledge::key_of(#[trigger] a[i])
            == knowledge::key_of(#[trigger] b[j]) ==> knowledge::bare_key_of(a[i])
            == knowledge::bare_key_of(b[j]) && queue::is_unconditional(a[i])
            == queue::is_unconditional(b[j])
}

/// Every object of a queue was in the target at first or came from the source.
spec fn accounted(now: QueueView, target: QueueView, source: Seq<ObjectView>, n: int) -> bool {
    forall|x: int|
        0 <= x < now.objs.len() ==> origin_known(#[trigger] now.objs[x], target, source, n)
}

spec fn origin_known(o: ObjectView, target: QueueView, source: Seq<ObjectView>, n: int) -> bool {
    ||| target.objs.contains(o)
    ||| exists|j: int|
        0 <= j < n && #[trigger] knowledge::key_of(source[j]) == knowledge::key_of(o)
            && knowledge::bare_key_of(source[j]) == knowledge::bare_key_of(o)
}

/// One step of a promotion into a target with room: the target knows the
/// object afterwards and forgets none of the source's that it knew.
proof fn lift_keeps_knowledge(
    s: Lift,
    target: QueueView,
    source: Seq<ObjectView>,
    to: Scope,
    threshold: Utility,
    n: int,
)
    requires
        0 <= n < source.len(),
        queue::queue_ok(s.target),
        s.target.objs.len() < s.target.cap,
        keys_tell_apart(source, target.objs),
        forall|i: int, j: int|
            0 <= i < j < source.len() ==> queue::compatible(
                #[trigger] source[i],
                #[trigger] source[j],
            ),
        accounted(s.target, target, source, n),
        forall|i: int|
            0 <= i < n && promotable(#[trigger] source[i], to, threshold) ==> knows(
                s.target,
                source[i],
            ),
    ensures
        ({
            let t = lift_one(s, source[n], to, threshold).target;
            &&& queue::queue_ok(t)
            &&& t.cap == s.target.cap
            &&& t.objs.len() <= s.target.objs.len() + 1
            &&& accounted(t, target, source, n + 1)
            &&& forall|i: int|
                0 <= i < n + 1 && promotable(#[trigger] source[i], to, threshold) ==> knows(
                    t,
                    source[i],
                )
        }),
{
    let o = source[n];
    let c = at_scope(o, to);
    let ck = knowledge::bare_key_of(o);
    let q = s.target;
    let t = lift_one(s, o, to, threshold).target;
    scope_keeps_keys(o, to);
    queue::insertion_keeps_order(q, c);
    queue::supersede_facts(q, ck);
    let rest = if queue::is_unconditional(o) {
        queue::without_conditionals(q.objs, ck)
    } else {
        q.objs
    };
    let moved = promotable(o, to, threshold) && !knows(q, o);
    if moved {
        assert(t.objs == rest.push(c));
        assert(t.objs[rest.len() as int] == c);
    }
    assert forall|x: int| 0 <= x < t.objs.len() implies origin_known(
        #[trigger] t.objs[x],
        target,
        source,
        n + 1,
    ) by {
        if moved && x == rest.len() {
            assert(knowledge::key_of(source[n]) == knowledge::key_of(t.objs[x]));
        } else {
            let y = if moved {
                rest[x]
            } else {
                q.objs[x]
            };
            assert(t.objs[x] == y);
            if moved && queue::is_unconditional(o) {
                let p = |b: ObjectView| !queue::superseded_by(b, ck);
                assert(q.objs.filter(p).contains(y));
                q.objs.lemma_filter_contains_rev(p, y);
            } else {
                assert(q.objs.contains(y));
            }
            let k = choose|k: int| 0 <= k < q.objs.len() && q.objs[k] == y;
            assert(origin_known(q.objs[k], target, source, n));
        }
    }
    assert forall|i: int| 0 <= i < n + 1 && promotable(#[trigger] source[i], to, threshold) implies
        knows(t, source[i]) by {
        if moved {
            if i == n {
                assert(knowledge::key_of(t.objs[rest.len() as int]) == knowledge::key_of(o));
            } else {
                let si = source[i];
                let bare = knowledge::bare_key_of(si);
                if queue::has_unconditional(q.objs, bare) {
                    assert(queue::has_unconditional(rest, bare));
                    let k = choose|k: int|
                        0 <= k < rest.len() && queue::is_unconditional(#[trigger] rest[k])
                            && knowledge::bare_key_of(rest[k]) == bare;
                    assert(t.objs[k] == rest[k]);
                } else {
                    let k = choose|k: int|
                        0 <= k < q.objs.len() && knowledge::key_of(#[trigger] q.objs[k])
                            == knowledge::key_of(si);
                    let x = q.objs[k];
                    if queue::is_unconditional(o) && queue::superseded_by(x, ck) {
                        // It would have to be superseded by an object that the
                        // source holds beside it.
                        assert(origin_known(x, target, source, n));
                        if target.objs.contains(x) {
                            let j = choose|j: int|
                                0 <= j < target.objs.len() && target.objs[j] == x;
                            assert(knowledge::key_of(source[i]) == knowledge::key_of(
                                target.objs[j],
                            ));
                            assert(queue::compatible(source[i], source[n]));
                        } else {
                            let j = choose|j: int|
                                0 <= j < n && #[trigger] knowledge::key_of(source[j])
                                    == knowledge::key_of(x) && knowledge::bare_key_of(source[j])
                                    == knowledge::bare_key_of(x);
                            assert(queue::compatible(source[j], source[n]));
                        }
                        assert(false);
                    } else if queue::is_unconditional(o) {
                        let p = |b: ObjectView| !queue::superseded_by(b, ck);
                        q.objs.lemma_filter_contains(p, k);
                        assert(rest.contains(x));
                        let m = choose|m: int| 0 <= m < rest.len() && rest[m] == x;
                        assert(t.objs[m] == x);
                    } else {
                        assert(t.objs[k] == x);
                    }
                }
            }
        }
    }
}

/// Promoting a level into a target with room for it leaves the target knowing
/// every promotable object.
proof fn lifted_knows_all(
    s: Lift,
    source: Seq<ObjectView>,
    to: Scope,
    threshold: Utility,
    n: int,
)
    requires
        0 <= n <= source.len(),
        queue::queue_ok(s.target),
        s.target.objs.len() + source.len() <= s.target.cap,
        keys_tell_apart(source, s.target.objs),
        forall|i: int, j: int|
            0 <= i < j < source.len() ==> queue::compatible(
                #[trigger] source[i],
                #[trigger] source[j],
            ),
    ensures
        ({
            let t = lifted(s, source, to, threshold, n).target;
            &&& queue::queue_ok(t)
            &&& t.cap == s.target.cap
            &&& t.objs.len() <= s.target.objs.len() + n
            &&& accounted(t, s.target, source, n)
            &&& forall|i: int|
                0 <= i < n && promotable(#[trigger] source[i], to, threshold) ==> knows(
                    t,
                    source[i],
                )
        }),
    decreases n,
{
    if n > 0 {
        lifted_knows_all(s, source, to, threshold, n - 1);
        let before = lifted(s, source, to, threshold, n - 1);
        lift_keeps_knowledge(before, s.target, source, to, threshold, n - 1);
    } else {
        let t = s.target;
        assert forall|x: int| 0 <= x < t.objs.len() implies origin_known(
            #[trigger] t.objs[x],
            t,
            source,
            n,
        ) by {
            assert(t.objs.contains(t.objs[x]));
        }
    }
}

/// A target that knows every promotable object of the source gains none.
proof fn lifted_again(s: Lift, source: Seq<ObjectView>, to: Scope, threshold: Utility, n: int)
    requires
        0 <= n <= source.len(),
        forall|i: int|
            0 <= i < source.len() && promotable(#[trigger] source[i], to, threshold) ==> knows(
                s.target,
                source[i],
            ),
    ensures
        lifted(s, source, to, threshold, n).target == s.target,
        lifted(s, source, to, threshold, n).count == s.count,
    decreases n,
{
    if n > 0 {
        lifted_again(s, source, to, threshold, n - 1);
        scope_keeps_keys(source[n - 1], to);
    }
}

/// Re-promotion is idempotent: promoting a level a second time, into a target
/// that had room for all of it, adds nothing. (Canonical keys of different
/// objects are taken not to collide.)
pub proof fn repromotion_is_idempotent(h: HierView, from: int)
    requires
        h.levels.len() == 4,
        0 <= from < 3,
        queue::queue_ok(h.levels[from]),
        queue::queue_ok(h.levels[from + 1]),
        h.levels[from + 1].objs.len() + h.levels[from].objs.len() <= h.levels[from + 1].cap,
        keys_tell_apart(h.levels[from].objs, h.levels[from + 1].objs),
    ensures
        promoted(promoted(h, from), from).levels == promoted(h, from).levels,
        promoted_count(promoted(h, from), from) == 0,
{
    let source = h.levels[from].objs;
    let to = scope_at(from + 1);
    let s = Lift {
        target: h.levels[from + 1],
        tally: h.tally,
        promotions: h.promotions,
        count: 0,
    };
    lifted_knows_all(s, source, to, h.threshold, source.len() as int);
    let once = promoted(h, from);
    let again = Lift {
        target: once.levels[from + 1],
        tally: once.tally,
        promotions: once.promotions,
        count: 0,
    };
    lifted_again(again, source, to, h.threshold, source.len() as int);
    assert(promoted(once, from).levels =~= once.levels);
}

/// The scope of the level above a level.
pub open spec fn above(from: int) -> Scope {
    if from == 0 {
        Scope::Process
    } else if from == 1 {
        Scope::Node
    } else {
        Scope::Global
    }
}

/// Promotion carries everything that may move: every object of the level whose
/// scope is that of the level and which is useful enough is known to the next
/// level afterwards, if there is room.
pub proof fn promotion_carries_all(h: HierView, from: int, i: int)
    requires
        h.levels.len() == 4,
        0 <= from < 3,
        queue::queue_ok(h.levels[from]),
        queue::queue_ok(h.levels[from + 1]),
        h.levels[from + 1].objs.len() + h.levels[from].objs.len() <= h.levels[from + 1].cap,
        keys_tell_apart(h.levels[from].objs, h.levels[from + 1].objs),
        0 <= i < h.levels[from].objs.len(),
        knowledge::wider(h.levels[from].objs[i].scope) == Some(above(from)),
        h.levels[from].objs[i].utility >= h.threshold,
        h.threshold < UTILITY_ONE,
    ensures
        knows(promoted(h, from).levels[from + 1], h.levels[from].objs[i]),
{
    let source = h.levels[from].objs;
    let to = scope_at(from + 1);
    let s = Lift {
        target: h.levels[from + 1],
        tally: h.tally,
        promotions: h.promotions,
        count: 0,
    };
    lifted_knows_all(s, source, to, h.threshold, source.len() as int);
    assert(promotable(source[i], to, h.threshold));
}

impl Hierarchy {
    pub closed spec fn view(&self) -> HierView {
        HierView {
            levels: self.levels@.map_values(|q: Queue| q@),
            threshold: self.threshold,
            tally: self.tally,
            promotions: self.promotions,
        }
    }

    pub closed spec fn well_formed(&self) -> bool {
        &&& self.levels@.len() == 4
        &&& forall|i: int| 0 <= i < 4 ==> (#[trigger] self.levels@[i]).well_formed()
    }

    /// A hierarchy in use has four levels, each in order.
    pub proof fn in_order(&self)
        requires
            self.well_formed(),
        ensures
            self@.levels.len() == 4,
            forall|i: int| 0 <= i < 4 ==> queue::queue_ok(#[trigger] self@.levels[i]),
    {
        assert forall|i: int| 0 <= i < 4 implies queue::queue_ok(#[trigger] self@.levels[i]) by {
            assert(self.levels@[i].well_formed());
            self.levels@[i].in_order();
        }
    }

    pub fn new(config: &HierarchyConfig) -> (h: Self)
        ensures
            h.well_formed(),
            h@ == (HierView {
                levels: seq![
                    empty_level(config.local_buffer, config.eviction),
                    empty_level(config.node_buffer, config.eviction),
                    empty_level(config.cluster_buffer, config.eviction),
                    empty_level(config.global_buffer, config.eviction),
                ],
                threshold: config.promotion_threshold,
                tally: Tally {
                    published: 0,
                    polled: 0,
                    deduplicated: 0,
                    evicted: 0,
                    superseded: 0,
                    backpressure: 0,
                },
                promotions: Promotions {
                    promoted: 0,
                    deduplicated: 0,
                    at_cap: 0,
                    below_threshold: 0,
                    not_eligible: 0,
                },
            }),
    {
        let mut levels: Vec<Queue> = Vec::new();
        levels.push(Queue::new(config.local_buffer, config.eviction));
        levels.push(Queue::new(config.node_buffer, config.eviction));
        levels.push(Queue::new(config.cluster_buffer, config.eviction));
        levels.push(Queue::new(config.global_buffer, config.eviction));
        let h = Hierarchy {
            levels,
            threshold: config.promotion_threshold,
            tally: Tally::default(),
            promotions: Promotions {
                promoted: 0,
                deduplicated: 0,
                at_cap: 0,
                below_threshold: 0,
                not_eligible: 0,
            },
        };
        assert(h@.levels =~= seq![
            empty_level(config.local_buffer, config.eviction),
            empty_level(config.node_buffer, config.eviction),
            empty_level(config.cluster_buffer, config.eviction),
            empty_level(config.global_buffer, config.eviction),
        ]);
        h
    }

    /// Insert `batch` at the given scope level. Returns the number of objects
    /// actually buffered (after dedup/eviction).
    pub fn publish(&mut self, scope: Scope, batch: KnowledgeBatch) -> (r: Result<
        PublishHandle,
        BusError,
    >)
        requires
            old(self).well_formed(),
        ensures
            final(self).well_formed(),
            ({
                let end = flow::fed(
                    old(self)@.levels[level(scope)],
                    old(self)@.tally,
                    import::object_views(batch@),
                    batch@.len() as int,
                );
                &&& final(self)@ == (HierView {
                    levels: old(self)@.levels.update(level(scope), end.queue),
                    tally: end.tally,
                    ..old(self)@
                })
                &&& match r {
                    Ok(h) => !end.rejected && h.enqueued == end.enqueued,
                    Err(e) => end.rejected && e == BusError::BufferFull,
                }
            }),
    {
        let ghost before = self@;
        let ghost queues = self.levels@;
        let i: usize = level_of(scope);
        let mut tally: Tally = self.tally;
        let r = feed(&mut self.levels[i], &mut tally, batch);
        self.tally = tally;
        proof {
            assert(self@.levels =~= before.levels.update(i as int, self.levels@[i as int]@));
        }
        r
    }

    /// Drain up to `budget.max_items` objects from the given scope level.
    pub fn poll(&mut self, scope: Scope, budget: PollBudget) -> (r: Result<
        KnowledgeBatch,
        BusError,
    >)
        requires
            old(self).well_formed(),
        ensures
            final(self).well_formed(),
            r is Ok,
            ({
                let q = old(self)@.levels[level(scope)];
                let n = flow::share(q, budget.max_items);
                &&& import::object_views(r->Ok_0@) == q.objs.take(n)
                &&& final(self)@ == (HierView {
                    levels: old(self)@.levels.update(
                        level(scope),
                        QueueView { objs: q.objs.skip(n), ..q },
                    ),
                    tally: Tally {
                        polled: old(self)@.tally.polled.wrapping_add(n as u64),
                        ..old(self)@.tally
                    },
                    ..old(self)@
                })
            }),
    {
        let ghost before = self@;
        let i: usize = level_of(scope);
        let mut tally: Tally = self.tally;
        let batch = drain(&mut self.levels[i], &mut tally, budget.max_items);
        self.tally = tally;
        proof {
            assert(self@.levels =~= before.levels.update(i as int, self.levels@[i as int]@));
        }
        Ok(batch)
    }

    /// Promote every buffered object from `from` to the next level up, in
    /// FIFO order. Returns the number of objects successfully promoted.
    ///
    /// Promotion copies the object to the target level; the original stays at
    /// its current level so it remains visible to local consumers. The target
    /// deduplicates, so re-promoting the same object is idempotent.
    pub fn promote_from(&mut self, from: usize) -> (n: usize)
        requires
            old(self).well_formed(),
        ensures
            final(self).well_formed(),
            final(self)@ == promoted(old(self)@, from as int),
            n == promoted_count(old(self)@, from as int),
    {
        if from >= 3 {
            return 0;
        }
        let ghost before = self@;
        assert(before.levels.len() == 4);
        let to: usize = from + 1;
        let to_scope: Scope = scope_of(to);
        let ghost source = before.levels[from as int].objs;
        let ghost start = Lift {
            target: before.levels[to as int],
            tally: before.tally,
            promotions: before.promotions,
            count: 0,
        };
        let mut count: usize = 0;
        let mut i: usize = 0;
        while i < self.levels[from].len()
            invariant
                from < 3,
                to == from + 1,
                to_scope == scope_at(to as int),
                before == old(self)@,
                before.levels.len() == 4,
                self.well_formed(),
                source == before.levels[from as int].objs,
                start == (Lift {
                    target: before.levels[to as int],
                    tally: before.tally,
                    promotions: before.promotions,
                    count: 0,
                }),
                i <= source.len(),
                self@.levels[from as int].objs == source,
                self@.threshold == before.threshold,
                self@.levels == before.levels.update(to as int, self@.levels[to as int]),
                count <= i,
                lifted(start, source, to_scope, before.threshold, i as int) == (Lift {
                    target: self@.levels[to as int],
                    tally: self.tally,
                    promotions: self.promotions,
                    count: count as nat,
                }),
            decreases source.len() - i,
        {
            let ghost here = self@;
            let obj: KnowledgeObject = self.levels[from].copy_at(i);
            assert(obj@ == source[i as int]);
            match obj.promoted_scope() {
                None => {
                    self.promotions.at_cap = self.promotions.at_cap.wrapping_add(1);
                },
                Some(next) => {
                    if next != to_scope {
                        self.promotions.not_eligible = self.promotions.not_eligible.wrapping_add(
                            1,
                        );
                    } else if obj.utility < self.threshold || self.threshold >= UTILITY_ONE {
                        self.promotions.below_threshold =
                        self.promotions.below_threshold.wrapping_add(1);
                    } else {
                        let mut copy = obj;
                        copy.scope = to_scope;
                        let ghost v = copy@;
                        assert(v == at_scope(source[i as int], to_scope));
                        match self.levels[to].insert(copy) {
                            Ok(InsertOutcome::Inserted { superseded, evicted }) => {
                                count += 1;
                                self.tally.superseded = self.tally.superseded.wrapping_add(
                                    superseded as u64,
                                );
                                self.tally.evicted = self.tally.evicted.wrapping_add(
                                    evicted as u64,
                                );
                            },
                            Ok(_) => {
                                self.promotions.deduplicated =
                                self.promotions.deduplicated.wrapping_add(1);
                            },
                            Err(_) => {
                                self.tally.backpressure = self.tally.backpressure.wrapping_add(1);
                            },
                        }
                    }
                },
            }
            proof {
                assert(self@.levels =~= here.levels.update(to as int, self@.levels[to as int]));
                assert(self@.levels =~= before.levels.update(to as int, self@.levels[to as int]));
            }
            i += 1;
        }
        self.promotions.promoted = self.promotions.promoted.wrapping_add(count as u64);
        proof {
            assert(self@.levels == promoted(before, from as int).levels);
        }
        count
    }

    /// Promote across the whole hierarchy, the narrowest level first. Returns
    /// the total number of promotions performed.
    pub fn promote_all(&mut self) -> (n: usize)
        requires
            old(self).well_formed(),
        ensures
            final(self).well_formed(),
            ({
                let h0 = old(self)@;
                let h1 = promoted(h0, 0);
                let h2 = promoted(h1, 1);
                let total = promoted_count(h0, 0) + promoted_count(h1, 1) + promoted_count(h2, 2);
                &&& final(self)@ == promoted(h2, 2)
                &&& n == (if total <= usize::MAX {
                    total
                } else {
                    usize::MAX as nat
                })
            }),
    {
        let a: usize = self.promote_from(0);
        let b: usize = self.promote_from(1);
        let c: usize = self.promote_from(2);
        a.saturating_add(b).saturating_add(c)
    }

    /// Snapshot of all levels and counters.
    pub fn metrics(&self) -> (m: HierarchyMetrics)
        requires
            self.well_formed(),
        ensures
            m.levels@.len() == 4,
            forall|i: int|
                0 <= i < 4 ==> (#[trigger] m.levels@[i]).buffered == self@.levels[i].objs.len()
                    && m.levels@[i].capacity == self@.levels[i].cap,
            m.published_total == offered(self@.tally),
            m.polled_total == self@.tally.polled,
            m.deduplicated == self@.tally.deduplicated,
            m.evicted == self@.tally.evicted,
            m.superseded == self@.tally.superseded,
            m.backpressure == self@.tally.backpressure,
            m.promoted == self@.promotions.promoted,
            m.promotion_deduplicated == self@.promotions.deduplicated,
            m.promotion_at_cap == self@.promotions.at_cap,
            m.promotion_below_threshold == self@.promotions.below_threshold,
            m.promotion_not_eligible == self@.promotions.not_eligible,
    {
        let mut levels: Vec<LevelMetrics> = Vec::new();
        let mut i: usize = 0;
        while i < 4
            invariant
                i <= 4,
                self.well_formed(),
                levels@.len() == i,
                forall|k: int|
                    0 <= k < i ==> (#[trigger] levels@[k]).buffered == self@.levels[k].objs.len()
                        && levels@[k].capacity == self@.levels[k].cap,
            decreases 4 - i,
        {
            levels.push(
                LevelMetrics { buffered: self.levels[i].len(), capacity: self.levels[i].cap() },
            );
            i += 1;
        }
        HierarchyMetrics {
            levels,
            published_total: self.tally.published.wrapping_add(self.tally.deduplicated),
            polled_total: self.tally.polled,
            deduplicated: self.tally.deduplicated,
            evicted: self.tally.evicted,
            superseded: self.tally.superseded,
            backpressure: self.tally.backpressure,
            promoted: self.promotions.promoted,
            promotion_deduplicated: self.promotions.deduplicated,
            promotion_at_cap: self.promotions.at_cap,
            promotion_below_threshold: self.promotions.below_threshold,
            promotion_not_eligible: self.promotions.not_eligible,
        }
    }

    /// Convert to a `BusMetrics` snapshot (used by tooling that only knows the
    /// generic `KnowledgeBus` interface). Level occupancy is folded into the
    /// buffer figures as the aggregate over all levels.
    pub fn bus_metrics(&self) -> (m: BusMetrics)
        requires
            self.well_formed(),
        ensures
            m == (BusMetrics {
                published_total: offered(self@.tally),
                polled_total: self@.tally.polled,
                deduplicated: self@.tally.deduplicated,
                evicted: self@.tally.evicted,
                superseded: self@.tally.superseded,
                backpressure: self@.tally.backpressure,
                schema_rejected: 0,
                bytes_serialized: 0,
                bytes_received: 0,
                buffer_used: capped(
                    self@.levels[0].objs.len() + self@.levels[1].objs.len()
                        + self@.levels[2].objs.len() + self@.levels[3].objs.len(),
                ),
                buffer_capacity: capped(
                    (self@.levels[0].cap + self@.levels[1].cap + self@.levels[2].cap
                        + self@.levels[3].cap) as nat,
                ),
            }),
    {
        let m = self.metrics();
        let l = &m.levels;
        assert(m.levels@[0].buffered == self@.levels[0].objs.len());
        assert(m.levels@[1].buffered == self@.levels[1].objs.len());
        assert(m.levels@[2].buffered == self@.levels[2].objs.len());
        assert(m.levels@[3].buffered == self@.levels[3].objs.len());
        BusMetrics {
            published_total: m.published_total,
            polled_total: m.polled_total,
            deduplicated: m.deduplicated,
            evicted: m.evicted,
            superseded: m.superseded,
            backpressure: m.backpressure,
            schema_rejected: 0,
            bytes_serialized: 0,
            bytes_received: 0,
            buffer_used: (l[0].buffered as u64).saturating_add(l[1].buffered as u64).saturating_add(
                l[2].buffered as u64,
            ).saturating_add(l[3].buffered as u64),
            buffer_capacity: (l[0].capacity as u64).saturating_add(
                l[1].capacity as u64,
            ).saturating_add(l[2].capacity as u64).saturating_add(l[3].capacity as u64),
        }
    }
}

/// A level before anything was published.
pub open spec fn empty_level(cap: usize, eviction: EvictionPolicy) -> QueueView {
    QueueView {
        objs: Seq::empty(),
        cap: if cap == 0 {
            1
        } else {
            cap
        },
        eviction,
    }
}

/// A sum, or the largest machine number if it is larger.
pub open spec fn capped(n: nat) -> u64 {
    if n <= u64::MAX {
        n as u64
    } else {
        u64::MAX
    }
}

} // verus!
