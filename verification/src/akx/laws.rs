//! What the import gate promises of the objects that come to it.

use vstd::prelude::*;

#[allow(unused_imports)]
use crate::akx::import;
#[allow(unused_imports)]
use crate::akx::import::{GateView, ImportDecision};
#[allow(unused_imports)]
use crate::akx::knowledge;
#[allow(unused_imports)]
use crate::akx::knowledge::ObjectView;
#[allow(unused_imports)]
use crate::akx::literal::Literal;

verus! {

/// Every assumption of an object holds in a context.
pub open spec fn all_assumed(o: ObjectView, ctx: Seq<Literal>) -> bool {
    forall|k: int| 0 <= k < o.assumptions.len() ==> ctx.contains(#[trigger] o.assumptions[k])
}

/// Some assumption of an object holds in a context.
pub open spec fn some_assumed(o: ObjectView, ctx: Seq<Literal>) -> bool {
    exists|k: int| 0 <= k < o.assumptions.len() && ctx.contains(#[trigger] o.assumptions[k])
}

/// How an object is judged: one of too little utility is discarded; one that
/// was applied before is a duplicate; of the others, those whose assumptions
/// all hold are applied, those of which some hold are held back if anything may
/// be, and the rest is discarded. Only what is held back changes the buffer.
pub proof fn imports_are_judged(g: GateView, o: ObjectView)
    ensures
        ({
            let (after, d) = import::submitted(g, o);
            let useful = o.utility >= g.policy.min_utility;
            let seen = g.seen.contains(knowledge::key_of(o));
            &&& d is DiscardedLowUtility <==> !useful
            &&& d is Duplicate <==> useful && seen
            &&& d is Applied <==> useful && !seen && all_assumed(o, g.ctx)
            &&& d is Buffered <==> useful && !seen && !all_assumed(o, g.ctx) && some_assumed(
                o,
                g.ctx,
            ) && g.policy.max_items > 0
            &&& after.ctx == g.ctx && after.policy == g.policy && after.capacity == g.capacity
            &&& !(d is Buffered) ==> after.buffer == g.buffer
            &&& !(d is Applied) ==> after.seen == g.seen
            &&& d is Applied ==> after.seen == g.seen.insert(knowledge::key_of(o))
        }),
{
    assert(import::subset(o.assumptions, g.ctx) <==> all_assumed(o, g.ctx));
    assert(import::overlaps(o.assumptions, g.ctx) <==> some_assumed(o, g.ctx));
}

proof fn filtered(objs: Seq<ObjectView>, p: spec_fn(ObjectView) -> bool, o: ObjectView)
    requires
        objs.contains(o),
    ensures
        objs.filter(p).contains(o) <==> p(o),
{
    let i = choose|i: int| 0 <= i < objs.len() && objs[i] == o;
    if p(o) {
        objs.lemma_filter_contains(p, i);
    }
    if objs.filter(p).contains(o) {
        let k = choose|k: int| 0 <= k < objs.filter(p).len() && objs.filter(p)[k] == o;
        objs.lemma_filter_pred(p, k);
    }
}

/// An object that was held back waits for its context: it comes out once all
/// its assumptions hold, stays while only some do, and goes when none does.
pub proof fn held_objects_wait(g: GateView, ctx: Seq<Literal>, o: ObjectView)
    requires
        g.buffer.contains(o),
    ensures
        ({
            let after = import::in_context(g, ctx);
            let out = import::released(g, ctx);
            &&& after.ctx == ctx
            &&& out.len() <= g.policy.max_items
            &&& !all_assumed(o, ctx) ==> !out.contains(o)
            &&& all_assumed(o, ctx) && g.buffer.len() <= g.policy.max_items ==> out.contains(o)
            &&& after.buffer.contains(o) <==> !all_assumed(o, ctx) && some_assumed(o, ctx)
        }),
{
    let apply = |x: ObjectView|
        import::classified(ctx, x.assumptions) == import::ImportAction::Apply;
    let keep = |x: ObjectView|
        import::classified(ctx, x.assumptions) == import::ImportAction::Buffer;
    assert(import::subset(o.assumptions, ctx) <==> all_assumed(o, ctx));
    assert(import::overlaps(o.assumptions, ctx) <==> some_assumed(o, ctx));
    filtered(g.buffer, apply, o);
    filtered(g.buffer, keep, o);
    g.buffer.lemma_filter_len(apply);
    let all = import::applied_under(ctx, g.buffer);
    let out = import::released(g, ctx);
    if out.contains(o) {
        let k = choose|k: int| 0 <= k < out.len() && out[k] == o;
        assert(all[k] == o);
    }
}

proof fn rank_bounds(objs: Seq<ObjectView>, utility: knowledge::Utility)
    ensures
        import::rank_of(objs, utility) <= objs.len(),
        forall|i: int|
            0 <= i < import::rank_of(objs, utility) ==> (#[trigger] objs[i]).utility >= utility,
        import::rank_of(objs, utility) < objs.len() ==> objs[import::rank_of(
            objs,
            utility,
        ) as int].utility < utility,
    decreases objs.len(),
{
    if objs.len() > 0 && objs[0].utility >= utility {
        let rest = objs.drop_first();
        rank_bounds(rest, utility);
        assert forall|i: int| 0 <= i < import::rank_of(objs, utility) implies (
        #[trigger] objs[i]).utility >= utility by {
            if i > 0 {
                assert(objs[i] == rest[i - 1]);
            }
        }
    }
}

/// Holding an object back: the buffer stays in order of utility and within its
/// capacity, and holds what it held and the object; if that is too much, one
/// object goes whose utility is the lowest of all, the latest among equals.
pub proof fn buffers_let_go_of_the_least(objs: Seq<ObjectView>, cap: usize, o: ObjectView)
    requires
        import::by_utility(objs),
        objs.len() <= cap,
        !import::holds_key(objs, knowledge::key_of(o)),
    ensures
        ({
            let after = import::buffered(objs, cap, o);
            &&& import::by_utility(after)
            &&& after.len() <= cap
            &&& objs.len() < cap ==> after.len() == objs.len() + 1 && after.to_multiset()
                == objs.to_multiset().insert(o)
            &&& objs.len() == cap ==> after.len() == objs.len() && exists|least: ObjectView|
                #[trigger] after.to_multiset().insert(least) == objs.to_multiset().insert(o)
                    && forall|i: int|
                    0 <= i < after.len() ==> (#[trigger] after[i]).utility >= least.utility
        }),
{
    broadcast use vstd::seq_lib::group_to_multiset_ensures;

    let k = import::rank_of(objs, o.utility) as int;
    rank_bounds(objs, o.utility);
    let more = import::ranked_insert(objs, o);
    assert forall|i: int, j: int| 0 <= i <= j < more.len() implies (#[trigger] more[i]).utility >= (
    #[trigger] more[j]).utility by {
        let a = if i < k { i } else { i - 1 };
        let b = if j < k { j } else { j - 1 };
        if i != k && j != k {
            assert(objs[a].utility >= objs[b].utility);
        } else if i == k && j > k {
            assert(objs[k].utility >= objs[b].utility);
        } else if j == k && i < k {
            assert(objs[i].utility >= o.utility);
        }
    }
    assert(more.to_multiset() == objs.to_multiset().insert(o)) by {
        vstd::seq_lib::to_multiset_insert(objs, k, o);
    }
    let after = import::buffered(objs, cap, o);
    if objs.len() == cap {
        let least = more.last();
        assert(after == more.drop_last());
        assert(after.push(least) =~= more);
        assert(after.to_multiset().insert(least) == more.to_multiset());
        assert forall|i: int| 0 <= i < after.len() implies (#[trigger] after[i]).utility
            >= least.utility by {
            assert(more[i].utility >= more[more.len() - 1].utility);
        }
        assert forall|i: int, j: int| 0 <= i <= j < after.len() implies (
        #[trigger] after[i]).utility >= (#[trigger] after[j]).utility by {
            assert(more[i].utility >= more[j].utility);
        }
    }
}

} // verus!
