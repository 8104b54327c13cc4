//! What the heuristics of the solver promise: restarts, activities, utilities
//! and the accounts of imports.

use vstd::prelude::*;

#[allow(unused_imports)]
use crate::akx::import::GateView;
#[allow(unused_imports)]
use crate::akx::knowledge::{KindView, ObjectView, UTILITY_ONE};
use crate::akx::literal::{Literal, Var};
#[allow(unused_imports)]
use crate::akx::reasoner::WorkerId;
#[allow(unused_imports)]
use crate::akx::policy::ExportPolicy;
#[allow(unused_imports)]
use crate::akx::knowledge;
#[allow(unused_imports)]
use crate::akx::import;
#[allow(unused_imports)]
use crate::bus::hierarchy;
#[allow(unused_imports)]
use crate::sat::luby;
#[allow(unused_imports)]
use crate::sat::reasoner;
#[allow(unused_imports)]
use crate::sat::vsids;
use crate::sat::vsids::Standing;

verus! {

// ---------------------------------------------------------------------------
// Restarts
// ---------------------------------------------------------------------------

/// The state of the generator after some steps.
pub open spec fn after_steps(u: u64, v: u64, n: nat) -> (u64, u64)
    decreases n,
{
    if n == 0 {
        (u, v)
    } else {
        let (a, b) = after_steps(u, v, (n - 1) as nat);
        luby::advanced(a, b)
    }
}

/// The lowest bit of a number that is set.
pub open spec fn ends_in_bit(u: u64, k: u64) -> bool {
    &&& k < 64
    &&& u & (1u64 << k) != 0
    &&& u & (((1u64 << k) - 1) as u64) == 0
}

proof fn lowest_bit_is(u: u64, k: u64)
    requires
        ends_in_bit(u, k),
    ensures
        luby::lowest_bit(u) == 1u64 << k,
{
    assert((u & ((!u + 1) as u64)) == 1u64 << k) by (bit_vector)
        requires
            k < 64,
            u & (1u64 << k) != 0,
            u & (((1u64 << k) - 1) as u64) == 0,
    ;
    assert(!u < 0xFFFF_FFFF_FFFF_FFFF) by (bit_vector)
        requires
            u & (1u64 << k) != 0,
    ;
}

/// A round of the generator: for a number whose lowest set bit is bit `k` it
/// gives 1, 2, 4, and so on up to that bit, and then goes on with the next
/// number.
pub proof fn rounds_of_powers(u: u64, k: u64, n: nat)
    requires
        ends_in_bit(u, k),
        n <= k + 1,
    ensures
        n <= k ==> after_steps(u, 1, n) == (u, 1u64 << (n as u64)),
        n == k + 1 ==> after_steps(u, 1, n) == (
            if u == u64::MAX {
                0
            } else {
                (u + 1) as u64
            },
            1u64,
        ),
    decreases n,
{
    lowest_bit_is(u, k);
    if n == 0 {
        assert(1u64 << 0u64 == 1u64) by (bit_vector);
    } else {
        rounds_of_powers(u, k, (n - 1) as nat);
        let j = (n - 1) as u64;
        let next = (j + 1) as u64;
        if j < k {
            assert(1u64 << j != 1u64 << k && (1u64 << j) << 1 == 1u64 << next) by (bit_vector)
                requires
                    j < k,
                    k < 64,
                    next == j + 1,
            ;
        }
    }
}

// ---------------------------------------------------------------------------
// Activities
// ---------------------------------------------------------------------------

/// Scores and an increment that are not too large.
pub open spec fn in_bounds(s: Standing) -> bool {
    &&& s.increment <= vsids::RESCALE_ABOVE
    &&& forall|v: int| 0 <= v < s.score.len() ==> #[trigger] s.score[v] <= vsids::RESCALE_ABOVE
}

/// A bump moves its variable forward and no other: what was not ahead of the
/// variable is not ahead of it afterwards, and the others keep their order.
/// Unless everything is scaled down, the score grows by the increment and the
/// others stay.
pub proof fn bumps_move_forward(s: Standing, var: Var, a: int, b: int)
    requires
        in_bounds(s),
        var < s.score.len(),
        0 <= a < s.score.len(),
        0 <= b < s.score.len(),
    ensures
        ({
            let t = vsids::bumped(s, var);
            &&& t.score.len() == s.score.len()
            &&& s.score[a] <= s.score[var as int] ==> t.score[a] <= t.score[var as int]
            &&& a != var && b != var && s.score[a] <= s.score[b] ==> t.score[a] <= t.score[b]
            &&& s.score[var as int] + s.increment <= vsids::RESCALE_ABOVE ==> {
                &&& t.score[var as int] == s.score[var as int] + s.increment
                &&& a != var ==> t.score[a] == s.score[a]
                &&& t.increment == s.increment
            }
            &&& in_bounds(t)
        }),
{
    let raised = Standing {
        score: s.score.update(var as int, (s.score[var as int] + s.increment) as u64),
        ..s
    };
    let t = vsids::bumped(s, var);
    assert(s.score[var as int] <= vsids::RESCALE_ABOVE);
    assert(s.score[a] <= vsids::RESCALE_ABOVE);
    assert forall|v: int| 0 <= v < t.score.len() implies #[trigger] t.score[v]
        <= vsids::RESCALE_ABOVE by {
        assert(s.score[v] <= vsids::RESCALE_ABOVE);
    }
}

/// Decay makes later bumps weigh more, by a nineteenth, unless everything is
/// scaled down; it never changes the order of the variables.
pub proof fn decay_favours_later_bumps(s: Standing, a: int, b: int)
    requires
        in_bounds(s),
        0 <= a < s.score.len(),
        0 <= b < s.score.len(),
    ensures
        ({
            let t = vsids::decayed(s);
            &&& t.score.len() == s.score.len()
            &&& s.score[a] <= s.score[b] ==> t.score[a] <= t.score[b]
            &&& 20 * s.increment + 19 <= 19 * vsids::RESCALE_ABOVE ==> {
                &&& t.score == s.score
                &&& t.increment > s.increment
                &&& 20 * s.increment <= 19 * t.increment <= 20 * s.increment + 19
            }
        }),
{
    assert(s.increment + s.increment / 19 + 1 <= u64::MAX);
}

// ---------------------------------------------------------------------------
// Utilities
// ---------------------------------------------------------------------------

/// The utility of a clause is the share of one that its LBD leaves, rounded
/// down; a clause without an LBD has it all.
pub proof fn utilities_are_shares(lbd: u32)
    ensures
        reasoner::utility_for(0) == UTILITY_ONE,
        reasoner::utility_for(lbd) * (1 + lbd) <= UTILITY_ONE,
        UTILITY_ONE < (reasoner::utility_for(lbd) + 1) * (1 + lbd),
{
    let d = 1 + lbd as int;
    let q = UTILITY_ONE as int / d;
    assert(UTILITY_ONE as int / 1 == UTILITY_ONE as int);
    assert(0 <= q <= UTILITY_ONE && q * d <= UTILITY_ONE && UTILITY_ONE < (q + 1) * d)
        by (nonlinear_arith)
        requires
            d >= 1,
            q == UTILITY_ONE as int / d,
    ;
}

// ---------------------------------------------------------------------------
// Imports
// ---------------------------------------------------------------------------

/// Every object of a batch is counted once; it counts as applied if it takes
/// effect, and as buffered if the import gate holds it back.
pub proof fn imports_are_accounted_for(g: GateView, n: u32, batch: Seq<ObjectView>, i: int)
    requires
        0 <= i <= batch.len() <= u32::MAX,
    ensures
        ({
            let s = reasoner::stats_after(g, n, batch, i);
            &&& s.received == batch.len()
            &&& s.applied + s.buffered + s.discarded_no_overlap + s.discarded_duplicate == i
            &&& i > 0 ==> {
                let b = reasoner::stats_after(g, n, batch, i - 1);
                let d = import::decision_at(g, batch, i - 1);
                &&& s.applied == b.applied + (if reasoner::takes_effect(g, n, batch, i - 1) {
                    1int
                } else {
                    0
                })
                &&& s.buffered == b.buffered + (if d is Buffered {
                    1int
                } else {
                    0
                })
                &&& s.discarded_duplicate == b.discarded_duplicate + (if d is Duplicate {
                    1int
                } else {
                    0
                })
            }
        }),
    decreases i,
{
    if i > 0 {
        imports_are_accounted_for(g, n, batch, i - 1);
    }
}

/// The clauses that an import brings are those of the objects that take effect.
pub proof fn imported_clauses(g: GateView, n: u32, batch: Seq<ObjectView>, i: int, c: Seq<Literal>)
    requires
        0 <= i <= batch.len(),
    ensures
        reasoner::clauses_after(g, n, batch, i).contains(c) <==> exists|k: int|
            0 <= k < i && reasoner::takes_effect(g, n, batch, k) && (
            (#[trigger] batch[k]).kind matches KindView::Clause { literals, .. } && literals == c),
    decreases i,
{
    if i > 0 {
        imported_clauses(g, n, batch, i - 1, c);
        let a = reasoner::clauses_after(g, n, batch, i - 1);
        let b = reasoner::clauses_after(g, n, batch, i);
        if a.contains(c) {
            let k = choose|k: int| 0 <= k < a.len() && a[k] == c;
            assert(b[k] == c);
        }
        if b.contains(c) {
            let k = choose|k: int| 0 <= k < b.len() && b[k] == c;
            if k < a.len() {
                assert(a[k] == c);
            } else {
                assert(batch[i - 1].kind is Clause);
            }
        }
        if reasoner::takes_effect(g, n, batch, i - 1) {
            if let KindView::Clause { literals, .. } = batch[i - 1].kind {
                assert(b[b.len() - 1] == literals);
            }
        }
    }
}

/// The watermark is the highest identifier of what took effect.
pub proof fn watermarks_are_highest(
    g: GateView,
    n: u32,
    batch: Seq<ObjectView>,
    i: int,
    start: u64,
)
    requires
        0 <= i <= batch.len(),
    ensures
        ({
            let w = reasoner::watermark_after(g, n, batch, i, start);
            &&& w >= start
            &&& forall|k: int|
                0 <= k < i && reasoner::takes_effect(g, n, batch, k) ==> (
                #[trigger] batch[k]).id.0 <= w
            &&& w == start || exists|k: int|
                0 <= k < i && reasoner::takes_effect(g, n, batch, k) && (
                #[trigger] batch[k]).id.0 == w
        }),
    decreases i,
{
    if i > 0 {
        watermarks_are_highest(g, n, batch, i - 1, start);
        assert(batch[i - 1] == batch[i - 1]);
    }
}

/// Where a literal belongs among ascending ones.
proof fn place_among(t: Seq<Literal>, l: Literal) -> (p: int)
    requires
        import::ascending(t),
    ensures
        0 <= p <= t.len(),
        forall|i: int| 0 <= i < p ==> (#[trigger] t[i]).0 < l.0,
        forall|i: int| p <= i < t.len() ==> (#[trigger] t[i]).0 >= l.0,
    decreases t.len(),
{
    if t.len() == 0 {
        0
    } else if t.last().0 < l.0 {
        assert forall|i: int| 0 <= i < t.len() implies (#[trigger] t[i]).0 < l.0 by {
            if i < t.len() - 1 {
                assert(t[i].0 < t[t.len() - 1].0);
            }
        }
        t.len() as int
    } else {
        let rest = t.drop_last();
        assert forall|i: int, j: int| 0 <= i < j < rest.len() implies (#[trigger] rest[i]).0 < (
        #[trigger] rest[j]).0 by {
            assert(t[i].0 < t[j].0);
        }
        let p = place_among(rest, l);
        assert forall|i: int| 0 <= i < p implies (#[trigger] t[i]).0 < l.0 by {
            assert(rest[i] == t[i]);
        }
        assert forall|i: int| p <= i < t.len() implies (#[trigger] t[i]).0 >= l.0 by {
            if i < rest.len() {
                assert(rest[i] == t[i]);
            }
        }
        p
    }
}

/// Every set of literals can be put in order.
proof fn sorted_exists(lits: Seq<Literal>) -> (s: Seq<Literal>)
    ensures
        import::ascending(s),
        import::same_literals(s, lits),
    decreases lits.len(),
{
    if lits.len() == 0 {
        lits
    } else {
        let t = sorted_exists(lits.drop_last());
        let l = lits.last();
        let p = place_among(t, l);
        let present = p < t.len() && t[p] == l;
        let s = if present {
            t
        } else {
            t.insert(p, l)
        };
        assert forall|i: int, j: int| 0 <= i < j < s.len() implies (#[trigger] s[i]).0 < (
        #[trigger] s[j]).0 by {
            if !present {
                let a = if i < p { i } else { i - 1 };
                let b = if j < p { j } else { j - 1 };
                if i != p && j != p {
                    assert(t[a].0 < t[b].0);
                } else if i == p {
                    assert(t[b].0 >= l.0);
                    if b == p {
                        assert(t[p] != l);
                    } else {
                        assert(t[p].0 < t[b].0);
                    }
                } else {
                    assert(t[i].0 < l.0);
                }
            }
        }
        assert forall|x: Literal| #[trigger] s.contains(x) <==> lits.contains(x) by {
            assert(t.contains(x) <==> lits.drop_last().contains(x));
            if s.contains(x) {
                let k = choose|k: int| 0 <= k < s.len() && s[k] == x;
                if present || k < p {
                    assert(t[k] == x);
                } else if k > p {
                    assert(t[k - 1] == x);
                } else {
                    assert(lits[lits.len() - 1] == x);
                }
            }
            if lits.drop_last().contains(x) {
                let k = choose|k: int| 0 <= k < lits.len() - 1 && lits.drop_last()[k] == x;
                assert(lits[k] == x);
            }
            if lits.contains(x) {
                let k = choose|k: int| 0 <= k < lits.len() && lits[k] == x;
                if k < lits.len() - 1 {
                    assert(lits.drop_last()[k] == x);
                    let q = choose|q: int| 0 <= q < t.len() && t[q] == x;
                    assert(s[if present || q < p {
                        q
                    } else {
                        q + 1
                    }] == x);
                } else {
                    assert(s[p] == x);
                }
            }
        }
        s
    }
}

/// What is exported of a learned clause: its literals and its LBD, under the
/// assumptions of the work, with an identifier of its own.
pub proof fn exports_tell_what_was_learned(
    entries: Seq<(Vec<Literal>, u32)>,
    ctx: Seq<Literal>,
    worker: WorkerId,
    id: u64,
    i: int,
    l: Literal,
)
    requires
        0 <= i < entries.len(),
        id + entries.len() <= u64::MAX,
    ensures
        ({
            let o = reasoner::tagged_all(entries, ctx, worker, id)[i];
            &&& reasoner::tagged_all(entries, ctx, worker, id).len() == entries.len()
            &&& o.id.0 == id + i
            &&& o.source == worker.0
            &&& o.assumptions == ctx
            &&& o.kind matches KindView::Clause { literals, lbd } && lbd == entries[i].1 && (
            literals.contains(l) <==> entries[i].0@.contains(l)) && import::ascending(literals)
        }),
{
    let sorted = sorted_exists(entries[i].0@);
    import::sorted_form_is(sorted, entries[i].0@);
    let s = import::sorted_form(entries[i].0@);
    assert(s.contains(l) <==> entries[i].0@.contains(l));
}

/// The identifiers of different workers do not meet: a worker has as many as a
/// half word tells apart before those of the next begin.
pub proof fn workers_have_their_own_identifiers(a: WorkerId, b: WorkerId, n: int)
    requires
        a.0 < b.0,
        0 <= n < 0x1_0000_0000,
    ensures
        0 < reasoner::first_kid(a),
        reasoner::first_kid(a) + n < reasoner::first_kid(b),
        reasoner::first_kid(b) <= u64::MAX,
{
}

// ---------------------------------------------------------------------------
// Exports
// ---------------------------------------------------------------------------

/// A policy lets an object out: it is useful enough, its scope is not too wide,
/// and its kind is asked for.
pub open spec fn let_out(p: ExportPolicy, o: ObjectView) -> bool {
    &&& o.utility >= p.min_utility
    &&& hierarchy::level(o.scope) <= hierarchy::level(p.max_scope)
    &&& p.kind_filter@.len() == 0 || p.kind_filter@.contains(knowledge::tag_of(o.kind))
}

/// What is let out is handed out, in order, as long as there is room; what
/// comes after that is kept, and nothing that is let out is lost.
pub proof fn exports_go_out(p: ExportPolicy, objs: Seq<ObjectView>, o: ObjectView)
    requires
        objs.contains(o),
        o.id.0 > p.watermark.0,
        let_out(p, o),
    ensures
        ({
            let (out, kept) = reasoner::export_split(p, reasoner::past_watermark(p, objs));
            &&& out.contains(o) || kept.contains(o)
            &&& out.len() < p.max_items ==> out.contains(o) && kept.len() == 0
            &&& out.len() + kept.len() <= objs.len()
        }),
{
    let q = |x: ObjectView| x.id.0 > p.watermark.0;
    let fresh = reasoner::past_watermark(p, objs);
    let i = choose|i: int| 0 <= i < objs.len() && objs[i] == o;
    objs.lemma_filter_contains(q, i);
    objs.lemma_filter_len(q);
    split_keeps(p, fresh, o);
}

proof fn split_keeps(p: ExportPolicy, objs: Seq<ObjectView>, o: ObjectView)
    ensures
        ({
            let (out, kept) = reasoner::export_split(p, objs);
            &&& objs.contains(o) && let_out(p, o) ==> out.contains(o) || kept.contains(o)
            &&& out.len() < p.max_items ==> kept.len() == 0
            &&& out.len() + kept.len() <= objs.len()
        }),
    decreases objs.len(),
{
    if objs.len() > 0 {
        let rest = objs.drop_last();
        split_keeps(p, rest, o);
        let (a, b) = reasoner::export_split(p, rest);
        let (out, kept) = reasoner::export_split(p, objs);
        if objs.contains(o) && let_out(p, o) {
            let i = choose|i: int| 0 <= i < objs.len() && objs[i] == o;
            if i < rest.len() {
                assert(rest[i] == o);
                if a.contains(o) {
                    let k = choose|k: int| 0 <= k < a.len() && a[k] == o;
                    assert(out[k] == o);
                } else {
                    let k = choose|k: int| 0 <= k < b.len() && b[k] == o;
                    assert(kept[k] == o);
                }
            } else if a.len() >= p.max_items {
                assert(kept[b.len() as int] == o);
            } else {
                assert(out[a.len() as int] == o);
            }
        }
    }
}

} // verus!
