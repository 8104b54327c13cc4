//! Boolean constraint propagation over the two-watched-literal index.

use vstd::prelude::*;

use crate::akx::literal::Literal;
use crate::sat::assignment::{Assignment, Value};
use crate::sat::clause::{Clause, ClauseDb, ClauseRef};
use crate::sat::watched::WatchList;
#[allow(unused_imports)]
use crate::akx::logic;
#[allow(unused_imports)]
use crate::sat::clause::FIRST_SENTINEL;
#[allow(unused_imports)]
use crate::sat::state;
#[allow(unused_imports)]
use crate::sat::trace::Basis;
#[allow(unused_imports)]
use crate::sat::watched;

verus! {

/// What became of a woken clause.
pub enum Visit {
    /// It is satisfied or became unit, and stays where it was watched.
    Kept,
    /// It is watched at another literal now.
    Moved,
    /// All its literals are false.
    Conflict(ClauseRef),
}

/// The state while the clauses watching `p` are visited: the first `idx` of
/// them are settled.
pub open spec fn visiting(
    f: Basis,
    n: u32,
    db: ClauseDb,
    w: WatchList,
    a: Assignment,
    floor: u32,
    p: Literal,
    idx: int,
) -> bool {
    let h = a.prop_head - 1;
    &&& state::search_ok(f, n, db, w, a)
    &&& 0 <= h < a.trail@.len()
    &&& a.trail@[h] == p
    &&& state::settled(db, a, floor, h)
    &&& state::pending_ok(a, floor)
    &&& state::pending_at(a, floor, h)
    &&& 0 <= idx <= w.under(p).len()
    &&& forall|j: int|
        0 <= j < idx ==> state::clause_settled(
            db,
            a,
            floor,
            h + 1,
            (#[trigger] w.under(p)[j]).0 as int,
        )
}

/// Every literal of a stored clause is false.
pub open spec fn falsified(db: ClauseDb, a: Assignment, r: int) -> bool {
    db.live(r) && forall|k: int|
        0 <= k < db.lits(r).len() ==> a.val(#[trigger] db.lits(r)[k]) == Value::False
}

/// The literal `p` at the propagation cursor is true, and a literal that was
/// true at a level no higher than the current one satisfies a clause woken
/// by `p` for as long as `p` stays.
proof fn reach_covers(n: u32, a: Assignment, floor: u32, p: Literal, o: Literal)
    requires
        a.well_formed(),
        a.prop_head >= 1,
        a.trail@[a.prop_head - 1] == p,
        state::pending_at(a, floor, a.prop_head - 1),
        o.var() < a.cap(),
        a.val(o) == Value::True,
    ensures
        a.lvl(o) <= state::reach(a.lvl(p), floor),
{
    state::true_on_trail(a, o);
}

/// Exchange two literals of a stored clause.
fn swap_in(db: &mut ClauseDb, cr: ClauseRef, i: usize, j: usize)
    requires
        old(db).live(cr.0 as int),
        i < old(db).lits(cr.0 as int).len(),
        j < old(db).lits(cr.0 as int).len(),
    ensures
        state::db_swapped(*old(db), *final(db), cr.0 as int, i as int, j as int),
{
    let c: &mut Clause = db.get_mut(cr);
    c.lits.swap(i, j);
}

/// Visit the clause at position `idx` among those woken by `p`.
#[verifier::rlimit(60)]
pub fn visit(
    db: &mut ClauseDb,
    watches: &mut WatchList,
    a: &mut Assignment,
    p: Literal,
    idx: usize,
    Ghost(f): Ghost<Basis>,
    Ghost(n): Ghost<u32>,
    Ghost(floor): Ghost<u32>,
) -> (v: Visit)
    requires
        visiting(f, n, *old(db), *old(watches), *old(a), floor, p, idx as int),
        idx < old(watches).under(p).len(),
    ensures
        v is Kept ==> {
            &&& visiting(f, n, *final(db), *final(watches), *final(a), floor, p, idx + 1)
            &&& final(watches).under(p).len() == old(watches).under(p).len()
        },
        v is Moved ==> {
            &&& visiting(f, n, *final(db), *final(watches), *final(a), floor, p, idx as int)
            &&& final(watches).under(p).len() == old(watches).under(p).len() - 1
        },
        v matches Visit::Conflict(cr) ==> {
            &&& visiting(f, n, *final(db), *final(watches), *final(a), floor, p, idx as int)
            &&& falsified(*final(db), *final(a), cr.0 as int)
            &&& final(db).lits(cr.0 as int)[1] == p.negate()
        },
        final(db).clauses@.len() == old(db).clauses@.len(),
        final(db).has_empty == old(db).has_empty,
        final(a).prop_head == old(a).prop_head,
        final(a).trail_lim@ == old(a).trail_lim@,
        old(a).trail@.is_prefix_of(final(a).trail@),
{
    let ghost db0 = *db;
    let ghost w0 = *watches;
    let ghost a0 = *a;
    let ghost h: int = a.prop_head - 1;
    assert(1 <= p.var() <= n);
    let cr: ClauseRef = watches.get(p)[idx];
    let ghost r: int = cr.0 as int;
    proof {
        watched::occurrences_member(w0.under(p), idx as int);
        assert(watched::occurrences(w0.under(p), cr) == db0.watch_count(p, cr));
        assert(db0.live(r));
        assert(a.val(p) == Value::True);
        assert(a.at(p) == h);
    }
    let first: Literal = db.get(cr).lits.at(0);
    if first.negate() == p {
        swap_in(db, cr, 0, 1);
        proof {
            crate::akx::literal::negation_laws(first);
            state::swap_keeps(f, n, db0, *db, a0, r, 0, 1);
        }
    }
    let ghost db1 = *db;
    let ghost c1 = db1.lits(r);
    proof {
        crate::akx::literal::negation_laws(c1[1]);
        crate::akx::literal::negation_laws(p);
        assert(db1.live(r));
        assert(c1[1] == p.negate());
        assert forall|s: int| db1.live(s) == #[trigger] db0.live(s) by {}
        assert forall|l: Literal, s: ClauseRef| db1.watch_count(l, s)
            == #[trigger] db0.watch_count(l, s) by {
            if s == cr {
            } else if db0.live(s.0 as int) {
                assert(db1.clauses@[s.0 as int] == db0.clauses@[s.0 as int]);
            }
        }
        assert(state::watch_ok(n, db1, w0));
        assert forall|s: int, u: int| #[trigger] db1.live(s) && (#[trigger] state::clause_settled(
            db0,
            a0,
            floor,
            u,
            s,
        )) implies state::clause_settled(db1, a0, floor, u, s) by {
            if s != r {
                assert(db1.clauses@[s] == db0.clauses@[s]);
            }
        }
        assert(state::search_ok(f, n, db1, w0, a0));
        assert(state::settled(db1, a0, floor, h)) by {
            assert forall|s: int| #[trigger] db1.live(s) implies state::clause_settled(
                db1,
                a0,
                floor,
                h,
                s,
            ) by {
                assert(db0.live(s));
                assert(state::clause_settled(db0, a0, floor, h, s));
            }
        }
        assert forall|j: int| 0 <= j < idx implies state::clause_settled(
            db1,
            a0,
            floor,
            h + 1,
            (#[trigger] w0.under(p)[j]).0 as int,
        ) by {
            let s = w0.under(p)[j];
            watched::occurrences_member(w0.under(p), j);
            assert(watched::occurrences(w0.under(p), s) == db0.watch_count(p, s));
            assert(db0.live(s.0 as int));
            assert(db1.live(s.0 as int));
            assert(state::clause_settled(db0, a0, floor, h + 1, s.0 as int));
        }
        assert(visiting(f, n, db1, w0, a0, floor, p, idx as int));
        assert(state::lits_ok(n, c1));
        assert(1 <= c1[0].var() <= n && 1 <= c1[1].var() <= n);
    }
    let other: Literal = db.get(cr).lits.at(0);
    if a.literal_value(other) == Value::True {
        proof {
            reach_covers(n, a0, floor, p, other);
            assert(state::clause_settled(db1, a0, floor, h + 1, r));
        }
        return Visit::Kept;
    }
    let len: usize = db.get(cr).lits.len();
    let mut k: usize = 2;
    while k < len
        invariant
            *db == db1,
            *watches == w0,
            *a == a0,
            2 <= k <= len,
            len == c1.len(),
            c1 == db1.lits(r),
            r == cr.0 as int,
            db1.live(r),
            state::lits_ok(n, c1),
            a0.cap() == n + 1,
            a0.well_formed(),
            other == c1[0],
            a0.val(other) != Value::True,
            visiting(f, n, db1, w0, a0, floor, p, idx as int),
            w0.under(p)[idx as int] == cr,
            idx < w0.under(p).len(),
            h == a0.prop_head - 1,
            c1[1] == p.negate(),
            a0.at(p) == h,
            a0.val(p) == Value::True,
            1 <= p.var() <= n,
            old(db).clauses@.len() == db1.clauses@.len(),
            old(db).has_empty == db1.has_empty,
            *old(a) == a0,
            *old(watches) == w0,
            forall|j: int| 2 <= j < k ==> a0.val(#[trigger] c1[j]) == Value::False,
        decreases len - k,
    {
        let cand: Literal = db.get(cr).lits.at(k);
        assert(1 <= c1[k as int].var() <= n);
        if a.literal_value(cand) != Value::False {
            swap_in(db, cr, 1, k);
            proof {
                state::swap_keeps(f, n, db1, *db, a0, r, 1, k as int);
                crate::akx::literal::negation_laws(cand);
                crate::akx::literal::negation_laws(p);
                assert(cand.negate() != p);
                assert(1 <= c1[0].var() <= n);
            }
            let new_watch: Literal = db.get(cr).lits.at(1);
            assert(new_watch == cand);
            proof {
                // The woken clauses before `idx` are settled and this one is
                // not, so this is its first and only occurrence.
                assert forall|j: int| 0 <= j < idx implies w0.under(p)[j] != cr by {
                    if w0.under(p)[j] == cr {
                        assert(state::clause_settled(db1, a0, floor, h + 1, r));
                        assert(false);
                    }
                }
                assert(watched::first_at(w0.under(p), cr, idx as int));
            }
            watches.remove(p, cr);
            let ghost w1 = *watches;
            watches.watch(new_watch.negate(), cr);
            proof {
                moved_ok(f, n, db1, *db, w0, w1, *watches, a0, floor, p, idx as int, k as int);
            }
            return Visit::Moved;
        }
        k += 1;
    }
    if a.literal_value(other) == Value::False {
        proof {
            assert forall|j: int| 0 <= j < c1.len() implies a0.val(#[trigger] c1[j])
                == Value::False by {
                if j == 1 {
                    crate::akx::literal::negation_laws(p);
                }
            }
            assert(falsified(db1, a0, r));
        }
        return Visit::Conflict(cr);
    }
    let level: u32 = a.current_level();
    a.assign(other, level, cr.0);
    proof {
        assert(db1.clauses@.len() <= FIRST_SENTINEL);
        assert forall|j: int| 1 <= j < c1.len() implies a0.val(#[trigger] c1[j])
            == Value::False by {
            if j == 1 {
                crate::akx::literal::negation_laws(p);
            }
        }
        assert(state::assigned(a0, *a, other, cr.0));
        state::assign_keeps(f, n, db1, w0, a0, *a, other, cr.0, floor, h);
        unit_ok(f, n, db1, w0, a0, *a, floor, p, idx as int, cr);
    }
    Visit::Kept
}

/// After a woken clause found another literal to watch, the earlier ones are
/// still settled and the index is still right.
#[verifier::rlimit(40)]
proof fn moved_ok(
    f: Basis,
    n: u32,
    db1: ClauseDb,
    db2: ClauseDb,
    w0: WatchList,
    w1: WatchList,
    w2: WatchList,
    a: Assignment,
    floor: u32,
    p: Literal,
    idx: int,
    k: int,
)
    requires
        visiting(f, n, db1, w0, a, floor, p, idx),
        0 <= idx < w0.under(p).len(),
        ({
            let cr = w0.under(p)[idx];
            let r = cr.0 as int;
            let c = db1.lits(r);
            &&& db1.live(r)
            &&& 2 <= k < c.len()
            &&& c[1] == p.negate()
            &&& a.val(c[0]) != Value::True
            &&& a.val(c[k]) != Value::False
            &&& c[k].negate() != p
            &&& state::db_swapped(db1, db2, r, 1, k)
            &&& watched::first_at(w0.under(p), cr, idx)
            &&& w1.size() == w0.size()
            &&& w1.under(p) == watched::swap_removed(w0.under(p), idx)
            &&& forall|l: Literal|
                l != p && l.0 < w0.size() ==> #[trigger] w1.under(l) == w0.under(l)
            &&& w2.size() == w1.size()
            &&& w2.under(c[k].negate()) == w1.under(c[k].negate()).push(cr)
            &&& forall|l: Literal|
                l != c[k].negate() && l.0 < w1.size() ==> #[trigger] w2.under(l) == w1.under(l)
        }),
        state::db_ok(n, db2),
        state::reasons_ok(db2, a),
        state::sound_ok(f, db2),
        state::formula_kept(f, db2, a),
        1 <= p.var() <= n,
    ensures
        visiting(f, n, db2, w2, a, floor, p, idx),
        w2.under(p).len() == w0.under(p).len() - 1,
{
    let cr = w0.under(p)[idx];
    let r = cr.0 as int;
    let c = db1.lits(r);
    let q = c[k].negate();
    let h = a.prop_head - 1;
    crate::akx::literal::negation_laws(p);
    crate::akx::literal::negation_laws(c[0]);
    crate::akx::literal::negation_laws(c[k]);
    assert(1 <= c[0].var() <= n && 1 <= c[1].var() <= n && 1 <= c[k].var() <= n);
    assert forall|l: Literal, s: ClauseRef| l.0 < w2.size() implies #[trigger] watched::occurrences(
        w2.under(l),
        s,
    ) == db2.watch_count(l, s) by {
        assert(watched::occurrences(w0.under(l), s) == db1.watch_count(l, s));
        watched::occurrences_swap_removed(w0.under(p), idx, s);
        watched::occurrences_push(w1.under(q), cr, s);
        if s != cr && db1.live(s.0 as int) {
            assert(db2.clauses@[s.0 as int] == db1.clauses@[s.0 as int]);
        }
    }
    assert(w2.under(p) == w1.under(p));
    assert forall|s: int| #[trigger] db2.live(s) implies state::clause_settled(
        db2,
        a,
        floor,
        h,
        s,
    ) by {
        assert(db1.live(s));
        assert(state::clause_settled(db1, a, floor, h, s));
        if s != r {
            assert(db2.clauses@[s] == db1.clauses@[s]);
        }
    }
    assert forall|j: int| 0 <= j < idx implies state::clause_settled(
        db2,
        a,
        floor,
        h + 1,
        (#[trigger] w2.under(p)[j]).0 as int,
    ) by {
        assert(w2.under(p)[j] == w0.under(p)[j]);
        let s = w0.under(p)[j];
        assert(s != cr);
        watched::occurrences_member(w0.under(p), j);
        assert(watched::occurrences(w0.under(p), s) == db1.watch_count(p, s));
        assert(db1.live(s.0 as int));
        assert(db2.clauses@[s.0 as int] == db1.clauses@[s.0 as int]);
        assert(state::clause_settled(db1, a, floor, h + 1, s.0 as int));
    }
}

/// After a woken clause forced its last literal, it and the earlier ones are
/// settled.
#[verifier::rlimit(40)]
proof fn unit_ok(
    f: Basis,
    n: u32,
    db: ClauseDb,
    w: WatchList,
    a: Assignment,
    b: Assignment,
    floor: u32,
    p: Literal,
    idx: int,
    cr: ClauseRef,
)
    requires
        visiting(f, n, db, w, a, floor, p, idx),
        0 <= idx < w.under(p).len(),
        w.under(p)[idx] == cr,
        db.live(cr.0 as int),
        db.lits(cr.0 as int)[1] == p.negate(),
        a.val(db.lits(cr.0 as int)[0]) == Value::Undef,
        state::assigned(a, b, db.lits(cr.0 as int)[0], cr.0),
        b.well_formed(),
        state::search_ok(f, n, db, w, b),
        state::settled(db, b, floor, a.prop_head - 1),
        1 <= p.var() <= n,
    ensures
        visiting(f, n, db, w, b, floor, p, idx + 1),
{
    let o = db.lits(cr.0 as int)[0];
    let h = a.prop_head - 1;
    assert(1 <= o.var() <= n);
    assert(b.trail@[h] == p);
    state::assigned_frame(a, b, o, cr.0, p);
    assert forall|i: int| b.prop_head <= i < b.trail@.len() implies #[trigger] state::pending_at(
        b,
        floor,
        i,
    ) by {
        if i < a.trail@.len() {
            assert(state::pending_at(a, floor, i));
            assert(b.trail@[i] == a.trail@[i]);
            assert(a.trail@[i].var() < a.cap());
            state::assigned_frame(a, b, o, cr.0, a.trail@[i]);
        }
    }
    assert(state::pending_at(b, floor, h));
    crate::akx::literal::negation_laws(p);
    assert forall|j: int| 0 <= j < idx + 1 implies state::clause_settled(
        db,
        b,
        floor,
        h + 1,
        (#[trigger] w.under(p)[j]).0 as int,
    ) by {
        let s = w.under(p)[j].0 as int;
        watched::occurrences_member(w.under(p), j);
        assert(watched::occurrences(w.under(p), w.under(p)[j]) == db.watch_count(
            p,
            w.under(p)[j],
        ));
        assert(db.live(s));
        let c0 = db.lits(s)[0];
        let c1 = db.lits(s)[1];
        assert(1 <= c0.var() <= n && 1 <= c1.var() <= n);
        if j < idx {
            assert(state::clause_settled(db, a, floor, h + 1, s));
            if c0.var() != o.var() && a.val(c0) != Value::Undef {
                state::assigned_frame(a, b, o, cr.0, c0);
            }
            if c1.var() != o.var() && a.val(c1) != Value::Undef {
                state::assigned_frame(a, b, o, cr.0, c1);
            }
        } else {
            reach_covers(n, b, floor, p, o);
        }
    }
}

/// Run propagation to a fixed point. Returns the conflicting clause, if any.
///
/// `watches[p.raw()]` holds the clauses woken when literal `p` becomes true;
/// a clause with watched literals `w0`, `w1` is stored under `¬w0` and `¬w1`.
/// A literal whose clauses met a conflict stays at the propagation cursor.
pub fn propagate(
    db: &mut ClauseDb,
    watches: &mut WatchList,
    a: &mut Assignment,
    propagations: &mut u64,
    Ghost(f): Ghost<Basis>,
    Ghost(n): Ghost<u32>,
    Ghost(floor): Ghost<u32>,
) -> (conflict: Option<ClauseRef>)
    requires
        state::resting_ok(f, n, *old(db), *old(watches), *old(a), floor),
    ensures
        state::resting_ok(f, n, *final(db), *final(watches), *final(a), floor),
        conflict is None ==> final(a).prop_head == final(a).trail@.len(),
        conflict matches Some(cr) ==> {
            &&& falsified(*final(db), *final(a), cr.0 as int)
            &&& final(a).prop_head < final(a).trail@.len()
            &&& final(db).lits(cr.0 as int)[1]
                == final(a).trail@[final(a).prop_head as int].negate()
        },
        final(db).clauses@.len() == old(db).clauses@.len(),
        final(db).has_empty == old(db).has_empty,
        final(a).trail_lim@ == old(a).trail_lim@,
        old(a).trail@.is_prefix_of(final(a).trail@),
{
    let ghost db0 = *db;
    let ghost a0 = *a;
    while a.prop_head < a.trail().len()
        invariant
            state::resting_ok(f, n, *db, *watches, *a, floor),
            db.clauses@.len() == db0.clauses@.len(),
            db.has_empty == db0.has_empty,
            a.trail_lim@ == a0.trail_lim@,
            a0.trail@.is_prefix_of(a.trail@),
            *old(db) == db0,
            *old(a) == a0,
        decreases n + 1 - a.prop_head,
    {
        let p: Literal = a.trail()[a.prop_head];
        proof {
            state::trail_bounded(*a, n);
            assert(state::pending_at(*a, floor, a.prop_head as int));
            assert(1 <= p.var() <= n);
        }
        let ghost a1 = *a;
        a.prop_head += 1;
        *propagations = propagations.saturating_add(1);
        proof {
            cursor_moved(f, n, *db, *watches, a1, *a, floor);
        }
        let mut idx: usize = 0;
        loop
            invariant
                visiting(f, n, *db, *watches, *a, floor, p, idx as int),
                1 <= p.var() <= n,
                db.clauses@.len() == db0.clauses@.len(),
                db.has_empty == db0.has_empty,
                a.trail_lim@ == a0.trail_lim@,
                a0.trail@.is_prefix_of(a.trail@),
                a.prop_head == a1.prop_head + 1,
                *old(db) == db0,
                *old(a) == a0,
            ensures
                idx == watches.under(p).len(),
            decreases watches.under(p).len() - idx,
        {
            if idx >= watches.get(p).len() {
                break;
            }
            match visit(db, watches, a, p, idx, Ghost(f), Ghost(n), Ghost(floor)) {
                Visit::Kept => {
                    idx += 1;
                },
                Visit::Moved => {},
                Visit::Conflict(cr) => {
                    let ghost a2 = *a;
                    a.prop_head -= 1;
                    proof {
                        cursor_held(f, n, *db, *watches, a2, *a, floor, p, idx as int);
                    }
                    return Some(cr);
                },
            }
        }
        proof {
            all_visited(f, n, *db, *watches, *a, floor, p);
            state::trail_bounded(*a, n);
        }
    }
    None
}

/// Fields other than the cursor do not change.
pub open spec fn cursor_only(a: Assignment, b: Assignment) -> bool {
    &&& b.value == a.value
    &&& b.level == a.level
    &&& b.reason == a.reason
    &&& b.trail == a.trail
    &&& b.trail_lim == a.trail_lim
    &&& b.pos == a.pos
}

/// The search state does not depend on the cursor.
pub proof fn cursor_free(
    f: Basis,
    n: u32,
    db: ClauseDb,
    w: WatchList,
    a: Assignment,
    b: Assignment,
)
    requires
        state::core_ok(f, n, db, w, a),
        cursor_only(a, b),
        b.prop_head <= b.trail@.len(),
    ensures
        state::core_ok(f, n, db, w, b),
        forall|c: Seq<Literal>|
            #[trigger] state::clause_kept(db, a, c) ==> state::clause_kept(db, b, c),
{
    assert forall|i: int| 0 <= i < b.trail@.len() implies {
        &&& (#[trigger] b.trail@[i].var()) < b.cap()
        &&& b.val(b.trail@[i]) == Value::True
        &&& b.at(b.trail@[i]) == i
        &&& b.in_segment(i, b.lvl(b.trail@[i]) as int)
    } by {
        assert(a.trail@[i].var() < a.cap());
        assert(a.in_segment(i, a.lvl(a.trail@[i]) as int));
    }
    assert forall|i: int| 0 <= i < b.trail@.len() implies #[trigger] state::reason_ok(db, b, i) by {
        assert(state::reason_ok(db, a, i));
    }
    assert forall|i: int| 0 <= i < b.trail@.len() implies #[trigger] state::root_ok(f, b, i) by {
        assert(state::root_ok(f, a, i));
        assert(state::opens_level(a, i) == state::opens_level(b, i));
    }
    assert forall|c: Seq<Literal>| #[trigger] state::clause_kept(db, a, c) implies
        state::clause_kept(db, b, c) by {
        if exists|i: int| #[trigger] state::settled_by(a, i, c) {
            let i = choose|i: int| #[trigger] state::settled_by(a, i, c);
            assert(state::settled_by(b, i, c));
        }
    }
}

proof fn cursor_moved(
    f: Basis,
    n: u32,
    db: ClauseDb,
    w: WatchList,
    a: Assignment,
    b: Assignment,
    floor: u32,
)
    requires
        state::resting_ok(f, n, db, w, a, floor),
        cursor_only(a, b),
        a.prop_head < a.trail@.len(),
        b.prop_head == a.prop_head + 1,
    ensures
        visiting(f, n, db, w, b, floor, b.trail@[a.prop_head as int], 0),
{
    cursor_free(f, n, db, w, a, b);
    assert forall|i: int| a.prop_head <= i < b.trail@.len() implies #[trigger] state::pending_at(
        b,
        floor,
        i,
    ) by {
        assert(state::pending_at(a, floor, i));
    }
    assert(state::pending_at(b, floor, a.prop_head as int));
    assert forall|r: int| #[trigger] db.live(r) implies state::clause_settled(
        db,
        b,
        floor,
        a.prop_head as int,
        r,
    ) by {
        assert(state::clause_settled(db, a, floor, a.prop_head as int, r));
    }
}

proof fn cursor_held(
    f: Basis,
    n: u32,
    db: ClauseDb,
    w: WatchList,
    a: Assignment,
    b: Assignment,
    floor: u32,
    p: Literal,
    idx: int,
)
    requires
        visiting(f, n, db, w, a, floor, p, idx),
        cursor_only(a, b),
        b.prop_head == a.prop_head - 1,
    ensures
        state::resting_ok(f, n, db, w, b, floor),
{
    cursor_free(f, n, db, w, a, b);
    assert forall|i: int| b.prop_head <= i < b.trail@.len() implies #[trigger] state::pending_at(
        b,
        floor,
        i,
    ) by {
        assert(state::pending_at(a, floor, i));
    }
    assert forall|r: int| #[trigger] db.live(r) implies state::clause_settled(
        db,
        b,
        floor,
        b.prop_head as int,
        r,
    ) by {
        assert(state::clause_settled(db, a, floor, a.prop_head - 1, r));
    }
}

/// Once every clause woken by `p` is settled, `p` is processed.
proof fn all_visited(
    f: Basis,
    n: u32,
    db: ClauseDb,
    w: WatchList,
    a: Assignment,
    floor: u32,
    p: Literal,
)
    requires
        visiting(f, n, db, w, a, floor, p, w.under(p).len() as int),
        1 <= p.var() <= n,
    ensures
        state::resting_ok(f, n, db, w, a, floor),
{
    let h = a.prop_head - 1;
    crate::akx::literal::negation_laws(p);
    assert forall|r: int| #[trigger] db.live(r) implies state::clause_settled(
        db,
        a,
        floor,
        h + 1,
        r,
    ) by {
        let c0 = db.lits(r)[0];
        let c1 = db.lits(r)[1];
        assert(1 <= c0.var() <= n && 1 <= c1.var() <= n);
        assert(state::clause_settled(db, a, floor, h, r));
        let cr = ClauseRef(r as u32);
        if c0 == p.negate() || c1 == p.negate() {
            assert(watched::occurrences(w.under(p), cr) == db.watch_count(p, cr));
            let j = watched::occurrences_witness(w.under(p), cr);
            assert(state::clause_settled(db, a, floor, h + 1, w.under(p)[j].0 as int));
        } else {
            if a.val(c0) == Value::False && a.at(c0) == h {
                state::false_on_trail(a, c0);
                crate::akx::literal::negation_laws(c0);
                assert(false);
            }
            if a.val(c1) == Value::False && a.at(c1) == h {
                state::false_on_trail(a, c1);
                crate::akx::literal::negation_laws(c1);
                assert(false);
            }
        }
    }
}

} // verus!
