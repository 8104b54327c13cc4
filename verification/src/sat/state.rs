//! The properties that the search state keeps, and how the elementary steps
//! of the search keep them.

use vstd::prelude::*;

#[allow(unused_imports)]
use crate::akx::literal::Literal;
#[allow(unused_imports)]
use crate::akx::logic;
#[allow(unused_imports)]
use crate::sat::assignment::{Assignment, Value};
#[allow(unused_imports)]
use crate::sat::clause::{ClauseDb, ClauseRef, FIRST_SENTINEL};
#[allow(unused_imports)]
use crate::sat::trace;
#[allow(unused_imports)]
use crate::sat::trace::Basis;
#[allow(unused_imports)]
use crate::sat::watched;
#[allow(unused_imports)]
use crate::sat::watched::WatchList;

verus! {

/// A formula: a sequence of clauses.
pub type Formula = Seq<Seq<Literal>>;

/// Every literal is over a variable `1..=n`.
pub open spec fn lits_ok(n: u32, lits: Seq<Literal>) -> bool {
    forall|k: int| 0 <= k < lits.len() ==> 1 <= (#[trigger] lits[k]).var() <= n
}

/// Every stored clause has two literals to watch and speaks of known variables.
pub open spec fn db_ok(n: u32, db: ClauseDb) -> bool {
    &&& db.well_formed()
    &&& forall|r: int|
        #[trigger] db.live(r) ==> db.lits(r).len() >= 2 && lits_ok(n, db.lits(r))
}

/// Each stored clause is watched at its first two literals, and nothing else is.
pub open spec fn watch_ok(n: u32, db: ClauseDb, w: WatchList) -> bool {
    &&& w.size() == 2 * n + 2
    &&& forall|l: Literal, r: ClauseRef|
        l.0 < w.size() ==> #[trigger] watched::occurrences(w.under(l), r) == db.watch_count(l, r)
}

/// The literal at trail position `i` has no antecedent clause, or is the
/// first literal of one whose other literals were false before it.
pub open spec fn reason_ok(db: ClauseDb, a: Assignment, i: int) -> bool {
    let r = a.reason@[a.trail@[i].var() as int];
    r < FIRST_SENTINEL ==> {
        &&& db.live(r as int)
        &&& db.lits(r as int)[0] == a.trail@[i]
        &&& forall|k: int|
            1 <= k < db.lits(r as int).len() ==> {
                &&& a.val(#[trigger] db.lits(r as int)[k]) == Value::False
                &&& a.at(db.lits(r as int)[k]) < i
            }
    }
}

pub open spec fn reasons_ok(db: ClauseDb, a: Assignment) -> bool {
    forall|i: int| 0 <= i < a.trail@.len() ==> #[trigger] reason_ok(db, a, i)
}

/// Every stored clause is known.
pub open spec fn sound_ok(f: Basis, db: ClauseDb) -> bool {
    &&& forall|r: int| #[trigger] db.live(r) ==> trace::known(f, db.lits(r))
    &&& db.has_empty ==> trace::broken(f)
}

/// Trail position `i` opens its decision level.
pub open spec fn opens_level(a: Assignment, i: int) -> bool {
    let lv = a.lvl(a.trail@[i]) as int;
    1 <= lv <= a.trail_lim@.len() && a.trail_lim@[lv - 1] == i
}

/// A literal without an antecedent clause is a decision or known to hold.
pub open spec fn root_ok(f: Basis, a: Assignment, i: int) -> bool {
    a.reason@[a.trail@[i].var() as int] >= FIRST_SENTINEL ==> opens_level(a, i)
        || trace::known(f, seq![a.trail@[i]])
}

pub open spec fn roots_ok(f: Basis, a: Assignment) -> bool {
    forall|i: int| 0 <= i < a.trail@.len() ==> #[trigger] root_ok(f, a, i)
}

/// Each decision level holds at least its decision.
pub open spec fn levels_strict(a: Assignment) -> bool {
    &&& forall|d: int, e: int|
        0 <= d < e < a.trail_lim@.len() ==> #[trigger] a.trail_lim@[d]
            < #[trigger] a.trail_lim@[e]
    &&& forall|d: int|
        0 <= d < a.trail_lim@.len() ==> #[trigger] a.trail_lim@[d] < a.trail@.len()
}

/// The highest level at which a clause woken by a literal of level `l` can
/// have been satisfied.
pub open spec fn reach(l: u32, floor: u32) -> u32 {
    if l == 0 {
        0
    } else if l < floor {
        floor
    } else {
        l
    }
}

/// If the watch `w` is false and was processed, the other watch `o` is true,
/// at a level that is undone no earlier than `w`'s.
pub open spec fn watch_settled(
    a: Assignment,
    floor: u32,
    upto: int,
    w: Literal,
    o: Literal,
) -> bool {
    a.val(w) == Value::False && a.at(w) < upto ==> a.val(o) == Value::True && a.lvl(o) <= reach(
        a.lvl(w),
        floor,
    )
}

pub open spec fn clause_settled(
    db: ClauseDb,
    a: Assignment,
    floor: u32,
    upto: int,
    r: int,
) -> bool {
    &&& watch_settled(a, floor, upto, db.lits(r)[0], db.lits(r)[1])
    &&& watch_settled(a, floor, upto, db.lits(r)[1], db.lits(r)[0])
}

pub open spec fn settled(db: ClauseDb, a: Assignment, floor: u32, upto: int) -> bool {
    forall|r: int| #[trigger] db.live(r) ==> clause_settled(db, a, floor, upto, r)
}

/// A literal still to be processed is at the current level, unless the
/// search has not left the assumption levels.
pub open spec fn pending_at(a: Assignment, floor: u32, i: int) -> bool {
    a.lvl(a.trail@[i]) == a.trail_lim@.len() || (1 <= a.lvl(a.trail@[i]) && a.trail_lim@.len()
        <= floor)
}

pub open spec fn pending_ok(a: Assignment, floor: u32) -> bool {
    forall|i: int| a.prop_head <= i < a.trail@.len() ==> #[trigger] pending_at(a, floor, i)
}

/// A stored problem clause all of whose literals occur in `c`, and none twice
/// unless one does so in `c`.
pub open spec fn stored_as(db: ClauseDb, r: int, c: Seq<Literal>) -> bool {
    &&& db.live(r)
    &&& !db.clauses@[r]->0.learnt
    &&& forall|k: int| 0 <= k < db.lits(r).len() ==> c.contains(#[trigger] db.lits(r)[k])
    &&& c.no_duplicates() ==> db.lits(r).no_duplicates()
}

/// A literal of `c` that the trail holds at level 0.
pub open spec fn settled_by(a: Assignment, i: int, c: Seq<Literal>) -> bool {
    0 <= i < a.trail@.len() && a.lvl(a.trail@[i]) == 0 && c.contains(a.trail@[i])
}

/// A clause of the formula is stored, is settled at level 0, or the formula
/// is known to be contradictory.
pub open spec fn clause_kept(db: ClauseDb, a: Assignment, c: Seq<Literal>) -> bool {
    ||| db.has_empty
    ||| exists|r: int| #[trigger] stored_as(db, r, c)
    ||| exists|i: int| #[trigger] settled_by(a, i, c)
}

pub open spec fn formula_kept(f: Basis, db: ClauseDb, a: Assignment) -> bool {
    forall|j: int| 0 <= j < f.clauses.len() ==> clause_kept(db, a, #[trigger] f.clauses[j])
}

/// What holds of the search state between any two steps, apart from that
/// every clause of the formula is taken in.
pub open spec fn core_ok(f: Basis, n: u32, db: ClauseDb, w: WatchList, a: Assignment) -> bool {
    &&& a.well_formed()
    &&& a.cap() == n + 1
    &&& lits_ok(n, a.trail@)
    &&& db_ok(n, db)
    &&& watch_ok(n, db, w)
    &&& reasons_ok(db, a)
    &&& sound_ok(f, db)
    &&& roots_ok(f, a)
    &&& levels_strict(a)
    &&& forall|j: int| 0 <= j < f.clauses.len() ==> lits_ok(n, #[trigger] f.clauses[j])
}

/// What holds of the search state between any two steps.
pub open spec fn search_ok(
    f: Basis,
    n: u32,
    db: ClauseDb,
    w: WatchList,
    a: Assignment,
) -> bool {
    &&& core_ok(f, n, db, w, a)
    &&& formula_kept(f, db, a)
}

/// What holds of the search state between two propagation runs.
pub open spec fn resting_ok(
    f: Basis,
    n: u32,
    db: ClauseDb,
    w: WatchList,
    a: Assignment,
    floor: u32,
) -> bool {
    &&& search_ok(f, n, db, w, a)
    &&& settled(db, a, floor, a.prop_head as int)
    &&& pending_ok(a, floor)
}

// ---------------------------------------------------------------------------
// Facts about the trail
// ---------------------------------------------------------------------------

/// A false literal's negation is on the trail.
pub proof fn false_on_trail(a: Assignment, l: Literal)
    requires
        a.well_formed(),
        l.var() < a.cap(),
        a.val(l) == Value::False,
    ensures
        0 <= a.at(l) < a.trail@.len(),
        a.trail@[a.at(l)] == l.negate(),
        a.lvl(l) == a.lvl(l.negate()),
        a.lvl(l) <= a.trail_lim@.len(),
{
    let v = l.var() as int;
    assert(a.value@[v] != Value::Undef);
    let t = a.trail@[a.pos@[v]];
    assert(t.var() == v);
    assert(a.val(t) == Value::True);
    crate::akx::literal::same_variable(t, l);
    assert(a.in_segment(a.at(t), a.lvl(t) as int));
}

/// A true literal is on the trail.
pub proof fn true_on_trail(a: Assignment, l: Literal)
    requires
        a.well_formed(),
        l.var() < a.cap(),
        a.val(l) == Value::True,
    ensures
        0 <= a.at(l) < a.trail@.len(),
        a.trail@[a.at(l)] == l,
        a.lvl(l) <= a.trail_lim@.len(),
{
    let v = l.var() as int;
    assert(a.value@[v] != Value::Undef);
    let t = a.trail@[a.pos@[v]];
    assert(t.var() == v);
    assert(a.val(t) == Value::True);
    crate::akx::literal::same_variable(t, l);
    assert(a.in_segment(a.at(t), a.lvl(t) as int));
}

/// Levels do not go down along the trail.
pub proof fn levels_monotone(a: Assignment, i: int, j: int)
    requires
        a.well_formed(),
        0 <= i <= j < a.trail@.len(),
    ensures
        a.lvl(a.trail@[i]) <= a.lvl(a.trail@[j]),
{
    let li = a.lvl(a.trail@[i]) as int;
    let lj = a.lvl(a.trail@[j]) as int;
    assert(a.trail@[i].var() < a.cap());
    assert(a.trail@[j].var() < a.cap());
    assert(a.in_segment(i, li));
    assert(a.in_segment(j, lj));
    if li > lj {
        assert(a.trail_lim@[lj] <= a.trail_lim@[li - 1]);
    }
}

/// Literals over pairwise different variables.
pub open spec fn distinct_vars(lits: Seq<Literal>) -> bool {
    forall|i: int, j: int|
        0 <= i < j < lits.len() ==> (#[trigger] lits[i]).var() != (#[trigger] lits[j]).var()
}

/// There are no more literals over different variables than variables.
pub proof fn distinct_bounded(lits: Seq<Literal>, n: u32)
    requires
        lits_ok(n, lits),
        distinct_vars(lits),
    ensures
        lits.len() <= n,
{
    let ids = lits.map_values(|l: Literal| l.var() as int);
    assert(ids.no_duplicates()) by {
        assert forall|i: int, j: int| 0 <= i < ids.len() && 0 <= j < ids.len() && i != j implies
            ids[i] != ids[j] by {
            assert(ids[i] == lits[i].var() && ids[j] == lits[j].var());
        }
    }
    ids.unique_seq_to_set();
    let range = vstd::set_lib::set_int_range(1, n + 1);
    vstd::set_lib::lemma_int_range(1, n + 1);
    assert(ids.to_set().subset_of(range)) by {
        assert forall|x: int| ids.to_set().contains(x) implies range.contains(x) by {
            let i = choose|i: int| 0 <= i < ids.len() && ids[i] == x;
            assert(1 <= lits[i].var() <= n);
        }
    }
    vstd::set_lib::lemma_len_subset(ids.to_set(), range);
}

/// The trail is no longer than the number of variables.
pub proof fn trail_bounded(a: Assignment, n: u32)
    requires
        a.well_formed(),
        a.cap() == n + 1,
        lits_ok(n, a.trail@),
    ensures
        a.trail@.len() <= n,
{
    assert forall|i: int, j: int| 0 <= i < j < a.trail@.len() implies (
    #[trigger] a.trail@[i]).var() != (#[trigger] a.trail@[j]).var() by {
        assert(a.trail@[i].var() < a.cap());
        assert(a.trail@[j].var() < a.cap());
        assert(a.at(a.trail@[i]) == i);
        assert(a.at(a.trail@[j]) == j);
    }
    distinct_bounded(a.trail@, n);
}

/// A valuation that satisfies the formula and every decision up to level `m`
/// satisfies every trail literal up to that level.
pub proof fn trail_holds(
    f: Basis,
    db: ClauseDb,
    a: Assignment,
    m: int,
    val: logic::Valuation,
    i: int,
)
    requires
        a.well_formed(),
        reasons_ok(db, a),
        sound_ok(f, db),
        roots_ok(f, a),
        forall|r: int, k: int|
            db.live(r) && 0 <= k < db.lits(r).len() ==> (#[trigger] db.lits(r)[k]).var()
                < a.cap(),
        logic::formula_holds(val, f.clauses),
        forall|d: int|
            0 <= d < m && d < a.trail_lim@.len() ==> a.trail_lim@[d] < a.trail@.len()
                && logic::lit_holds(val, a.trail@[#[trigger] a.trail_lim@[d] as int]),
        0 <= i < a.trail@.len(),
        a.lvl(a.trail@[i]) <= m,
    ensures
        logic::lit_holds(val, a.trail@[i]),
    decreases i,
{
    let t = a.trail@[i];
    let r = a.reason@[t.var() as int];
    assert(reason_ok(db, a, i));
    assert(root_ok(f, a, i));
    if r >= FIRST_SENTINEL {
        if opens_level(a, i) {
            let lv = a.lvl(t) as int;
            assert(a.trail_lim@[lv - 1] == i);
        } else {
            assert(logic::clause_holds(val, seq![t]));
            let k = choose|k: int|
                0 <= k < seq![t].len() && logic::lit_holds(val, #[trigger] seq![t][k]);
            assert(seq![t][k] == t);
        }
    } else {
        let c = db.lits(r as int);
        assert(logic::clause_holds(val, c));
        let k = choose|k: int| 0 <= k < c.len() && logic::lit_holds(val, #[trigger] c[k]);
        if k != 0 {
            assert(a.val(c[k]) == Value::False);
            false_on_trail(a, c[k]);
            let j = a.at(c[k]);
            levels_monotone(a, j, i);
            trail_holds(f, db, a, m, val, j);
            assert(false);
        }
    }
}

/// Unit propagation makes every trail literal of level 0 true.
pub proof fn trail_true(f: Basis, n: u32, db: ClauseDb, a: Assignment, m: trace::World, i: int)
    requires
        a.well_formed(),
        a.cap() == n + 1,
        db_ok(n, db),
        reasons_ok(db, a),
        sound_ok(f, db),
        roots_ok(f, a),
        trace::all_stable(m, trace::steps(f)),
        0 <= i < a.trail@.len(),
        a.lvl(a.trail@[i]) == 0,
    ensures
        trace::is_true(m, a.trail@[i]),
    decreases i,
{
    let t = a.trail@[i];
    let r = a.reason@[t.var() as int];
    assert(reason_ok(db, a, i));
    assert(root_ok(f, a, i));
    if r >= FIRST_SENTINEL {
        let c = seq![t];
        trace::listed_stable(m, trace::steps(f), c);
        assert(c[0] == t);
        assert(c.contains(t));
        assert(trace::only_left(m, c, t));
    } else {
        let c = db.lits(r as int);
        assert(db.live(r as int));
        trace::listed_stable(m, trace::steps(f), c);
        assert(c[0] == t);
        assert(trace::only_left(m, c, t)) by {
            assert forall|k: int| 0 <= k < c.len() && c[k] != t implies trace::is_false(
                m,
                #[trigger] c[k],
            ) by {
                assert(a.val(c[k]) == Value::False);
                assert(lits_ok(n, c));
                assert(1 <= c[k].var() <= n);
                false_on_trail(a, c[k]);
                let j = a.at(c[k]);
                levels_monotone(a, j, i);
                trail_true(f, n, db, a, m, j);
                trace::negation_is_true(m, c[k]);
            }
        }
        assert(c.contains(t));
    }
}

/// A clause that is false at level 0 is refuted by unit propagation.
pub proof fn false_is_broken(f: Basis, n: u32, db: ClauseDb, a: Assignment, c: Seq<Literal>)
    requires
        a.well_formed(),
        a.cap() == n + 1,
        db_ok(n, db),
        reasons_ok(db, a),
        sound_ok(f, db),
        roots_ok(f, a),
        lits_ok(n, c),
        trace::listed(trace::steps(f), c),
        forall|k: int|
            0 <= k < c.len() ==> a.val(#[trigger] c[k]) == Value::False && a.lvl(c[k]) == 0,
    ensures
        trace::dead(trace::steps(f)),
{
    assert forall|m: trace::World| !(#[trigger] trace::all_stable(m, trace::steps(f))) by {
        if trace::all_stable(m, trace::steps(f)) {
            trace::listed_stable(m, trace::steps(f), c);
            assert forall|k: int| 0 <= k < c.len() implies trace::is_false(
                m,
                #[trigger] c[k],
            ) by {
                assert(a.val(c[k]) == Value::False);
                assert(1 <= c[k].var() <= n);
                false_on_trail(a, c[k]);
                trail_true(f, n, db, a, m, a.at(c[k]));
                trace::negation_is_true(m, c[k]);
            }
        }
    }
}

// ---------------------------------------------------------------------------
// Exchanging two literals of a stored clause
// ---------------------------------------------------------------------------

pub open spec fn swapped(c: Seq<Literal>, i: int, j: int) -> Seq<Literal> {
    c.update(i, c[j]).update(j, c[i])
}

pub proof fn swapped_contains(c: Seq<Literal>, i: int, j: int, x: Literal)
    requires
        0 <= i < c.len(),
        0 <= j < c.len(),
    ensures
        swapped(c, i, j).contains(x) == c.contains(x),
{
    let d = swapped(c, i, j);
    if c.contains(x) {
        let k = choose|k: int| 0 <= k < c.len() && c[k] == x;
        if k == i {
            assert(d[j] == x);
        } else if k == j {
            assert(d[i] == x);
        } else {
            assert(d[k] == x);
        }
    }
    if d.contains(x) {
        let k = choose|k: int| 0 <= k < d.len() && d[k] == x;
        if k == i {
            assert(c[j] == x);
        } else if k == j {
            assert(c[i] == x);
        } else {
            assert(c[k] == x);
        }
    }
}

/// The database after exchanging two literals of clause `r`.
pub open spec fn db_swapped(db: ClauseDb, after: ClauseDb, r: int, i: int, j: int) -> bool {
    &&& db.live(r)
    &&& after.has_empty == db.has_empty
    &&& after.learnt_count == db.learnt_count
    &&& after.clauses@.len() == db.clauses@.len()
    &&& after.clauses@[r] is Some
    &&& after.lits(r) == swapped(db.lits(r), i, j)
    &&& after.clauses@[r]->0.learnt == db.clauses@[r]->0.learnt
    &&& forall|s: int|
        0 <= s < db.clauses@.len() && s != r ==> #[trigger] after.clauses@[s] == db.clauses@[s]
}

/// Exchanging two literals of a clause that is nobody's antecedent changes
/// only where the clause is watched.
pub proof fn swap_keeps(
    f: Basis,
    n: u32,
    db: ClauseDb,
    after: ClauseDb,
    a: Assignment,
    r: int,
    i: int,
    j: int,
)
    requires
        db_ok(n, db),
        db_swapped(db, after, r, i, j),
        0 <= i < db.lits(r).len(),
        0 <= j < db.lits(r).len(),
        a.well_formed(),
        reasons_ok(db, a),
        sound_ok(f, db),
        formula_kept(f, db, a),
        a.val(db.lits(r)[0]) != Value::True,
    ensures
        db_ok(n, after),
        reasons_ok(after, a),
        sound_ok(f, after),
        formula_kept(f, after, a),
{
    let c = db.lits(r);
    let d = after.lits(r);
    assert(after.clauses@ =~= db.clauses@.update(r, after.clauses@[r]));
    crate::sat::clause::learnt_total_update(db.clauses@, r, after.clauses@[r]);
    assert forall|s: int| #[trigger] after.live(s) implies after.lits(s).len() >= 2 && lits_ok(
        n,
        after.lits(s),
    ) by {
        assert(db.live(s));
        if s == r {
            assert forall|k: int| 0 <= k < d.len() implies 1 <= (#[trigger] d[k]).var() <= n by {
                assert(1 <= c[k].var() <= n && 1 <= c[i].var() <= n && 1 <= c[j].var() <= n);
            }
        }
    }
    assert forall|p: int| 0 <= p < a.trail@.len() implies #[trigger] reason_ok(after, a, p) by {
        assert(reason_ok(db, a, p));
        let q = a.reason@[a.trail@[p].var() as int];
        if q < FIRST_SENTINEL {
            if q == r {
                assert(a.val(a.trail@[p]) == Value::True) by {
                    assert(a.trail@[p].var() < a.cap());
                }
                assert(false);
            }
            assert(after.clauses@[q as int] == db.clauses@[q as int]);
        }
    }
    assert forall|s: int| #[trigger] after.live(s) implies trace::known(f, after.lits(s)) by {
        assert(db.live(s));
        if s == r {
            assert forall|val: logic::Valuation| #[trigger]
                logic::formula_holds(val, f.clauses) implies logic::clause_holds(val, d) by {
                assert(logic::clause_holds(val, c));
                assert forall|k: int| 0 <= k < c.len() implies d.contains(#[trigger] c[k]) by {
                    swapped_contains(c, i, j, c[k]);
                }
                logic::clause_holds_subset(val, c, d);
            }
            let all = trace::steps(f);
            let q = choose|q: int|
                0 <= q < all.len() && trace::same_literals(#[trigger] all[q], c);
            assert(trace::same_literals(all[q], d)) by {
                assert forall|x: Literal| #[trigger] all[q].contains(x) <==> d.contains(x) by {
                    swapped_contains(c, i, j, x);
                }
            }
        }
    }
    assert forall|q: int| 0 <= q < f.clauses.len() implies clause_kept(after, a, #[trigger] f.clauses[q]) by {
        assert(clause_kept(db, a, f.clauses[q]));
        if exists|s: int| #[trigger] stored_as(db, s, f.clauses[q]) {
            let s = choose|s: int| #[trigger] stored_as(db, s, f.clauses[q]);
            if s == r {
                assert forall|k: int| 0 <= k < d.len() implies f.clauses[q].contains(#[trigger] d[k]) by {
                    swapped_contains(c, i, j, d[k]);
                    assert(d.contains(d[k]));
                    let m = choose|m: int| 0 <= m < c.len() && c[m] == d[k];
                    assert(f.clauses[q].contains(c[m]));
                }
            }
            assert(stored_as(after, s, f.clauses[q]));
        }
    }
}

// ---------------------------------------------------------------------------
// Assigning a literal, opening a level, undoing levels
// ---------------------------------------------------------------------------

/// `after` is `a` with `lit` made true at the current level.
pub open spec fn assigned(a: Assignment, after: Assignment, lit: Literal, reason: u32) -> bool {
    let v = lit.var() as int;
    &&& after.value@ == a.value@.update(
        v,
        crate::sat::assignment::value_of_bool(lit.is_positive()),
    )
    &&& after.level@ == a.level@.update(v, a.trail_lim@.len() as u32)
    &&& after.reason@ == a.reason@.update(v, reason)
    &&& after.trail@ == a.trail@.push(lit)
    &&& after.trail_lim@ == a.trail_lim@
    &&& after.prop_head == a.prop_head
    &&& after.pos@ == a.pos@.update(v, a.trail@.len() as int)
}

/// A literal with a value keeps it, its level and its position.
pub proof fn assigned_frame(a: Assignment, after: Assignment, lit: Literal, reason: u32, x: Literal)
    requires
        a.well_formed(),
        lit.var() < a.cap(),
        a.val(lit) == Value::Undef,
        assigned(a, after, lit, reason),
        x.var() < a.cap(),
        a.val(x) != Value::Undef,
    ensures
        after.val(x) == a.val(x),
        after.lvl(x) == a.lvl(x),
        after.at(x) == a.at(x),
        x.var() != lit.var(),
{
}

/// Making a literal true keeps the search state, provided the literal is a
/// decision, a consequence of the formula, or forced by its antecedent.
pub proof fn assign_keeps(
    f: Basis,
    n: u32,
    db: ClauseDb,
    w: WatchList,
    a: Assignment,
    after: Assignment,
    lit: Literal,
    reason: u32,
    floor: u32,
    upto: int,
)
    requires
        a.well_formed(),
        a.cap() == n + 1,
        lits_ok(n, a.trail@),
        db_ok(n, db),
        watch_ok(n, db, w),
        reasons_ok(db, a),
        sound_ok(f, db),
        roots_ok(f, a),
        forall|j: int|
            0 <= j < f.clauses.len() ==> {
                ||| clause_kept(db, a, #[trigger] f.clauses[j])
                ||| a.trail_lim@.len() == 0 && f.clauses[j].contains(lit)
            },
        forall|j: int| 0 <= j < f.clauses.len() ==> lits_ok(n, #[trigger] f.clauses[j]),
        forall|d: int, e: int|
            0 <= d < e < a.trail_lim@.len() ==> #[trigger] a.trail_lim@[d]
                < #[trigger] a.trail_lim@[e],
        1 <= lit.var() <= n,
        a.val(lit) == Value::Undef,
        assigned(a, after, lit, reason),
        after.well_formed(),
        reason < FIRST_SENTINEL ==> {
            &&& db.live(reason as int)
            &&& db.lits(reason as int)[0] == lit
            &&& forall|k: int|
                1 <= k < db.lits(reason as int).len() ==> a.val(
                    #[trigger] db.lits(reason as int)[k],
                ) == Value::False
        },
        reason >= FIRST_SENTINEL ==> {
            ||| a.trail_lim@.len() > 0 && a.trail_lim@.last() == a.trail@.len()
            ||| trace::known(f, seq![lit])
        },
        settled(db, a, floor, upto),
        upto <= a.trail@.len(),
    ensures
        search_ok(f, n, db, w, after),
        settled(db, after, floor, upto),
{
    assert forall|i: int| 0 <= i < after.trail@.len() implies {
        &&& #[trigger] reason_ok(db, after, i)
        &&& root_ok(f, after, i)
    } by {
        if i < a.trail@.len() {
            let t = a.trail@[i];
            assert(after.trail@[i] == t);
            assert(t.var() < a.cap());
            assigned_frame(a, after, lit, reason, t);
            assert(reason_ok(db, a, i));
            assert(root_ok(f, a, i));
            let q = a.reason@[t.var() as int];
            assert(after.reason@[t.var() as int] == q);
            if q < FIRST_SENTINEL {
                assert forall|k: int| 1 <= k < db.lits(q as int).len() implies {
                    &&& after.val(#[trigger] db.lits(q as int)[k]) == Value::False
                    &&& after.at(db.lits(q as int)[k]) < i
                } by {
                    assert(db.live(q as int));
                    let x = db.lits(q as int)[k];
                    assert(a.val(x) == Value::False);
                    assigned_frame(a, after, lit, reason, x);
                }
            } else if opens_level(a, i) {
                assert(opens_level(after, i));
            }
        } else {
            assert(after.trail@[i] == lit);
            if reason < FIRST_SENTINEL {
                assert forall|k: int| 1 <= k < db.lits(reason as int).len() implies {
                    &&& after.val(#[trigger] db.lits(reason as int)[k]) == Value::False
                    &&& after.at(db.lits(reason as int)[k]) < i
                } by {
                    let x = db.lits(reason as int)[k];
                    assert(a.val(x) == Value::False);
                    assert(1 <= x.var() <= n);
                    assigned_frame(a, after, lit, reason, x);
                    false_on_trail(a, x);
                }
            } else if a.trail_lim@.len() > 0 && a.trail_lim@.last() == a.trail@.len() {
                assert(opens_level(after, i));
            }
        }
    }
    assert(roots_ok(f, after)) by {
        assert forall|i: int| 0 <= i < after.trail@.len() implies #[trigger] root_ok(
            f,
            after,
            i,
        ) by {
            assert(reason_ok(db, after, i));
        }
    }
    assert forall|k: int| 0 <= k < after.trail@.len() implies 1 <= (
    #[trigger] after.trail@[k]).var() <= n by {
        if k < a.trail@.len() {
            assert(after.trail@[k] == a.trail@[k]);
        }
    }
    assert forall|q: int| 0 <= q < f.clauses.len() implies clause_kept(db, after, #[trigger] f.clauses[q]) by {
        if !clause_kept(db, a, f.clauses[q]) {
            assert(settled_by(after, a.trail@.len() as int, f.clauses[q]));
        } else if exists|i: int| #[trigger] settled_by(a, i, f.clauses[q]) {
            let i = choose|i: int| #[trigger] settled_by(a, i, f.clauses[q]);
            assert(a.trail@[i].var() < a.cap());
            assigned_frame(a, after, lit, reason, a.trail@[i]);
            assert(settled_by(after, i, f.clauses[q]));
        }
    }
    assert forall|r: int| #[trigger] db.live(r) implies clause_settled(
        db,
        after,
        floor,
        upto,
        r,
    ) by {
        assert(clause_settled(db, a, floor, upto, r));
        let w0 = db.lits(r)[0];
        let w1 = db.lits(r)[1];
        assert(1 <= w0.var() <= n && 1 <= w1.var() <= n);
        watch_settled_assigned(a, after, lit, reason, floor, upto, w0, w1);
        watch_settled_assigned(a, after, lit, reason, floor, upto, w1, w0);
    }
}

/// Clauses stay settled when another literal becomes true.
pub proof fn assign_keeps_settled(
    n: u32,
    db: ClauseDb,
    a: Assignment,
    after: Assignment,
    lit: Literal,
    reason: u32,
    floor: u32,
)
    requires
        a.well_formed(),
        a.cap() == n + 1,
        db_ok(n, db),
        1 <= lit.var() <= n,
        a.val(lit) == Value::Undef,
        assigned(a, after, lit, reason),
        settled(db, a, floor, a.prop_head as int),
    ensures
        settled(db, after, floor, a.prop_head as int),
{
    assert forall|r: int| #[trigger] db.live(r) implies clause_settled(
        db,
        after,
        floor,
        a.prop_head as int,
        r,
    ) by {
        assert(clause_settled(db, a, floor, a.prop_head as int, r));
        let w0 = db.lits(r)[0];
        let w1 = db.lits(r)[1];
        assert(lits_ok(n, db.lits(r)));
        assert(1 <= w0.var() <= n && 1 <= w1.var() <= n);
        watch_settled_assigned(a, after, lit, reason, floor, a.prop_head as int, w0, w1);
        watch_settled_assigned(a, after, lit, reason, floor, a.prop_head as int, w1, w0);
    }
}

proof fn watch_settled_assigned(
    a: Assignment,
    after: Assignment,
    lit: Literal,
    reason: u32,
    floor: u32,
    upto: int,
    w: Literal,
    o: Literal,
)
    requires
        a.well_formed(),
        lit.var() < a.cap(),
        w.var() < a.cap(),
        o.var() < a.cap(),
        a.val(lit) == Value::Undef,
        assigned(a, after, lit, reason),
        upto <= a.trail@.len(),
        watch_settled(a, floor, upto, w, o),
    ensures
        watch_settled(after, floor, upto, w, o),
{
    if after.val(w) == Value::False && after.at(w) < upto {
        if w.var() == lit.var() {
            assert(after.at(w) == a.trail@.len());
            assert(false);
        }
        assert(a.val(w) == Value::False);
        assigned_frame(a, after, lit, reason, o);
    }
}

/// `after` is `a` with everything above `level` undone.
pub open spec fn undone(a: Assignment, after: Assignment, level: u32) -> bool {
    &&& after.well_formed()
    &&& after.cap() == a.cap()
    &&& after.pos@ == a.pos@
    &&& after.trail@ == a.trail@.take(a.kept(level as int))
    &&& after.trail_lim@ == (if level < a.trail_lim@.len() {
        a.trail_lim@.take(level as int)
    } else {
        a.trail_lim@
    })
    &&& after.prop_head == (if a.prop_head <= after.trail@.len() {
        a.prop_head
    } else {
        after.trail.len()
    })
    &&& forall|v: int|
        0 <= v < a.cap() && a.value@[v] != Value::Undef && a.pos@[v] < after.trail@.len() ==> {
            &&& #[trigger] after.value@[v] == a.value@[v]
            &&& after.level@[v] == a.level@[v]
            &&& after.reason@[v] == a.reason@[v]
        }
    &&& forall|v: int|
        0 <= v < a.cap() && (a.value@[v] == Value::Undef || a.pos@[v] >= after.trail@.len())
            ==> #[trigger] after.value@[v] == Value::Undef
}

/// A literal whose level is not undone keeps its value, level and position;
/// one whose level is undone loses its value.
pub proof fn undone_frame(a: Assignment, after: Assignment, level: u32, x: Literal)
    requires
        a.well_formed(),
        undone(a, after, level),
        x.var() < a.cap(),
        a.val(x) != Value::Undef,
    ensures
        a.lvl(x) <= level ==> {
            &&& after.val(x) == a.val(x)
            &&& after.lvl(x) == a.lvl(x)
            &&& after.at(x) == a.at(x)
            &&& after.reason@[x.var() as int] == a.reason@[x.var() as int]
            &&& a.at(x) < after.trail@.len()
        },
        a.lvl(x) > level ==> after.val(x) == Value::Undef && a.at(x) >= after.trail@.len(),
        after.val(x) != Value::Undef ==> a.lvl(x) <= level,
{
    let v = x.var() as int;
    assert(a.value@[v] != Value::Undef);
    let i = a.pos@[v];
    assert(a.trail@[i].var() == v);
    let lv = a.level@[v] as int;
    assert(a.in_segment(i, lv));
    if lv <= level {
        if level < a.trail_lim@.len() {
            assert(a.trail_lim@[lv] <= a.trail_lim@[level as int]);
        }
        assert(after.value@[v] == a.value@[v]);
    } else {
        assert(a.trail_lim@[level as int] <= a.trail_lim@[lv - 1]);
        assert(after.value@[v] == Value::Undef);
    }
}

/// Undoing levels keeps the search state, as long as the assumption levels
/// stay or everything above level 0 goes.
pub proof fn undo_keeps(
    f: Basis,
    n: u32,
    db: ClauseDb,
    w: WatchList,
    a: Assignment,
    after: Assignment,
    level: u32,
    floor: u32,
)
    requires
        resting_ok(f, n, db, w, a, floor),
        undone(a, after, level),
        level >= floor || level == 0,
    ensures
        resting_ok(f, n, db, w, after, floor),
        level < a.trail_lim@.len() && (floor < a.trail_lim@.len() || level == 0)
            ==> after.prop_head == after.trail@.len(),
{
    assert forall|i: int| 0 <= i < after.trail@.len() implies {
        &&& #[trigger] after.trail@[i] == a.trail@[i]
        &&& a.trail@[i].var() < a.cap()
        &&& after.val(a.trail@[i]) == Value::True
        &&& after.lvl(a.trail@[i]) == a.lvl(a.trail@[i])
        &&& after.at(a.trail@[i]) == i
        &&& after.reason@[a.trail@[i].var() as int] == a.reason@[a.trail@[i].var() as int]
        &&& a.lvl(a.trail@[i]) <= level
    } by {
        assert(a.trail@[i].var() < a.cap());
        assert(a.at(a.trail@[i]) == i);
        undone_frame(a, after, level, a.trail@[i]);
    }
    assert forall|i: int| 0 <= i < after.trail@.len() implies #[trigger] reason_ok(
        db,
        after,
        i,
    ) by {
        assert(after.trail@[i] == a.trail@[i]);
        assert(reason_ok(db, a, i));
        let q = a.reason@[a.trail@[i].var() as int];
        if q < FIRST_SENTINEL {
            assert forall|k: int| 1 <= k < db.lits(q as int).len() implies {
                &&& after.val(#[trigger] db.lits(q as int)[k]) == Value::False
                &&& after.at(db.lits(q as int)[k]) < i
            } by {
                assert(db.live(q as int));
                let x = db.lits(q as int)[k];
                assert(a.val(x) == Value::False);
                undone_frame(a, after, level, x);
            }
        }
    }
    assert forall|i: int| 0 <= i < after.trail@.len() implies #[trigger] root_ok(f, after, i) by {
        assert(after.trail@[i] == a.trail@[i]);
        assert(root_ok(f, a, i));
        if opens_level(a, i) {
            assert(opens_level(after, i));
        }
    }
    assert forall|k: int| 0 <= k < after.trail@.len() implies 1 <= (
    #[trigger] after.trail@[k]).var() <= n by {
        assert(after.trail@[k] == a.trail@[k]);
    }
    assert(levels_strict(after)) by {
        assert forall|d: int| 0 <= d < after.trail_lim@.len() implies #[trigger] after.trail_lim@[d]
            < after.trail@.len() by {
            if level < a.trail_lim@.len() {
                assert(a.trail_lim@[d] < a.trail_lim@[level as int]);
            }
        }
    }
    assert forall|q: int| 0 <= q < f.clauses.len() implies clause_kept(db, after, #[trigger] f.clauses[q]) by {
        assert(clause_kept(db, a, f.clauses[q]));
        if exists|i: int| #[trigger] settled_by(a, i, f.clauses[q]) {
            let i = choose|i: int| #[trigger] settled_by(a, i, f.clauses[q]);
            assert(a.trail@[i].var() < a.cap());
            assert(a.at(a.trail@[i]) == i);
            undone_frame(a, after, level, a.trail@[i]);
            assert(settled_by(after, i, f.clauses[q]));
        }
    }
    assert forall|r: int| #[trigger] db.live(r) implies clause_settled(
        db,
        after,
        floor,
        after.prop_head as int,
        r,
    ) by {
        assert(clause_settled(db, a, floor, a.prop_head as int, r));
        let w0 = db.lits(r)[0];
        let w1 = db.lits(r)[1];
        assert(1 <= w0.var() <= n && 1 <= w1.var() <= n);
        watch_settled_undone(a, after, level, floor, w0, w1);
        watch_settled_undone(a, after, level, floor, w1, w0);
    }
    assert forall|i: int| after.prop_head <= i < after.trail@.len() implies #[trigger] pending_at(
        after,
        floor,
        i,
    ) by {
        assert(after.trail@[i] == a.trail@[i]);
        assert(pending_at(a, floor, i));
    }
    if after.prop_head < after.trail@.len() {
        let i = after.prop_head as int;
        assert(after.trail@[i] == a.trail@[i]);
        assert(pending_at(a, floor, i));
    }
}

proof fn watch_settled_undone(
    a: Assignment,
    after: Assignment,
    level: u32,
    floor: u32,
    w: Literal,
    o: Literal,
)
    requires
        a.well_formed(),
        undone(a, after, level),
        level >= floor || level == 0,
        w.var() < a.cap(),
        o.var() < a.cap(),
        watch_settled(a, floor, a.prop_head as int, w, o),
    ensures
        watch_settled(after, floor, after.prop_head as int, w, o),
{
    if after.val(w) == Value::False && after.at(w) < after.prop_head {
        assert(a.value@[w.var() as int] != Value::Undef);
        undone_frame(a, after, level, w);
        undone_frame(a, after, level, o);
    }
}

/// Finding the formula contradictory settles every clause of it.
pub proof fn flag_keeps(
    f: Basis,
    n: u32,
    db: ClauseDb,
    after: ClauseDb,
    w: WatchList,
    a: Assignment,
    floor: u32,
)
    requires
        core_ok(f, n, db, w, a),
        settled(db, a, floor, a.prop_head as int),
        pending_ok(a, floor),
        after.has_empty,
        after.clauses == db.clauses,
        after.learnt_count == db.learnt_count,
        trace::broken(f),
    ensures
        resting_ok(f, n, after, w, a, floor),
{
    assert forall|r: int| #[trigger] after.live(r) implies {
        &&& after.lits(r).len() >= 2
        &&& lits_ok(n, after.lits(r))
        &&& trace::known(f, after.lits(r))
        &&& clause_settled(after, a, floor, a.prop_head as int, r)
    } by {
        assert(db.live(r));
        assert(clause_settled(db, a, floor, a.prop_head as int, r));
    }
    assert forall|l: Literal, r: ClauseRef| l.0 < w.size() implies #[trigger] watched::occurrences(
        w.under(l),
        r,
    ) == after.watch_count(l, r) by {
        assert(db.watch_count(l, r) == after.watch_count(l, r));
    }
    assert forall|i: int| 0 <= i < a.trail@.len() implies #[trigger] reason_ok(after, a, i) by {
        assert(reason_ok(db, a, i));
    }
}

/// The state is sound for a larger basis too.
pub proof fn core_grows(f: Basis, g: Basis, n: u32, db: ClauseDb, w: WatchList, a: Assignment)
    requires
        core_ok(f, n, db, w, a),
        trace::grown(f, g),
        forall|j: int| 0 <= j < g.clauses.len() ==> lits_ok(n, #[trigger] g.clauses[j]),
    ensures
        core_ok(g, n, db, w, a),
{
    assert forall|i: int| 0 <= i < a.trail@.len() implies #[trigger] root_ok(g, a, i) by {
        assert(root_ok(f, a, i));
        if trace::known(f, seq![a.trail@[i]]) {
            trace::known_grows(f, g, seq![a.trail@[i]]);
        }
    }
    assert forall|r: int| #[trigger] db.live(r) implies trace::known(g, db.lits(r)) by {
        trace::known_grows(f, g, db.lits(r));
    }
    if db.has_empty {
        trace::broken_grows(f, g);
    }
}

/// The state is sound for a longer formula too.
pub proof fn formula_grows(
    f: Basis,
    added: Seq<Literal>,
    n: u32,
    db: ClauseDb,
    w: WatchList,
    a: Assignment,
)
    requires
        search_ok(f, n, db, w, a),
        lits_ok(n, added),
    ensures
        core_ok(trace::with_clause(f, added), n, db, w, a),
        trace::known(trace::with_clause(f, added), added),
        forall|j: int|
            0 <= j < f.clauses.len() ==> clause_kept(
                db,
                a,
                #[trigger] trace::with_clause(f, added).clauses[j],
            ),
{
    let g = trace::with_clause(f, added);
    assert forall|j: int| 0 <= j < g.clauses.len() implies lits_ok(n, #[trigger] g.clauses[j]) by {
        if j < f.clauses.len() {
            assert(g.clauses[j] == f.clauses[j]);
        }
    }
    trace::with_clause_grows(f, added);
    core_grows(f, g, n, db, w, a);
    assert forall|j: int| 0 <= j < f.clauses.len() implies clause_kept(
        db,
        a,
        #[trigger] g.clauses[j],
    ) by {
        assert(g.clauses[j] == f.clauses[j]);
    }
}

/// The state is sound with one more learned clause too.
pub proof fn learned_grows(
    f: Basis,
    added: Seq<Literal>,
    n: u32,
    db: ClauseDb,
    w: WatchList,
    a: Assignment,
    floor: u32,
)
    requires
        resting_ok(f, n, db, w, a, floor),
        logic::entails(f.clauses, added),
    ensures
        resting_ok(trace::with_learned(f, added), n, db, w, a, floor),
        trace::known(trace::with_learned(f, added), added),
{
    trace::with_learned_grows(f, added);
    core_grows(f, trace::with_learned(f, added), n, db, w, a);
}

/// `after` is `db` with one more clause.
pub open spec fn db_extended(
    db: ClauseDb,
    after: ClauseDb,
    lits: Seq<Literal>,
    learnt: bool,
) -> bool {
    &&& after.well_formed()
    &&& after.has_empty == db.has_empty
    &&& after.clauses@.len() == db.clauses@.len() + 1
    &&& forall|r: int| 0 <= r < db.clauses@.len() ==> #[trigger] after.clauses@[r] == db.clauses@[r]
    &&& after.clauses@.last() is Some
    &&& after.clauses@.last()->0.lits@ == lits
    &&& after.clauses@.last()->0.learnt == learnt
}

/// `after` is `w` with one more entry under a literal.
pub open spec fn watch_added(w: WatchList, after: WatchList, l: Literal, cr: ClauseRef) -> bool {
    &&& after.size() == w.size()
    &&& after.under(l) == w.under(l).push(cr)
    &&& forall|x: Literal| x != l && x.0 < w.size() ==> #[trigger] after.under(x) == w.under(x)
}

/// Storing and watching one more clause that follows from the formula.
pub proof fn store_keeps(
    f: Basis,
    n: u32,
    db: ClauseDb,
    after: ClauseDb,
    w: WatchList,
    mid: WatchList,
    w2: WatchList,
    a: Assignment,
    lits: Seq<Literal>,
    learnt: bool,
)
    requires
        core_ok(f, n, db, w, a),
        lits.len() >= 2,
        lits_ok(n, lits),
        trace::known(f, lits),
        db.clauses@.len() < FIRST_SENTINEL,
        db_extended(db, after, lits, learnt),
        watch_added(w, mid, lits[0].negate(), ClauseRef(db.clauses@.len() as u32)),
        watch_added(mid, w2, lits[1].negate(), ClauseRef(db.clauses@.len() as u32)),
    ensures
        core_ok(f, n, after, w2, a),
        forall|c: Seq<Literal>| #[trigger] clause_kept(db, a, c) ==> clause_kept(after, a, c),
        !learnt ==> clause_kept(after, a, lits),
{
    let cr = ClauseRef(db.clauses@.len() as u32);
    let last = db.clauses@.len() as int;
    assert(1 <= lits[0].var() <= n && 1 <= lits[1].var() <= n);
    assert forall|r: int| #[trigger] after.live(r) implies {
        &&& after.lits(r).len() >= 2
        &&& lits_ok(n, after.lits(r))
        &&& trace::known(f, after.lits(r))
    } by {
        if r < last {
            assert(db.live(r));
            assert(after.clauses@[r] == db.clauses@[r]);
        }
    }
    assert forall|l: Literal, s: ClauseRef| l.0 < w2.size() implies #[trigger] watched::occurrences(
        w2.under(l),
        s,
    ) == after.watch_count(l, s) by {
        watched::occurrences_push(w.under(l), cr, s);
        watched::occurrences_push(mid.under(l), cr, s);
        assert(watched::occurrences(w.under(l), s) == db.watch_count(l, s));
        if s.0 < last {
            assert(after.clauses@[s.0 as int] == db.clauses@[s.0 as int]);
        }
        if l != lits[0].negate() {
            assert(mid.under(l) == w.under(l));
        }
        if l != lits[1].negate() {
            assert(w2.under(l) == mid.under(l));
        }
    }
    assert forall|i: int| 0 <= i < a.trail@.len() implies #[trigger] reason_ok(after, a, i) by {
        assert(reason_ok(db, a, i));
        let q = a.reason@[a.trail@[i].var() as int];
        if q < FIRST_SENTINEL {
            assert(after.clauses@[q as int] == db.clauses@[q as int]);
        }
    }
    assert forall|c: Seq<Literal>| #[trigger] clause_kept(db, a, c) implies clause_kept(
        after,
        a,
        c,
    ) by {
        if exists|r: int| #[trigger] stored_as(db, r, c) {
            let r = choose|r: int| #[trigger] stored_as(db, r, c);
            assert(after.clauses@[r] == db.clauses@[r]);
            assert(stored_as(after, r, c));
        }
    }
    if !learnt {
        assert(stored_as(after, last, lits));
    }
}

/// At level 0 the state does not depend on the assumption floor.
pub proof fn floor_free(
    f: Basis,
    n: u32,
    db: ClauseDb,
    w: WatchList,
    a: Assignment,
    floor: u32,
    other: u32,
)
    requires
        resting_ok(f, n, db, w, a, floor),
        a.trail_lim@.len() == 0,
    ensures
        resting_ok(f, n, db, w, a, other),
{
    assert forall|i: int| a.prop_head <= i < a.trail@.len() implies #[trigger] pending_at(
        a,
        other,
        i,
    ) by {
        assert(a.trail@[i].var() < a.cap());
        assert(a.in_segment(i, a.lvl(a.trail@[i]) as int));
    }
    assert forall|r: int| #[trigger] db.live(r) implies clause_settled(
        db,
        a,
        other,
        a.prop_head as int,
        r,
    ) by {
        assert(clause_settled(db, a, floor, a.prop_head as int, r));
        let w0 = db.lits(r)[0];
        let w1 = db.lits(r)[1];
        assert(lits_ok(n, db.lits(r)));
        assert(1 <= w0.var() <= n && 1 <= w1.var() <= n);
        if a.val(w0) == Value::False {
            false_on_trail(a, w0);
        }
        if a.val(w1) == Value::False {
            false_on_trail(a, w1);
        }
    }
}

/// `mid` is `a` with a new decision level.
pub open spec fn level_opened(a: Assignment, mid: Assignment) -> bool {
    &&& mid.well_formed()
    &&& mid.trail_lim@ == a.trail_lim@.push(a.trail.len())
    &&& mid.value == a.value
    &&& mid.level == a.level
    &&& mid.reason == a.reason
    &&& mid.trail == a.trail
    &&& mid.prop_head == a.prop_head
    &&& mid.pos == a.pos
}

/// Deciding a literal at a new level keeps the state. `floor` is the new
/// floor: it stays what it was for a search decision, and rises to the new
/// level for an assumption.
pub proof fn decide_keeps(
    f: Basis,
    n: u32,
    db: ClauseDb,
    w: WatchList,
    a: Assignment,
    mid: Assignment,
    after: Assignment,
    lit: Literal,
    before: u32,
    floor: u32,
)
    requires
        resting_ok(f, n, db, w, a, before),
        level_opened(a, mid),
        1 <= lit.var() <= n,
        a.val(lit) == Value::Undef,
        assigned(mid, after, lit, ClauseRef::DECISION),
        after.well_formed(),
        before <= floor,
        a.prop_head == a.trail@.len() || (floor == a.trail_lim@.len() + 1 && forall|i: int|
            a.prop_head <= i < a.trail@.len() ==> a.lvl(#[trigger] a.trail@[i]) >= 1),
    ensures
        resting_ok(f, n, db, w, after, floor),
{
    assert forall|i: int| 0 <= i < mid.trail@.len() implies #[trigger] reason_ok(db, mid, i) by {
        assert(reason_ok(db, a, i));
    }
    assert forall|i: int| 0 <= i < mid.trail@.len() implies #[trigger] root_ok(f, mid, i) by {
        assert(root_ok(f, a, i));
        if opens_level(a, i) {
            assert(opens_level(mid, i));
        }
    }
    assert forall|j: int| 0 <= j < f.clauses.len() implies clause_kept(db, mid, #[trigger] f.clauses[j]) by {
        assert(clause_kept(db, a, f.clauses[j]));
        if exists|i: int| #[trigger] settled_by(a, i, f.clauses[j]) {
            let i = choose|i: int| #[trigger] settled_by(a, i, f.clauses[j]);
            assert(settled_by(mid, i, f.clauses[j]));
        }
    }
    assert forall|r: int| #[trigger] db.live(r) implies clause_settled(
        db,
        mid,
        floor,
        a.prop_head as int,
        r,
    ) by {
        assert(clause_settled(db, a, before, a.prop_head as int, r));
    }
    assign_keeps(
        f,
        n,
        db,
        w,
        mid,
        after,
        lit,
        ClauseRef::DECISION,
        floor,
        a.prop_head as int,
    );
    assert forall|i: int| after.prop_head <= i < after.trail@.len() implies #[trigger] pending_at(
        after,
        floor,
        i,
    ) by {
        if i < a.trail@.len() {
            assert(after.trail@[i] == a.trail@[i]);
            assert(a.trail@[i].var() < a.cap());
            assigned_frame(mid, after, lit, ClauseRef::DECISION, a.trail@[i]);
        }
    }
}

/// When every variable has a value and everything is processed, the values
/// satisfy the formula.
pub proof fn complete_satisfies(
    f: Basis,
    n: u32,
    db: ClauseDb,
    w: WatchList,
    a: Assignment,
    floor: u32,
    val: logic::Valuation,
)
    requires
        resting_ok(f, n, db, w, a, floor),
        a.prop_head == a.trail@.len(),
        !db.has_empty,
        forall|v: int| 1 <= v <= n ==> #[trigger] a.value@[v] != Value::Undef,
        forall|v: u32| 1 <= v <= n ==> #[trigger] val(v) == (a.value@[v as int] == Value::True),
    ensures
        logic::formula_holds(val, f.clauses),
{
    assert forall|j: int| 0 <= j < f.clauses.len() implies logic::clause_holds(val, #[trigger] f.clauses[j]) by {
        assert(clause_kept(db, a, f.clauses[j]));
        assert(lits_ok(n, f.clauses[j]));
        if exists|r: int| #[trigger] stored_as(db, r, f.clauses[j]) {
            let r = choose|r: int| #[trigger] stored_as(db, r, f.clauses[j]);
            let c = db.lits(r);
            assert(clause_settled(db, a, floor, a.prop_head as int, r));
            assert(lits_ok(n, c));
            assert(1 <= c[0].var() <= n && 1 <= c[1].var() <= n);
            assert(a.value@[c[0].var() as int] != Value::Undef);
            assert(a.value@[c[1].var() as int] != Value::Undef);
            if a.val(c[0]) == Value::False {
                false_on_trail(a, c[0]);
            }
            let k = if a.val(c[0]) == Value::True {
                0int
            } else {
                1int
            };
            assert(a.val(c[k]) == Value::True);
            assert(val(c[k].var()) == (a.value@[c[k].var() as int] == Value::True));
            assert(f.clauses[j].contains(c[k]));
            let m = choose|m: int| 0 <= m < f.clauses[j].len() && f.clauses[j][m] == c[k];
            assert(logic::lit_holds(val, f.clauses[j][m]));
        } else {
            let i = choose|i: int| #[trigger] settled_by(a, i, f.clauses[j]);
            let x = a.trail@[i];
            assert(1 <= x.var() <= n);
            assert(x.var() < a.cap());
            assert(a.val(x) == Value::True);
            assert(val(x.var()) == (a.value@[x.var() as int] == Value::True));
            let m = choose|m: int| 0 <= m < f.clauses[j].len() && f.clauses[j][m] == x;
            assert(logic::lit_holds(val, f.clauses[j][m]));
        }
    }
}

/// Where propagation has come to its end without a conflict, the assigned
/// values are a partial assignment that unit propagation leaves unchanged.
pub proof fn fixpoint_is_stable(
    f: Basis,
    n: u32,
    db: ClauseDb,
    w: WatchList,
    a: Assignment,
    floor: u32,
    assumptions: Seq<Literal>,
)
    requires
        resting_ok(f, n, db, w, a, floor),
        a.prop_head == a.trail@.len(),
        !db.has_empty,
        trace::plain(f.clauses),
        lits_ok(n, assumptions),
        forall|i: int|
            0 <= i < assumptions.len() ==> a.val(#[trigger] assumptions[i]) == Value::True,
    ensures
        !trace::dead(f.clauses + trace::units(assumptions)),
{
    let m: trace::World = Map::new(
        |v: int| 1 <= v <= n && a.value@[v] != Value::Undef,
        |v: int| a.value@[v] == Value::True,
    );
    let all = f.clauses + trace::units(assumptions);
    assert forall|x: Literal| 1 <= x.var() <= n implies {
        &&& trace::is_true(m, x) <==> #[trigger] a.val(x) == Value::True
        &&& trace::is_false(m, x) <==> a.val(x) == Value::False
    } by {}
    assert forall|j: int| 0 <= j < all.len() implies trace::stable(m, #[trigger] all[j]) by {
        let c = all[j];
        if j < f.clauses.len() {
            assert(c == f.clauses[j]);
            assert(clause_kept(db, a, f.clauses[j]));
            assert(lits_ok(n, c));
            if exists|r: int| #[trigger] stored_as(db, r, c) {
                let r = choose|r: int| #[trigger] stored_as(db, r, c);
                let d = db.lits(r);
                assert(clause_settled(db, a, floor, a.prop_head as int, r));
                assert(lits_ok(n, d));
                assert(d.len() >= 2);
                assert(1 <= d[0].var() <= n && 1 <= d[1].var() <= n);
                assert(d[0] != d[1]);
                assert(c.contains(d[0]) && c.contains(d[1]));
                if a.val(d[0]) == Value::False {
                    false_on_trail(a, d[0]);
                }
                if a.val(d[1]) == Value::False {
                    false_on_trail(a, d[1]);
                }
                if a.val(d[0]) == Value::True {
                    trace::true_is_stable(m, c, d[0]);
                } else if a.val(d[1]) == Value::True {
                    trace::true_is_stable(m, c, d[1]);
                } else {
                    trace::two_left_is_stable(m, c, d[0], d[1]);
                }
            } else {
                let i = choose|i: int| #[trigger] settled_by(a, i, c);
                let x = a.trail@[i];
                assert(1 <= x.var() <= n);
                assert(x.var() < a.cap());
                assert(a.val(x) == Value::True);
                trace::true_is_stable(m, c, x);
            }
        } else {
            let i = j - f.clauses.len();
            let x = assumptions[i];
            assert(1 <= x.var() <= n);
            assert(c == seq![x]);
            assert(c[0] == x);
            assert(a.val(x) == Value::True);
            trace::true_is_stable(m, c, x);
        }
    }
    assert(trace::all_stable(m, all));
}

} // verus!
