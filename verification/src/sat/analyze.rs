//! First-unique-implication-point conflict analysis.

use vstd::prelude::*;

use crate::akx::literal::{Literal, Var};
use crate::akx::litvec::LitVec;
use crate::sat::assignment::Assignment;
use crate::sat::clause::{ClauseDb, ClauseRef};
use crate::sat::vsids::Activities;
#[allow(unused_imports)]
use crate::sat::vsids;
#[allow(unused_imports)]
use crate::sat::vsids::Standing;
#[allow(unused_imports)]
use crate::akx::logic;
#[allow(unused_imports)]
use crate::sat::assignment::Value;
#[allow(unused_imports)]
use crate::sat::bcp;
#[allow(unused_imports)]
use crate::sat::clause::FIRST_SENTINEL;
#[allow(unused_imports)]
use crate::sat::state;
#[allow(unused_imports)]
use crate::sat::trace;
#[allow(unused_imports)]
use crate::sat::trace::Basis;
#[allow(unused_imports)]
use crate::sat::watched::WatchList;

verus! {

/// Trail position `i` holds a variable that awaits resolution.
pub open spec fn awaits(a: Assignment, seen: Seq<bool>, cur: u32, i: int) -> bool {
    seen[a.trail@[i].var() as int] && a.lvl(a.trail@[i]) == cur
}

/// How many of the first `t` trail positions await resolution.
pub open spec fn awaiting(a: Assignment, seen: Seq<bool>, cur: u32, t: int) -> nat
    decreases t,
{
    if t <= 0 {
        0
    } else {
        awaiting(a, seen, cur, t - 1) + (if awaits(a, seen, cur, t - 1) { 1nat } else { 0 })
    }
}

proof fn awaiting_bound(a: Assignment, seen: Seq<bool>, cur: u32, t: int)
    requires
        0 <= t,
    ensures
        awaiting(a, seen, cur, t) <= t,
    decreases t,
{
    if t > 0 {
        awaiting_bound(a, seen, cur, t - 1);
    }
}

proof fn awaiting_none(a: Assignment, seen: Seq<bool>, cur: u32, t: int, i: int)
    requires
        0 <= i < t,
        awaiting(a, seen, cur, t) == 0,
    ensures
        !awaits(a, seen, cur, i),
    decreases t,
{
    if i < t - 1 {
        awaiting_none(a, seen, cur, t - 1, i);
    }
}

proof fn awaiting_some(a: Assignment, seen: Seq<bool>, cur: u32, t: int) -> (i: int)
    requires
        awaiting(a, seen, cur, t) >= 1,
    ensures
        0 <= i < t,
        awaits(a, seen, cur, i),
    decreases t,
{
    if awaits(a, seen, cur, t - 1) {
        t - 1
    } else {
        awaiting_some(a, seen, cur, t - 1)
    }
}

/// Marking one more variable raises the count by one if its position counts.
proof fn awaiting_mark(a: Assignment, seen: Seq<bool>, cur: u32, t: int, v: int)
    requires
        a.well_formed(),
        seen.len() == a.cap(),
        0 <= v < a.cap(),
        0 <= t <= a.trail@.len(),
        a.value@[v] != Value::Undef,
        !seen[v],
    ensures
        awaiting(a, seen.update(v, true), cur, t) == awaiting(a, seen, cur, t) + (if a.pos@[v] < t
            && a.level@[v] == cur {
            1nat
        } else {
            0
        }),
    decreases t,
{
    if t > 0 {
        awaiting_mark(a, seen, cur, t - 1, v);
        assert(a.trail@[t - 1].var() < a.cap());
        assert(a.at(a.trail@[t - 1]) == t - 1);
        if a.trail@[t - 1].var() != v {
            assert(a.pos@[v] != t - 1);
        }
    }
}

/// Unmarking a variable that lies beyond the counted positions changes nothing.
proof fn awaiting_unmark(a: Assignment, seen: Seq<bool>, cur: u32, t: int, v: int)
    requires
        a.well_formed(),
        seen.len() == a.cap(),
        0 <= v < a.cap(),
        0 <= t <= a.trail@.len(),
        a.pos@[v] >= t,
    ensures
        awaiting(a, seen.update(v, false), cur, t) == awaiting(a, seen, cur, t),
    decreases t,
{
    if t > 0 {
        awaiting_unmark(a, seen, cur, t - 1, v);
        assert(a.trail@[t - 1].var() < a.cap());
        assert(a.at(a.trail@[t - 1]) == t - 1);
    }
}

/// The literals collected so far and the marks fit together: a marked
/// variable lies before position `t` and is either counted (current level)
/// or has its false literal among the collected ones (lower levels).
pub open spec fn marks_ok(
    a: Assignment,
    n: u32,
    cur: u32,
    seen: Seq<bool>,
    learnt: Seq<Literal>,
    counter: int,
    t: int,
) -> bool {
    &&& seen.len() == n + 1
    &&& 0 <= t <= a.trail@.len()
    &&& forall|v: int|
        0 <= v <= n && #[trigger] seen[v] ==> {
            &&& a.value@[v] != Value::Undef
            &&& 1 <= a.level@[v] <= cur
            &&& a.pos@[v] < t
        }
    &&& forall|k: int|
        0 <= k < learnt.len() ==> {
            &&& 1 <= (#[trigger] learnt[k]).var() <= n
            &&& a.val(learnt[k]) == Value::False
            &&& 1 <= a.lvl(learnt[k]) < cur
            &&& seen[learnt[k].var() as int]
        }
    &&& forall|v: int|
        0 <= v <= n && #[trigger] seen[v] && a.level@[v] != cur ==> exists|k: int|
            0 <= k < learnt.len() && (#[trigger] learnt[k]).var() == v
    &&& state::distinct_vars(learnt)
    &&& counter == awaiting(a, seen, cur, t)
}

/// Every valuation that satisfies the formula satisfies a collected literal
/// or falsifies a literal that awaits resolution.
pub open spec fn resolvent(
    f: Basis,
    a: Assignment,
    cur: u32,
    seen: Seq<bool>,
    learnt: Seq<Literal>,
    t: int,
) -> bool {
    forall|val: logic::Valuation| #[trigger]
        logic::formula_holds(val, f.clauses) ==> {
            ||| logic::clause_holds(val, learnt)
            ||| exists|i: int|
                0 <= i < t && #[trigger] awaits(a, seen, cur, i) && !logic::lit_holds(
                    val,
                    a.trail@[i],
                )
        }
}

/// Where unit propagation finds nothing to do and all collected literals are
/// false, some literal that awaits resolution is not true.
pub open spec fn up_resolvent(
    f: Basis,
    a: Assignment,
    cur: u32,
    seen: Seq<bool>,
    learnt: Seq<Literal>,
    t: int,
) -> bool {
    forall|m: trace::World|
        #[trigger] trace::all_stable(m, trace::steps(f)) && trace::all_false(m, learnt)
            ==> some_open(m, a, cur, seen, t)
}

/// Some literal that awaits resolution is not true.
pub open spec fn some_open(
    m: trace::World,
    a: Assignment,
    cur: u32,
    seen: Seq<bool>,
    t: int,
) -> bool {
    exists|i: int|
        0 <= i < t && #[trigger] awaits(a, seen, cur, i) && !trace::is_true(m, a.trail@[i])
}

/// A variable occurs in a clause.
pub open spec fn occurs(c: Seq<Literal>, v: Var) -> bool {
    exists|k: int| 0 <= k < c.len() && (#[trigger] c[k]).var() == v
}

/// All variables of a clause that are above level 0 have been met, except the
/// one that is resolved on.
pub open spec fn covered(
    db: ClauseDb,
    a: Assignment,
    r: int,
    resolving: Option<Var>,
    vars: Seq<Var>,
) -> bool {
    forall|k: int|
        0 <= k < db.lits(r).len() && resolving != Some((#[trigger] db.lits(r)[k]).var()) && a.lvl(
            db.lits(r)[k],
        ) != 0 ==> vars.contains(db.lits(r)[k].var())
}

/// The variable at a trail position is one that the analysis resolves on: it
/// has been met, is of the current level and has an antecedent.
pub open spec fn pivot(a: Assignment, vars: Seq<Var>, i: int) -> bool {
    let v = a.trail@[i].var();
    &&& vars.contains(v)
    &&& a.level@[v as int] == a.trail_lim@.len()
    &&& a.reason@[v as int] < FIRST_SENTINEL
}

/// If the analysis resolves on a trail position, it has met the variables of
/// its antecedent.
pub open spec fn resolved_at(db: ClauseDb, a: Assignment, vars: Seq<Var>, i: int) -> bool {
    let v = a.trail@[i].var();
    pivot(a, vars, i) ==> covered(db, a, a.reason@[v as int] as int, Some(v), vars)
}

/// A variable occurs in the conflict clause, or in an antecedent that is
/// resolved with at trail position `from` or later.
pub open spec fn drawn(
    db: ClauseDb,
    a: Assignment,
    conflict: int,
    vars: Seq<Var>,
    from: int,
    v: Var,
) -> bool {
    ||| occurs(db.lits(conflict), v)
    ||| exists|i: int|
        from <= i < a.trail@.len() && #[trigger] pivot(a, vars, i) && occurs(
            db.lits(a.reason@[a.trail@[i].var() as int] as int),
            v,
        )
}

/// The variables met when a conflict clause is resolved backward along the
/// trail with the antecedents of its variables of the current level, down to
/// the first unique implication point. The learned clause is what remains: the
/// implication point and the variables of lower levels.
pub open spec fn explained(
    db: ClauseDb,
    a: Assignment,
    conflict: int,
    clause: Seq<Literal>,
    vars: Seq<Var>,
) -> bool {
    let cur = a.trail_lim@.len();
    let stop = a.at(clause[0]);
    &&& vars.no_duplicates()
    &&& covered(db, a, conflict, None, vars)
    &&& forall|i: int| stop < i < a.trail@.len() ==> #[trigger] resolved_at(db, a, vars, i)
    &&& forall|v: Var| #[trigger]
        vars.contains(v) ==> {
            &&& v < a.cap()
            &&& drawn(db, a, conflict, vars, stop + 1, v)
            &&& 1 <= a.level@[v as int] <= cur
            &&& a.level@[v as int] == cur ==> a.pos@[v as int] >= stop
            &&& a.level@[v as int] < cur ==> occurs(clause, v)
        }
    &&& forall|k: int| 0 <= k < clause.len() ==> vars.contains((#[trigger] clause[k]).var())
}

/// The variables met so far and the marks fit together: a variable has been
/// met if it is marked, or was and lies at position `t` or later.
pub open spec fn tally_ok(
    a: Assignment,
    n: u32,
    cur: u32,
    seen: Seq<bool>,
    vars: Seq<Var>,
    t: int,
) -> bool {
    &&& vars.no_duplicates()
    &&& forall|v: Var| #[trigger]
        vars.contains(v) ==> {
            &&& v <= n
            &&& a.value@[v as int] != Value::Undef
            &&& 1 <= a.level@[v as int] <= cur
            &&& seen[v as int] || a.pos@[v as int] >= t && a.level@[v as int] == cur
        }
    &&& forall|v: Var| v <= n && #[trigger] seen[v as int] ==> vars.contains(v)
}

/// Where the variables met so far come from, once the trail has been walked
/// down to position `t`.
pub open spec fn sources_ok(
    db: ClauseDb,
    a: Assignment,
    conflict: int,
    vars: Seq<Var>,
    t: int,
) -> bool {
    &&& covered(db, a, conflict, None, vars)
    &&& forall|i: int| t <= i < a.trail@.len() ==> #[trigger] resolved_at(db, a, vars, i)
    &&& forall|v: Var| #[trigger] vars.contains(v) ==> drawn(db, a, conflict, vars, t, v)
}

/// Marking one more variable.
proof fn tally_mark(
    a: Assignment,
    n: u32,
    cur: u32,
    seen: Seq<bool>,
    vars: Seq<Var>,
    t: int,
    v: Var,
)
    requires
        tally_ok(a, n, cur, seen, vars, t),
        seen.len() == n + 1,
        v <= n,
        !seen[v as int],
        a.value@[v as int] != Value::Undef,
        1 <= a.level@[v as int] <= cur,
        a.pos@[v as int] < t,
    ensures
        tally_ok(a, n, cur, seen.update(v as int, true), vars.push(v), t),
        !vars.contains(v),
{
    let seen2 = seen.update(v as int, true);
    let vars2 = vars.push(v);
    assert(!vars.contains(v));
    assert forall|x: Var| #[trigger] vars2.contains(x) implies vars.contains(x) || x == v by {
        let k = choose|k: int| 0 <= k < vars2.len() && vars2[k] == x;
        if k < vars.len() {
            assert(vars[k] == x);
        }
    }
    assert forall|x: Var| vars.contains(x) || x == v implies #[trigger] vars2.contains(x) by {
        if x == v {
            assert(vars2[vars.len() as int] == v);
        } else {
            let k = choose|k: int| 0 <= k < vars.len() && vars[k] == x;
            assert(vars2[k] == x);
        }
    }
    assert forall|i: int, j: int| 0 <= i < vars2.len() && 0 <= j < vars2.len() && i != j implies
        vars2[i] != vars2[j] by {
        if i < vars.len() && j < vars.len() {
        } else if i < vars.len() {
            assert(vars.contains(vars[i]));
        } else {
            assert(vars.contains(vars[j]));
        }
    }
    assert forall|x: Var| x <= n && #[trigger] seen2[x as int] implies vars2.contains(x) by {
        if x != v {
            assert(seen[x as int]);
        }
    }
}

/// Walking past a position whose variable is not marked.
proof fn walk_past(
    db: ClauseDb,
    a: Assignment,
    n: u32,
    cur: u32,
    conflict: int,
    seen: Seq<bool>,
    vars: Seq<Var>,
    t: int,
)
    requires
        a.well_formed(),
        a.cap() == n + 1,
        0 < t <= a.trail@.len(),
        tally_ok(a, n, cur, seen, vars, t),
        sources_ok(db, a, conflict, vars, t),
        !seen[a.trail@[t - 1].var() as int],
    ensures
        tally_ok(a, n, cur, seen, vars, t - 1),
        sources_ok(db, a, conflict, vars, t - 1),
{
    assert(a.trail@[t - 1].var() < a.cap());
    assert(a.at(a.trail@[t - 1]) == t - 1);
    assert(resolved_at(db, a, vars, t - 1));
    assert forall|v: Var| #[trigger] vars.contains(v) implies drawn(
        db,
        a,
        conflict,
        vars,
        t - 1,
        v,
    ) by {
        assert(drawn(db, a, conflict, vars, t, v));
    }
}

/// Removing the mark at position `t`.
proof fn tally_unmark(
    a: Assignment,
    n: u32,
    cur: u32,
    seen: Seq<bool>,
    vars: Seq<Var>,
    t: int,
)
    requires
        a.well_formed(),
        a.cap() == n + 1,
        seen.len() == n + 1,
        0 <= t < a.trail@.len(),
        tally_ok(a, n, cur, seen, vars, t + 1),
        seen[a.trail@[t].var() as int],
        a.lvl(a.trail@[t]) == cur,
    ensures
        tally_ok(a, n, cur, seen.update(a.trail@[t].var() as int, false), vars, t),
        vars.contains(a.trail@[t].var()),
{
    let x = a.trail@[t].var();
    assert(x < a.cap());
    assert(a.at(a.trail@[t]) == t);
    let seen2 = seen.update(x as int, false);
    assert forall|v: Var| v <= n && #[trigger] seen2[v as int] implies vars.contains(v) by {
        assert(seen[v as int]);
    }
}

/// The antecedent at position `t` has been resolved with: all its variables
/// have been met, and those met for the first time occur in it and lie before
/// position `t`.
proof fn sources_grow(
    db: ClauseDb,
    a: Assignment,
    conflict: int,
    vars: Seq<Var>,
    vars2: Seq<Var>,
    t: int,
)
    requires
        a.well_formed(),
        0 <= t < a.trail@.len(),
        covered(db, a, conflict, None, vars),
        forall|i: int| t < i < a.trail@.len() ==> #[trigger] resolved_at(db, a, vars, i),
        forall|v: Var| #[trigger]
            vars.contains(v) ==> drawn(db, a, conflict, vars, t + 1, v),
        vars.is_prefix_of(vars2),
        resolved_at(db, a, vars2, t),
        vars.len() < vars2.len() ==> pivot(a, vars2, t),
        forall|i: int|
            vars.len() <= i < vars2.len() ==> {
                &&& occurs(
                    db.lits(a.reason@[a.trail@[t].var() as int] as int),
                    #[trigger] vars2[i],
                )
                &&& a.pos@[vars2[i] as int] < t
            },
    ensures
        sources_ok(db, a, conflict, vars2, t),
{
    assert forall|v: Var| vars.contains(v) implies #[trigger] vars2.contains(v) by {
        let k = choose|k: int| 0 <= k < vars.len() && vars[k] == v;
        assert(vars2[k] == v);
    }
    assert forall|i: int| t <= i < a.trail@.len() implies #[trigger] resolved_at(
        db,
        a,
        vars2,
        i,
    ) by {
        if i > t && pivot(a, vars2, i) {
            let v = a.trail@[i].var();
            let k = choose|k: int| 0 <= k < vars2.len() && vars2[k] == v;
            assert(a.trail@[i].var() < a.cap());
            assert(a.at(a.trail@[i]) == i);
            if k >= vars.len() {
                assert(a.pos@[vars2[k] as int] < t);
            }
            assert(vars[k] == v);
            assert(pivot(a, vars, i));
            assert(resolved_at(db, a, vars, i));
        }
    }
    assert forall|v: Var| #[trigger] vars2.contains(v) implies drawn(
        db,
        a,
        conflict,
        vars2,
        t,
        v,
    ) by {
        let k = choose|k: int| 0 <= k < vars2.len() && vars2[k] == v;
        if k < vars.len() {
            assert(vars[k] == v);
            assert(vars.contains(v));
            assert(drawn(db, a, conflict, vars, t + 1, v));
            if !occurs(db.lits(conflict), v) {
                let i = choose|i: int|
                    t + 1 <= i < a.trail@.len() && #[trigger] pivot(a, vars, i) && occurs(
                        db.lits(a.reason@[a.trail@[i].var() as int] as int),
                        v,
                    );
                assert(pivot(a, vars2, i));
            }
        } else {
            assert(pivot(a, vars2, t));
        }
    }
}

/// Visit all literals of a clause and classify them.
///
/// `resolving` is the variable whose antecedent this clause is; its literal
/// is the derived one and is skipped. `None` for the initial conflict clause,
/// which is processed in full.
fn process_reason_into(
    db: &ClauseDb,
    a: &Assignment,
    act: &mut Activities,
    cr: ClauseRef,
    cur: u32,
    seen: &mut Vec<bool>,
    learnt: &mut LitVec,
    counter: &mut usize,
    resolving: Option<Var>,
    vars: &mut Ghost<Seq<Var>>,
    Ghost(start): Ghost<Standing>,
    Ghost(n): Ghost<u32>,
    Ghost(t): Ghost<int>,
)
    requires
        a.well_formed(),
        a.cap() == n + 1,
        a.trail_lim@.len() == cur,
        state::db_ok(n, *db),
        db.live(cr.0 as int),
        old(act).well_formed(),
        old(act).score@.len() == n + 1,
        marks_ok(*a, n, cur, old(seen)@, old(learnt)@, *old(counter) as int, t),
        tally_ok(*a, n, cur, old(seen)@, old(vars)@, t),
        old(act).standing() == vsids::bumped_all(start, old(vars)@),
        forall|k: int|
            0 <= k < db.lits(cr.0 as int).len() && resolving != Some(
                (#[trigger] db.lits(cr.0 as int)[k]).var(),
            ) ==> {
                &&& a.val(db.lits(cr.0 as int)[k]) == Value::False
                &&& a.at(db.lits(cr.0 as int)[k]) < t
            },
    ensures
        final(act).well_formed(),
        final(act).score@.len() == n + 1,
        marks_ok(*a, n, cur, final(seen)@, final(learnt)@, *final(counter) as int, t),
        tally_ok(*a, n, cur, final(seen)@, final(vars)@, t),
        final(act).standing() == vsids::bumped_all(start, final(vars)@),
        old(vars)@.is_prefix_of(final(vars)@),
        forall|i: int|
            old(vars)@.len() <= i < final(vars)@.len() ==> {
                &&& occurs(db.lits(cr.0 as int), #[trigger] final(vars)@[i])
                &&& a.pos@[final(vars)@[i] as int] < t
            },
        old(learnt)@.is_prefix_of(final(learnt)@),
        forall|v: int| 0 <= v <= n && #[trigger] old(seen)@[v] ==> final(seen)@[v],
        forall|k: int|
            0 <= k < db.lits(cr.0 as int).len() && resolving != Some(
                (#[trigger] db.lits(cr.0 as int)[k]).var(),
            ) && a.lvl(db.lits(cr.0 as int)[k]) != 0 ==> final(seen)@[db.lits(
                cr.0 as int,
            )[k].var() as int],
{
    let ghost c = db.lits(cr.0 as int);
    let len: usize = db.get(cr).lits.len();
    let limit: usize = a.num_assigned();
    let mut k: usize = 0;
    assert(state::lits_ok(n, c));
    while k < len
        invariant
            k <= len,
            len == c.len(),
            t <= limit,
            c == db.lits(cr.0 as int),
            db.live(cr.0 as int),
            state::lits_ok(n, c),
            a.well_formed(),
            a.cap() == n + 1,
            a.trail_lim@.len() == cur,
            act.well_formed(),
            act.score@.len() == n + 1,
            marks_ok(*a, n, cur, seen@, learnt@, *counter as int, t),
            tally_ok(*a, n, cur, seen@, vars@, t),
            act.standing() == vsids::bumped_all(start, vars@),
            old(vars)@.is_prefix_of(vars@),
            forall|i: int|
                old(vars)@.len() <= i < vars@.len() ==> {
                    &&& occurs(c, #[trigger] vars@[i])
                    &&& a.pos@[vars@[i] as int] < t
                },
            old(learnt)@.is_prefix_of(learnt@),
            forall|v: int| 0 <= v <= n && #[trigger] old(seen)@[v] ==> seen@[v],
            forall|j: int|
                0 <= j < c.len() && resolving != Some((#[trigger] c[j]).var()) ==> {
                    &&& a.val(c[j]) == Value::False
                    &&& a.at(c[j]) < t
                },
            forall|j: int|
                0 <= j < k && resolving != Some((#[trigger] c[j]).var()) && a.lvl(c[j]) != 0
                    ==> seen@[c[j].var() as int],
        decreases len - k,
    {
        let lit: Literal = db.get(cr).lits.at(k);
        let var: Var = lit.var();
        assert(1 <= c[k as int].var() <= n);
        let skip: bool = match resolving {
            Some(x) => x == var,
            None => false,
        };
        if !skip && !seen[var as usize] {
            let lvl: u32 = a.level_of(var);
            if lvl != 0 {
                let ghost seen0 = seen@;
                let ghost learnt0 = learnt@;
                proof {
                    state::false_on_trail(*a, lit);
                    awaiting_mark(*a, seen0, cur, t, var as int);
                    awaiting_bound(*a, seen0.update(var as int, true), cur, t);
                }
                seen[var as usize] = true;
                act.bump(var);
                proof {
                    let met = vars@;
                    assert(a.trail@[a.at(lit)].var() < a.cap());
                    assert(a.in_segment(a.at(lit), lvl as int));
                    tally_mark(*a, n, cur, seen0, met, t, var);
                    assert(met.push(var).drop_last() =~= met);
                    assert(c[k as int].var() == var);
                    *vars = Ghost(met.push(var));
                }
                if lvl == cur {
                    *counter += 1;
                } else {
                    learnt.push(lit);
                }
                proof {
                    assert forall|v: int|
                        0 <= v <= n && #[trigger] seen@[v] && a.level@[v] != cur implies exists|
                        j: int,
                    |
                        0 <= j < learnt@.len() && (#[trigger] learnt@[j]).var() == v by {
                        if v == var {
                            assert(learnt@[learnt@.len() - 1] == lit);
                        } else {
                            assert(seen0[v]);
                            let j = choose|j: int|
                                0 <= j < learnt0.len() && (#[trigger] learnt0[j]).var() == v;
                            assert(learnt@[j] == learnt0[j]);
                        }
                    }
                    assert forall|j: int| 0 <= j < learnt@.len() implies {
                        &&& 1 <= (#[trigger] learnt@[j]).var() <= n
                        &&& a.val(learnt@[j]) == Value::False
                        &&& 1 <= a.lvl(learnt@[j]) < cur
                        &&& seen@[learnt@[j].var() as int]
                    } by {
                        if j < learnt0.len() {
                            assert(learnt@[j] == learnt0[j]);
                        }
                    }
                }
            }
        }
        k += 1;
    }
}

/// Resolving with a clause: a valuation that satisfies it but none of the
/// literals that were skipped satisfies a collected literal or falsifies one
/// that awaits resolution.
proof fn resolve_with(
    f: Basis,
    n: u32,
    db: ClauseDb,
    a: Assignment,
    cur: u32,
    seen: Seq<bool>,
    learnt: Seq<Literal>,
    counter: int,
    t: int,
    r: int,
    k: int,
    val: logic::Valuation,
)
    requires
        a.well_formed(),
        a.cap() == n + 1,
        state::db_ok(n, db),
        state::reasons_ok(db, a),
        state::sound_ok(f, db),
        state::roots_ok(f, a),
        marks_ok(a, n, cur, seen, learnt, counter, t),
        db.live(r),
        0 <= k < db.lits(r).len(),
        a.val(db.lits(r)[k]) == Value::False,
        a.at(db.lits(r)[k]) < t,
        a.lvl(db.lits(r)[k]) != 0 ==> seen[db.lits(r)[k].var() as int],
        logic::formula_holds(val, f.clauses),
        logic::lit_holds(val, db.lits(r)[k]),
    ensures
        logic::clause_holds(val, learnt) || exists|i: int|
            0 <= i < t && #[trigger] awaits(a, seen, cur, i) && !logic::lit_holds(
                val,
                a.trail@[i],
            ),
{
    let x = db.lits(r)[k];
    assert(1 <= x.var() <= n);
    state::false_on_trail(a, x);
    crate::akx::literal::negation_laws(x);
    let i = a.at(x);
    if a.lvl(x) == 0 {
        assert forall|s: int, j: int| db.live(s) && 0 <= j < db.lits(s).len() implies (
        #[trigger] db.lits(s)[j]).var() < a.cap() by {
            assert(state::lits_ok(n, db.lits(s)));
        }
        state::trail_holds(f, db, a, 0, val, i);
        assert(false);
    } else if a.lvl(x) == cur {
        assert(awaits(a, seen, cur, i));
    } else {
        let j = choose|j: int| 0 <= j < learnt.len() && (#[trigger] learnt[j]).var() == x.var();
        crate::akx::literal::same_variable(learnt[j], x);
        assert(a.val(learnt[j]) == Value::False);
        assert(learnt[j] == x);
        assert(logic::lit_holds(val, learnt[j]));
    }
}

/// Resolving with a clause: if a literal of it is not false, one that awaits
/// resolution is not true.
proof fn resolve_up(
    f: Basis,
    n: u32,
    db: ClauseDb,
    a: Assignment,
    cur: u32,
    seen: Seq<bool>,
    learnt: Seq<Literal>,
    counter: int,
    t: int,
    r: int,
    k: int,
    m: trace::World,
)
    requires
        a.well_formed(),
        a.cap() == n + 1,
        state::db_ok(n, db),
        state::reasons_ok(db, a),
        state::sound_ok(f, db),
        state::roots_ok(f, a),
        marks_ok(a, n, cur, seen, learnt, counter, t),
        db.live(r),
        0 <= k < db.lits(r).len(),
        a.val(db.lits(r)[k]) == Value::False,
        a.at(db.lits(r)[k]) < t,
        a.lvl(db.lits(r)[k]) != 0 ==> seen[db.lits(r)[k].var() as int],
        trace::all_stable(m, trace::steps(f)),
        trace::all_false(m, learnt),
        !trace::is_false(m, db.lits(r)[k]),
    ensures
        some_open(m, a, cur, seen, t),
{
    let x = db.lits(r)[k];
    assert(state::lits_ok(n, db.lits(r)));
    assert(1 <= x.var() <= n);
    state::false_on_trail(a, x);
    trace::negation_is_true(m, x);
    crate::akx::literal::negation_laws(x);
    let i = a.at(x);
    if a.lvl(x) == 0 {
        state::trail_true(f, n, db, a, m, i);
        assert(false);
    } else if a.lvl(x) == cur {
        assert(awaits(a, seen, cur, i));
    } else {
        let j = choose|j: int| 0 <= j < learnt.len() && (#[trigger] learnt[j]).var() == x.var();
        crate::akx::literal::same_variable(learnt[j], x);
        assert(a.val(learnt[j]) == Value::False);
        assert(learnt[j] == x);
        assert(trace::is_false(m, learnt[j]));
    }
}

/// A conflict clause and the literals its analysis produced.
pub open spec fn learned_from(
    f: Basis,
    n: u32,
    a: Assignment,
    clause: Seq<Literal>,
    backjump: u32,
) -> bool {
    let cur = a.trail_lim@.len();
    &&& clause.len() >= 1
    &&& state::lits_ok(n, clause)
    &&& state::distinct_vars(clause)
    &&& logic::entails(f.clauses, clause)
    &&& trace::up_entails(trace::steps(f), clause)
    &&& backjump < cur
    &&& a.val(clause[0]) == Value::False
    &&& a.lvl(clause[0]) == cur
    &&& forall|k: int|
        1 <= k < clause.len() ==> {
            &&& a.val(#[trigger] clause[k]) == Value::False
            &&& 1 <= a.lvl(clause[k]) <= backjump
        }
    &&& if clause.len() == 1 {
        backjump == 0
    } else {
        a.lvl(clause[1]) == backjump
    }
}

/// Analyse a conflict and return (learnt_clause, backjump_level).
///
/// The returned clause follows from the formula. It has the asserting literal
/// at index 0 and a literal of the highest remaining level (if any) at index
/// 1, ready to be watched.
pub fn analyze(
    db: &ClauseDb,
    a: &Assignment,
    act: &mut Activities,
    conflict_cr: ClauseRef,
    num_vars: u32,
    Ghost(f): Ghost<Basis>,
    Ghost(w): Ghost<WatchList>,
) -> (res: (LitVec, u32))
    requires
        num_vars < usize::MAX,
        state::search_ok(f, num_vars, *db, w, *a),
        bcp::falsified(*db, *a, conflict_cr.0 as int),
        exists|k: int|
            0 <= k < db.lits(conflict_cr.0 as int).len() && a.lvl(
                #[trigger] db.lits(conflict_cr.0 as int)[k],
            ) == a.trail_lim@.len(),
        a.trail_lim@.len() >= 1,
        old(act).well_formed(),
        old(act).score@.len() == num_vars + 1,
    ensures
        learned_from(f, num_vars, *a, res.0@, res.1),
        final(act).well_formed(),
        final(act).score@.len() == num_vars + 1,
        exists|vars: Seq<Var>|
            {
                &&& #[trigger] explained(*db, *a, conflict_cr.0 as int, res.0@, vars)
                &&& final(act).standing() == vsids::bumped_all(old(act).standing(), vars)
            },
{
    let ghost n: u32 = num_vars;
    let ghost start = act.standing();
    let ghost conflict = conflict_cr.0 as int;
    let mut vars: Ghost<Seq<Var>> = Ghost(Seq::empty());
    let cur: u32 = a.current_level();
    let mut seen: Vec<bool> = vec![false; num_vars as usize + 1];
    let mut learnt: LitVec = LitVec::new();
    let mut counter: usize = 0;
    let mut tp: usize = a.trail().len();
    let ghost cc = db.lits(conflict_cr.0 as int);
    proof {
        assert forall|i: int| 0 <= i < tp implies !awaits(*a, seen@, cur, i) by {
            assert(a.trail@[i].var() < a.cap());
        }
        if awaiting(*a, seen@, cur, tp as int) > 0 {
            let i = awaiting_some(*a, seen@, cur, tp as int);
        }
        assert forall|k: int| 0 <= k < cc.len() implies {
            &&& a.val(#[trigger] cc[k]) == Value::False
            &&& a.at(cc[k]) < tp
            &&& cc[k].var() <= n
        } by {
            assert(state::lits_ok(n, cc));
            state::false_on_trail(*a, cc[k]);
        }
    }
    process_reason_into(
        db,
        a,
        act,
        conflict_cr,
        cur,
        &mut seen,
        &mut learnt,
        &mut counter,
        None,
        &mut vars,
        Ghost(start),
        Ghost(n),
        Ghost(tp as int),
    );
    proof {
        assert(sources_ok(*db, *a, conflict, vars@, tp as int)) by {
            assert forall|v: Var| #[trigger] vars@.contains(v) implies drawn(
                *db,
                *a,
                conflict,
                vars@,
                tp as int,
                v,
            ) by {
                let k = choose|k: int| 0 <= k < vars@.len() && vars@[k] == v;
                assert(occurs(db.lits(conflict), vars@[k]));
            }
        }
        assert forall|val: logic::Valuation| #[trigger] logic::formula_holds(val, f.clauses) implies {
            ||| logic::clause_holds(val, learnt@)
            ||| exists|i: int|
                0 <= i < tp && #[trigger] awaits(*a, seen@, cur, i) && !logic::lit_holds(
                    val,
                    a.trail@[i],
                )
        } by {
            assert(logic::clause_holds(val, cc));
            let k = choose|k: int| 0 <= k < cc.len() && logic::lit_holds(val, #[trigger] cc[k]);
            resolve_with(
                f,
                n,
                *db,
                *a,
                cur,
                seen@,
                learnt@,
                counter as int,
                tp as int,
                conflict_cr.0 as int,
                k,
                val,
            );
        }
        assert forall|m: trace::World|
            #[trigger] trace::all_stable(m, trace::steps(f)) && trace::all_false(
                m,
                learnt@,
            ) implies some_open(m, *a, cur, seen@, tp as int) by {
            trace::listed_stable(m, trace::steps(f), cc);
            let k = choose|k: int| 0 <= k < cc.len() && !trace::is_false(m, #[trigger] cc[k]);
            resolve_up(
                f,
                n,
                *db,
                *a,
                cur,
                seen@,
                learnt@,
                counter as int,
                tp as int,
                conflict_cr.0 as int,
                k,
                m,
            );
        }
        let k = choose|k: int|
            0 <= k < cc.len() && a.lvl(#[trigger] cc[k]) == a.trail_lim@.len();
        state::false_on_trail(*a, cc[k]);
        let i = a.at(cc[k]);
        assert(awaits(*a, seen@, cur, i));
        if counter == 0 {
            awaiting_none(*a, seen@, cur, tp as int, i);
        }
    }
    let mut uip: Literal = Literal::from_raw(0);
    let mut done: bool = false;
    while !done
        invariant
            n == num_vars,
            a.trail_lim@.len() == cur,
            cur >= 1,
            state::search_ok(f, n, *db, w, *a),
            act.well_formed(),
            act.score@.len() == n + 1,
            tp <= a.trail@.len(),
            seen@.len() == n + 1,
            state::lits_ok(n, a.trail@),
            !done ==> marks_ok(*a, n, cur, seen@, learnt@, counter as int, tp as int),
            !done ==> counter >= 1,
            !done ==> resolvent(f, *a, cur, seen@, learnt@, tp as int),
            !done ==> up_resolvent(f, *a, cur, seen@, learnt@, tp as int),
            conflict == conflict_cr.0,
            act.standing() == vsids::bumped_all(start, vars@),
            !done ==> tally_ok(*a, n, cur, seen@, vars@, tp as int),
            !done ==> sources_ok(*db, *a, conflict, vars@, tp as int),
            done ==> remains(*db, *a, conflict, uip, learnt@, vars@),
            done ==> {
                &&& 1 <= uip.var() <= n
                &&& a.val(uip) == Value::True
                &&& a.lvl(uip) == cur
                &&& state::distinct_vars(learnt@)
                &&& forall|k: int|
                    0 <= k < learnt@.len() ==> {
                        &&& 1 <= (#[trigger] learnt@[k]).var() <= n
                        &&& a.val(learnt@[k]) == Value::False
                        &&& 1 <= a.lvl(learnt@[k]) < cur
                    }
                &&& forall|val: logic::Valuation| #[trigger]
                    logic::formula_holds(val, f.clauses) ==> logic::clause_holds(val, learnt@)
                        || !logic::lit_holds(val, uip)
                &&& forall|m: trace::World|
                    #[trigger] trace::all_stable(m, trace::steps(f)) && trace::all_false(
                        m,
                        learnt@,
                    ) ==> !trace::is_true(m, uip)
            },
        decreases tp, (if done { 0int } else { 1 }),
    {
        let ghost wit = awaiting_some(*a, seen@, cur, tp as int);
        // Scan backward for the next marked variable.
        while !seen[a.trail()[tp - 1].var() as usize]
            invariant
                n == num_vars,
                a.trail_lim@.len() == cur,
                state::search_ok(f, n, *db, w, *a),
                0 < tp <= a.trail@.len(),
                seen@.len() == n + 1,
                state::lits_ok(n, a.trail@),
                marks_ok(*a, n, cur, seen@, learnt@, counter as int, tp as int),
                resolvent(f, *a, cur, seen@, learnt@, tp as int),
                up_resolvent(f, *a, cur, seen@, learnt@, tp as int),
                0 <= wit < tp,
                awaits(*a, seen@, cur, wit),
                tally_ok(*a, n, cur, seen@, vars@, tp as int),
                sources_ok(*db, *a, conflict, vars@, tp as int),
            decreases tp,
        {
            proof {
                walk_past(*db, *a, n, cur, conflict, seen@, vars@, tp as int);
                let x = a.trail@[tp - 1];
                assert(x.var() <= n);
                assert(!awaits(*a, seen@, cur, tp - 1));
                assert forall|v: int| 0 <= v <= n && #[trigger] seen@[v] implies a.pos@[v] < tp
                    - 1 by {
                    assert(a.value@[v] != Value::Undef);
                    assert(a.trail@[a.pos@[v]].var() == v);
                }
                assert forall|val: logic::Valuation| #[trigger]
                    logic::formula_holds(val, f.clauses) implies {
                    ||| logic::clause_holds(val, learnt@)
                    ||| exists|i: int|
                        0 <= i < tp - 1 && #[trigger] awaits(*a, seen@, cur, i)
                            && !logic::lit_holds(val, a.trail@[i])
                } by {
                    if !logic::clause_holds(val, learnt@) {
                        let i = choose|i: int|
                            0 <= i < tp && #[trigger] awaits(*a, seen@, cur, i)
                                && !logic::lit_holds(val, a.trail@[i]);
                        assert(i != tp - 1);
                    }
                }
                assert forall|m: trace::World|
                    #[trigger] trace::all_stable(m, trace::steps(f)) && trace::all_false(
                        m,
                        learnt@,
                    ) implies some_open(m, *a, cur, seen@, tp - 1) by {
                    assert(some_open(m, *a, cur, seen@, tp as int));
                    let i = choose|i: int|
                        0 <= i < tp && #[trigger] awaits(*a, seen@, cur, i) && !trace::is_true(
                            m,
                            a.trail@[i],
                        );
                    assert(i != tp - 1);
                }
            }
            tp -= 1;
        }
        tp -= 1;
        let lit: Literal = a.trail()[tp];
        let var: Var = lit.var();
        let ghost seen0 = seen@;
        proof {
            assert(1 <= lit.var() <= n);
            assert(a.at(lit) == tp);
            state::levels_monotone(*a, wit, tp as int);
            assert(a.lvl(lit) == cur);
            assert(awaits(*a, seen0, cur, tp as int));
            awaiting_unmark(*a, seen0, cur, tp as int, var as int);
            tally_unmark(*a, n, cur, seen0, vars@, tp as int);
        }
        seen[var as usize] = false;
        counter -= 1;
        proof {
            assert(counter == awaiting(*a, seen@, cur, tp as int));
            assert forall|v: int| 0 <= v <= n && #[trigger] seen@[v] implies {
                &&& a.value@[v] != Value::Undef
                &&& 1 <= a.level@[v] <= cur
                &&& a.pos@[v] < tp
            } by {
                assert(seen0[v]);
                assert(a.trail@[a.pos@[v]].var() == v);
            }
            assert forall|k: int| 0 <= k < learnt@.len() implies {
                &&& 1 <= (#[trigger] learnt@[k]).var() <= n
                &&& a.val(learnt@[k]) == Value::False
                &&& 1 <= a.lvl(learnt@[k]) < cur
                &&& seen@[learnt@[k].var() as int]
            } by {
                assert(seen0[learnt@[k].var() as int]);
            }
            assert forall|v: int|
                0 <= v <= n && #[trigger] seen@[v] && a.level@[v] != cur implies exists|k: int|
                0 <= k < learnt@.len() && (#[trigger] learnt@[k]).var() == v by {
                assert(seen0[v]);
            }
            assert(marks_ok(*a, n, cur, seen@, learnt@, counter as int, tp as int));
            // What remains once `lit` is resolved away.
            assert forall|val: logic::Valuation|
                #[trigger] logic::formula_holds(val, f.clauses) && logic::lit_holds(val, lit) implies {
                ||| logic::clause_holds(val, learnt@)
                ||| exists|i: int|
                    0 <= i < tp && #[trigger] awaits(*a, seen@, cur, i) && !logic::lit_holds(
                        val,
                        a.trail@[i],
                    )
            } by {
                if !logic::clause_holds(val, learnt@) {
                    let i = choose|i: int|
                        0 <= i < tp + 1 && #[trigger] awaits(*a, seen0, cur, i)
                            && !logic::lit_holds(val, a.trail@[i]);
                    assert(i != tp);
                    assert(a.trail@[i].var() < a.cap());
                    assert(a.at(a.trail@[i]) == i);
                    assert(awaits(*a, seen@, cur, i));
                }
            }
            assert forall|m: trace::World|
                #[trigger] trace::all_stable(m, trace::steps(f)) && trace::all_false(m, learnt@)
                    && trace::is_true(m, lit) implies some_open(
                m,
                *a,
                cur,
                seen@,
                tp as int,
            ) by {
                assert(some_open(m, *a, cur, seen0, tp + 1));
                let i = choose|i: int|
                    0 <= i < tp + 1 && #[trigger] awaits(*a, seen0, cur, i) && !trace::is_true(
                        m,
                        a.trail@[i],
                    );
                assert(i != tp);
                assert(a.trail@[i].var() < a.cap());
                assert(a.at(a.trail@[i]) == i);
                assert(awaits(*a, seen@, cur, i));
            }
        }
        if counter == 0 {
            uip = lit;
            done = true;
            proof {
                what_remains(*db, *a, n, cur, conflict, lit, seen@, learnt@, vars@, tp as int);
                assert forall|val: logic::Valuation| #[trigger]
                    logic::formula_holds(val, f.clauses) implies logic::clause_holds(val, learnt@)
                    || !logic::lit_holds(val, uip) by {
                    if logic::lit_holds(val, lit) && !logic::clause_holds(val, learnt@) {
                        let i = choose|i: int|
                            0 <= i < tp && #[trigger] awaits(*a, seen@, cur, i)
                                && !logic::lit_holds(val, a.trail@[i]);
                        awaiting_none(*a, seen@, cur, tp as int, i);
                    }
                }
                assert forall|m: trace::World|
                    #[trigger] trace::all_stable(m, trace::steps(f)) && trace::all_false(
                        m,
                        learnt@,
                    ) implies !trace::is_true(m, uip) by {
                    if trace::is_true(m, lit) {
                        assert(some_open(m, *a, cur, seen@, tp as int));
                        let i = choose|i: int|
                            0 <= i < tp && #[trigger] awaits(*a, seen@, cur, i)
                                && !trace::is_true(m, a.trail@[i]);
                        awaiting_none(*a, seen@, cur, tp as int, i);
                    }
                }
            }
        } else {
            // Expand the antecedent of this literal.
            let reason_cr: ClauseRef = ClauseRef(a.reason_of(var));
            let ghost seen1 = seen@;
            let ghost learnt1 = learnt@;
            let ghost vars1 = vars@;
            proof {
                assert(state::reason_ok(*db, *a, tp as int));
                assert(state::root_ok(f, *a, tp as int));
                let other = awaiting_some(*a, seen@, cur, tp as int);
                if state::opens_level(*a, tp as int) {
                    assert(a.trail@[other].var() < a.cap());
                    assert(a.in_segment(other, a.lvl(a.trail@[other]) as int));
                    assert(false);
                }
            }
            if !reason_cr.is_sentinel() {
                let ghost rc = db.lits(reason_cr.0 as int);
                proof {
                    assert(db.live(reason_cr.0 as int));
                    assert forall|k: int|
                        0 <= k < rc.len() && Some(var) != Some((#[trigger] rc[k]).var()) implies {
                        &&& a.val(rc[k]) == Value::False
                        &&& a.at(rc[k]) < tp
                    } by {
                        if k == 0 {
                            assert(rc[0] == lit);
                        }
                    }
                }
                process_reason_into(
                    db,
                    a,
                    act,
                    reason_cr,
                    cur,
                    &mut seen,
                    &mut learnt,
                    &mut counter,
                    Some(var),
                    &mut vars,
                    Ghost(start),
                    Ghost(n),
                    Ghost(tp as int),
                );
                proof {
                    assert(vars@.contains(var)) by {
                        let k = choose|k: int| 0 <= k < vars1.len() && vars1[k] == var;
                        assert(vars@[k] == var);
                    }
                    assert(pivot(*a, vars@, tp as int));
                    assert(covered(*db, *a, reason_cr.0 as int, Some(var), vars@)) by {
                        assert forall|k: int|
                            0 <= k < rc.len() && Some(var) != Some((#[trigger] rc[k]).var())
                                && a.lvl(rc[k]) != 0 implies vars@.contains(rc[k].var()) by {
                            assert(state::lits_ok(n, rc));
                            assert(seen@[rc[k].var() as int]);
                        }
                    }
                    sources_grow(*db, *a, conflict, vars1, vars@, tp as int);
                    expanded(
                        f,
                        n,
                        *db,
                        *a,
                        cur,
                        seen1,
                        seen@,
                        learnt1,
                        learnt@,
                        counter as int,
                        tp as int,
                        reason_cr.0 as int,
                        lit,
                    );
                    expanded_up(
                        f,
                        n,
                        *db,
                        *a,
                        cur,
                        seen1,
                        seen@,
                        learnt1,
                        learnt@,
                        counter as int,
                        tp as int,
                        reason_cr.0 as int,
                        lit,
                    );
                }
            } else {
                proof {
                    assert(!pivot(*a, vars@, tp as int));
                    sources_grow(*db, *a, conflict, vars1, vars@, tp as int);
                    assert forall|val: logic::Valuation| #[trigger]
                        logic::formula_holds(val, f.clauses) implies {
                        ||| logic::clause_holds(val, learnt@)
                        ||| exists|i: int|
                            0 <= i < tp && #[trigger] awaits(*a, seen@, cur, i)
                                && !logic::lit_holds(val, a.trail@[i])
                    } by {
                        assert(logic::clause_holds(val, seq![lit]));
                        let k = choose|k: int|
                            0 <= k < seq![lit].len() && logic::lit_holds(
                                val,
                                #[trigger] seq![lit][k],
                            );
                        assert(seq![lit][k] == lit);
                    }
                    assert forall|m: trace::World|
                        #[trigger] trace::all_stable(m, trace::steps(f)) && trace::all_false(
                            m,
                            learnt@,
                        ) implies some_open(m, *a, cur, seen@, tp as int) by {
                        let c = seq![lit];
                        trace::listed_stable(m, trace::steps(f), c);
                        assert(c[0] == lit);
                        assert(c.contains(lit));
                        assert(trace::only_left(m, c, lit));
                    }
                }
            }
            proof {
                let i = awaiting_some(*a, seen1, cur, tp as int);
                assert(awaits(*a, seen@, cur, i)) by {
                    assert(a.trail@[i].var() < a.cap());
                    assert(seen1[a.trail@[i].var() as int]);
                }
                if counter == 0 {
                    awaiting_none(*a, seen@, cur, tp as int, i);
                }
            }
        }
    }
    let ghost lower = learnt@;
    let res: (LitVec, u32) = finish(a, uip, learnt, Ghost(f), Ghost(n));
    proof {
        arranged_explains(*db, *a, conflict, uip, lower, res.0@, vars@);
    }
    res
}

/// The literals collected when the implication point has been reached.
pub open spec fn remains(
    db: ClauseDb,
    a: Assignment,
    conflict: int,
    uip: Literal,
    learnt: Seq<Literal>,
    vars: Seq<Var>,
) -> bool {
    let cur = a.trail_lim@.len();
    let stop = a.at(uip);
    &&& vars.no_duplicates()
    &&& covered(db, a, conflict, None, vars)
    &&& forall|i: int| stop < i < a.trail@.len() ==> #[trigger] resolved_at(db, a, vars, i)
    &&& forall|v: Var| #[trigger]
        vars.contains(v) ==> {
            &&& v < a.cap()
            &&& drawn(db, a, conflict, vars, stop + 1, v)
            &&& 1 <= a.level@[v as int] <= cur
            &&& a.level@[v as int] == cur ==> a.pos@[v as int] >= stop
            &&& a.level@[v as int] < cur ==> occurs(learnt, v)
        }
    &&& vars.contains(uip.var())
    &&& forall|k: int| 0 <= k < learnt.len() ==> vars.contains((#[trigger] learnt[k]).var())
}

/// With no mark left at the current level, the literal at position `t` is the
/// implication point.
proof fn what_remains(
    db: ClauseDb,
    a: Assignment,
    n: u32,
    cur: u32,
    conflict: int,
    uip: Literal,
    seen: Seq<bool>,
    learnt: Seq<Literal>,
    vars: Seq<Var>,
    t: int,
)
    requires
        a.well_formed(),
        a.cap() == n + 1,
        a.trail_lim@.len() == cur,
        0 <= t < a.trail@.len(),
        a.trail@[t] == uip,
        marks_ok(a, n, cur, seen, learnt, 0, t),
        tally_ok(a, n, cur, seen, vars, t),
        sources_ok(db, a, conflict, vars, t + 1),
        vars.contains(uip.var()),
    ensures
        remains(db, a, conflict, uip, learnt, vars),
{
    assert(a.trail@[t].var() < a.cap());
    assert(a.at(uip) == t);
    assert forall|v: Var| #[trigger] vars.contains(v) implies {
        &&& a.level@[v as int] == cur ==> a.pos@[v as int] >= t
        &&& a.level@[v as int] < cur ==> occurs(learnt, v)
    } by {
        if a.level@[v as int] == cur && a.pos@[v as int] < t {
            let i = a.pos@[v as int];
            assert(seen[v as int]);
            assert(a.trail@[i].var() == v);
            assert(awaits(a, seen, cur, i));
            awaiting_none(a, seen, cur, t, i);
        }
        if a.level@[v as int] < cur {
            assert(seen[v as int]);
        }
    }
    assert forall|k: int| 0 <= k < learnt.len() implies vars.contains(
        (#[trigger] learnt[k]).var(),
    ) by {
        assert(seen[learnt[k].var() as int]);
    }
}

/// The clause holds the negated implication point first and then the collected
/// literals in some order.
pub open spec fn arranged(clause: Seq<Literal>, uip: Literal, learnt: Seq<Literal>) -> bool {
    &&& clause.len() == learnt.len() + 1
    &&& clause[0] == uip.negate()
    &&& forall|k: int| 1 <= k < clause.len() ==> learnt.contains(#[trigger] clause[k])
    &&& forall|k: int| 0 <= k < learnt.len() ==> clause.contains(#[trigger] learnt[k])
}

proof fn arranged_explains(
    db: ClauseDb,
    a: Assignment,
    conflict: int,
    uip: Literal,
    learnt: Seq<Literal>,
    clause: Seq<Literal>,
    vars: Seq<Var>,
)
    requires
        remains(db, a, conflict, uip, learnt, vars),
        arranged(clause, uip, learnt),
    ensures
        explained(db, a, conflict, clause, vars),
{
    crate::akx::literal::negation_laws(uip);
    assert(a.at(clause[0]) == a.at(uip));
    assert forall|k: int| 0 <= k < clause.len() implies vars.contains(
        (#[trigger] clause[k]).var(),
    ) by {
        if k > 0 {
            let j = choose|j: int| 0 <= j < learnt.len() && learnt[j] == clause[k];
            assert(vars.contains(learnt[j].var()));
        }
    }
    assert forall|v: Var| occurs(learnt, v) implies #[trigger] occurs(clause, v) by {
        let j = choose|j: int| 0 <= j < learnt.len() && (#[trigger] learnt[j]).var() == v;
        assert(clause.contains(learnt[j]));
        let k = choose|k: int| 0 <= k < clause.len() && clause[k] == learnt[j];
        assert(clause[k].var() == v);
    }
}

/// Resolving away `lit` with its antecedent keeps the resolvent property.
proof fn expanded(
    f: Basis,
    n: u32,
    db: ClauseDb,
    a: Assignment,
    cur: u32,
    seen1: Seq<bool>,
    seen2: Seq<bool>,
    learnt1: Seq<Literal>,
    learnt2: Seq<Literal>,
    counter: int,
    t: int,
    r: int,
    lit: Literal,
)
    requires
        a.well_formed(),
        a.cap() == n + 1,
        state::db_ok(n, db),
        state::reasons_ok(db, a),
        state::sound_ok(f, db),
        state::roots_ok(f, a),
        marks_ok(a, n, cur, seen2, learnt2, counter, t),
        learnt1.is_prefix_of(learnt2),
        forall|v: int| 0 <= v <= n && #[trigger] seen1[v] ==> seen2[v],
        db.live(r),
        db.lits(r)[0] == lit,
        forall|k: int|
            1 <= k < db.lits(r).len() ==> {
                &&& a.val(#[trigger] db.lits(r)[k]) == Value::False
                &&& a.at(db.lits(r)[k]) < t
            },
        a.at(lit) >= t,
        forall|k: int|
            0 <= k < db.lits(r).len() && Some(lit.var()) != Some((#[trigger] db.lits(r)[k]).var())
                && a.lvl(db.lits(r)[k]) != 0 ==> seen2[db.lits(r)[k].var() as int],
        forall|val: logic::Valuation|
            #[trigger] logic::formula_holds(val, f.clauses) && logic::lit_holds(val, lit) ==> {
                ||| logic::clause_holds(val, learnt1)
                ||| exists|i: int|
                    0 <= i < t && #[trigger] awaits(a, seen1, cur, i) && !logic::lit_holds(
                        val,
                        a.trail@[i],
                    )
            },
        0 <= t <= a.trail@.len(),
    ensures
        resolvent(f, a, cur, seen2, learnt2, t),
{
    let c = db.lits(r);
    assert forall|val: logic::Valuation| #[trigger] logic::formula_holds(val, f.clauses) implies {
        ||| logic::clause_holds(val, learnt2)
        ||| exists|i: int|
            0 <= i < t && #[trigger] awaits(a, seen2, cur, i) && !logic::lit_holds(
                val,
                a.trail@[i],
            )
    } by {
        if logic::lit_holds(val, lit) {
            if logic::clause_holds(val, learnt1) {
                let k = choose|k: int|
                    0 <= k < learnt1.len() && logic::lit_holds(val, #[trigger] learnt1[k]);
                assert(learnt2[k] == learnt1[k]);
            } else {
                let i = choose|i: int|
                    0 <= i < t && #[trigger] awaits(a, seen1, cur, i) && !logic::lit_holds(
                        val,
                        a.trail@[i],
                    );
                assert(a.trail@[i].var() < a.cap());
                assert(awaits(a, seen2, cur, i));
            }
        } else {
            assert(logic::clause_holds(val, c));
            let k = choose|k: int| 0 <= k < c.len() && logic::lit_holds(val, #[trigger] c[k]);
            assert(k != 0);
            assert(a.val(c[k]) == Value::False);
            if c[k].var() == lit.var() {
                // The antecedent's other literals lie before `lit`.
                assert(a.at(c[k]) == a.at(lit));
                assert(false);
            } else {
                resolve_with(f, n, db, a, cur, seen2, learnt2, counter, t, r, k, val);
            }
        }
    }
}

/// Resolving away `lit` with its antecedent keeps what unit propagation sees.
proof fn expanded_up(
    f: Basis,
    n: u32,
    db: ClauseDb,
    a: Assignment,
    cur: u32,
    seen1: Seq<bool>,
    seen2: Seq<bool>,
    learnt1: Seq<Literal>,
    learnt2: Seq<Literal>,
    counter: int,
    t: int,
    r: int,
    lit: Literal,
)
    requires
        a.well_formed(),
        a.cap() == n + 1,
        state::db_ok(n, db),
        state::reasons_ok(db, a),
        state::sound_ok(f, db),
        state::roots_ok(f, a),
        marks_ok(a, n, cur, seen2, learnt2, counter, t),
        learnt1.is_prefix_of(learnt2),
        forall|v: int| 0 <= v <= n && #[trigger] seen1[v] ==> seen2[v],
        db.live(r),
        db.lits(r)[0] == lit,
        forall|k: int|
            1 <= k < db.lits(r).len() ==> {
                &&& a.val(#[trigger] db.lits(r)[k]) == Value::False
                &&& a.at(db.lits(r)[k]) < t
            },
        a.at(lit) >= t,
        forall|k: int|
            0 <= k < db.lits(r).len() && Some(lit.var()) != Some((#[trigger] db.lits(r)[k]).var())
                && a.lvl(db.lits(r)[k]) != 0 ==> seen2[db.lits(r)[k].var() as int],
        forall|m: trace::World|
            #[trigger] trace::all_stable(m, trace::steps(f)) && trace::all_false(m, learnt1)
                && trace::is_true(m, lit) ==> some_open(m, a, cur, seen1, t),
        0 <= t <= a.trail@.len(),
    ensures
        up_resolvent(f, a, cur, seen2, learnt2, t),
{
    let c = db.lits(r);
    assert forall|m: trace::World|
        #[trigger] trace::all_stable(m, trace::steps(f)) && trace::all_false(
            m,
            learnt2,
        ) implies some_open(m, a, cur, seen2, t) by {
        if trace::is_true(m, lit) {
            assert(trace::all_false(m, learnt1)) by {
                assert forall|k: int| 0 <= k < learnt1.len() implies trace::is_false(
                    m,
                    #[trigger] learnt1[k],
                ) by {
                    assert(learnt2[k] == learnt1[k]);
                }
            }
            assert(some_open(m, a, cur, seen1, t));
            let i = choose|i: int|
                0 <= i < t && #[trigger] awaits(a, seen1, cur, i) && !trace::is_true(
                    m,
                    a.trail@[i],
                );
            assert(a.trail@[i].var() < a.cap());
            assert(awaits(a, seen2, cur, i));
        } else {
            trace::listed_stable(m, trace::steps(f), c);
            assert(c[0] == lit);
            assert(c.contains(lit));
            assert(!trace::only_left(m, c, lit));
            let k = choose|k: int|
                0 <= k < c.len() && c[k] != lit && !trace::is_false(m, #[trigger] c[k]);
            assert(k != 0);
            assert(a.val(c[k]) == Value::False);
            if c[k].var() == lit.var() {
                // The antecedent's other literals lie before `lit`.
                assert(a.at(c[k]) == a.at(lit));
                assert(false);
            } else {
                resolve_up(f, n, db, a, cur, seen2, learnt2, counter, t, r, k, m);
            }
        }
    }
}

/// Put the asserting literal first and a literal of the highest level behind
/// it.
fn finish(
    a: &Assignment,
    uip: Literal,
    learnt: LitVec,
    Ghost(f): Ghost<Basis>,
    Ghost(n): Ghost<u32>,
) -> (res: (LitVec, u32))
    requires
        a.well_formed(),
        a.cap() == n + 1,
        a.trail_lim@.len() >= 1,
        1 <= uip.var() <= n,
        a.val(uip) == Value::True,
        a.lvl(uip) == a.trail_lim@.len(),
        state::distinct_vars(learnt@),
        forall|k: int|
            0 <= k < learnt@.len() ==> {
                &&& 1 <= (#[trigger] learnt@[k]).var() <= n
                &&& a.val(learnt@[k]) == Value::False
                &&& 1 <= a.lvl(learnt@[k]) < a.trail_lim@.len()
            },
        forall|val: logic::Valuation| #[trigger]
            logic::formula_holds(val, f.clauses) ==> logic::clause_holds(val, learnt@)
                || !logic::lit_holds(val, uip),
        forall|m: trace::World|
            #[trigger] trace::all_stable(m, trace::steps(f)) && trace::all_false(m, learnt@)
                ==> !trace::is_true(m, uip),
    ensures
        learned_from(f, n, *a, res.0@, res.1),
        arranged(res.0@, uip, learnt@),
{
    let asserting: Literal = uip.negate();
    let len: usize = learnt.len();
    let mut clause: LitVec = LitVec::new();
    clause.push(asserting);
    let mut backjump: u32 = 0;
    let mut max_idx: usize = 0;
    let mut i: usize = 0;
    while i < len
        invariant
            i <= len,
            len == learnt@.len(),
            a.cap() == n + 1,
            a.level@.len() == n + 1,
            clause@ == seq![asserting] + learnt@.take(i as int),
            forall|k: int|
                0 <= k < learnt@.len() ==> {
                    &&& 1 <= (#[trigger] learnt@[k]).var() <= n
                    &&& a.val(learnt@[k]) == Value::False
                    &&& 1 <= a.lvl(learnt@[k]) < a.trail_lim@.len()
                },
            i == 0 ==> backjump == 0,
            i > 0 ==> max_idx < i && a.lvl(learnt@[max_idx as int]) == backjump,
            forall|k: int| 0 <= k < i ==> a.lvl(#[trigger] learnt@[k]) <= backjump,
        decreases len - i,
    {
        let lit: Literal = learnt.at(i);
        let lvl: u32 = a.level_of(lit.var());
        if i == 0 || lvl >= backjump {
            backjump = lvl;
            max_idx = i;
        }
        clause.push(lit);
        assert(seq![asserting] + learnt@.take(i + 1) =~= (seq![asserting] + learnt@.take(
            i as int,
        )).push(lit));
        i += 1;
    }
    assert(learnt@.take(len as int) =~= learnt@);
    let ghost whole = clause@;
    assert(whole == seq![asserting] + learnt@);
    if len > 0 {
        clause.swap(1, max_idx + 1);
    }
    proof {
        crate::akx::literal::negation_laws(uip);
        let c = clause@;
        assert(len > 0 ==> c == state::swapped(whole, 1, max_idx + 1));
        assert(c[0] == asserting);
        assert forall|k: int| 1 <= k < c.len() implies {
            &&& a.val(#[trigger] c[k]) == Value::False
            &&& 1 <= a.lvl(c[k]) <= backjump
            &&& 1 <= c[k].var() <= n
        } by {
            let j = if k == 1 {
                max_idx as int
            } else if k == max_idx + 1 {
                0int
            } else {
                k - 1
            };
            assert(c[k] == learnt@[j]);
        }
        assert forall|i: int, j: int| 0 <= i < j < c.len() implies (#[trigger] c[i]).var() != (
        #[trigger] c[j]).var() by {
            if i == 0 {
                assert(a.lvl(c[j]) <= backjump);
                assert(a.lvl(c[0]) == a.trail_lim@.len());
            } else {
                let p = if i == 1 {
                    max_idx as int
                } else if i == max_idx + 1 {
                    0int
                } else {
                    i - 1
                };
                let q = if j == 1 {
                    max_idx as int
                } else if j == max_idx + 1 {
                    0int
                } else {
                    j - 1
                };
                assert(c[i] == learnt@[p] && c[j] == learnt@[q] && p != q);
            }
        }
        assert forall|val: logic::Valuation| #[trigger] logic::formula_holds(val, f.clauses) implies
            logic::clause_holds(val, c) by {
            if logic::lit_holds(val, uip) {
                let k = choose|k: int|
                    0 <= k < learnt@.len() && logic::lit_holds(val, #[trigger] learnt@[k]);
                assert(whole[k + 1] == learnt@[k]);
                state::swapped_contains(whole, 1, max_idx + 1, whole[k + 1]);
                assert(whole.contains(whole[k + 1]));
                let m = choose|m: int| 0 <= m < c.len() && c[m] == whole[k + 1];
                assert(logic::lit_holds(val, c[m]));
            } else {
                assert(logic::lit_holds(val, c[0]));
            }
        }
        assert forall|m: trace::World| #[trigger]
            trace::all_stable(m, trace::steps(f)) implies !trace::all_false(m, c) by {
            if trace::all_false(m, c) {
                assert(trace::is_false(m, c[0]));
                trace::negation_is_true(m, uip);
                assert forall|k: int| 0 <= k < learnt@.len() implies trace::is_false(
                    m,
                    #[trigger] learnt@[k],
                ) by {
                    assert(whole[k + 1] == learnt@[k]);
                    state::swapped_contains(whole, 1, max_idx + 1, whole[k + 1]);
                    assert(whole.contains(whole[k + 1]));
                    let j = choose|j: int| 0 <= j < c.len() && c[j] == whole[k + 1];
                    assert(trace::is_false(m, c[j]));
                }
            }
        }
    }
    proof {
        swap_arranges(uip, learnt@, clause@, max_idx + 1);
    }
    (clause, backjump)
}

/// Moving one of the collected literals to the second place.
proof fn swap_arranges(uip: Literal, learnt: Seq<Literal>, clause: Seq<Literal>, j: int)
    requires
        learnt.len() > 0 ==> 1 <= j <= learnt.len() && clause == state::swapped(
            seq![uip.negate()] + learnt,
            1,
            j,
        ),
        learnt.len() == 0 ==> clause == seq![uip.negate()] + learnt,
    ensures
        arranged(clause, uip, learnt),
{
    let whole = seq![uip.negate()] + learnt;
    if learnt.len() > 0 {
        assert forall|k: int| 1 <= k < clause.len() implies learnt.contains(
            #[trigger] clause[k],
        ) by {
            let i = if k == 1 {
                j - 1
            } else if k == j {
                0int
            } else {
                k - 1
            };
            assert(clause[k] == learnt[i]);
        }
        assert forall|k: int| 0 <= k < learnt.len() implies clause.contains(
            #[trigger] learnt[k],
        ) by {
            assert(whole[k + 1] == learnt[k]);
            let i = if k == 0 {
                j
            } else if k == j - 1 {
                1int
            } else {
                k + 1
            };
            assert(clause[i] == learnt[k]);
        }
    }
}

} // verus!
