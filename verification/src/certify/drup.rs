//! DRUP (Delete-Reverse Unit Propagation) proof verification.
//!
//! DRUP is the simplest format for UNSAT proofs from CDCL solvers. Each line
//! of the proof is a *clause addition* step; the proof is valid iff every
//! such clause can be verified by unit propagation to contradiction from the
//! existing clause database with all literals of the new clause negated. The
//! final step must be the empty clause `[]`.
//!
//! This verifier shares no code with the CDCL solver. It is an independent,
//! quadratic-time one.

use vstd::prelude::*;

use crate::certify::model::var_of;
#[allow(unused_imports)]
use crate::akx::logic;

verus! {

#[derive(Debug)]
pub enum DrupError {
    EmptyProof,
    NotRup { step: usize, clause: Vec<i32> },
    NoEmptyClause,
    OutOfRange { lit: i32, var: u32, num_vars: u32 },
}

/// A partial assignment of variables.
pub type Partial = Map<int, bool>;

/// The second assignment extends the first.
pub open spec fn part_of(small: Partial, large: Partial) -> bool {
    forall|v: int| #[trigger] small.contains_key(v) ==> large.contains_key(v) && small[v] == large[v]
}

/// The literal is assigned and true.
pub open spec fn lit_true(m: Partial, lit: i32) -> bool {
    m.contains_key(logic::dimacs_var(lit)) && m[logic::dimacs_var(lit)] == (lit > 0)
}

/// The literal is assigned and false.
pub open spec fn lit_false(m: Partial, lit: i32) -> bool {
    m.contains_key(logic::dimacs_var(lit)) && m[logic::dimacs_var(lit)] != (lit > 0)
}

/// Every literal of the clause is false.
pub open spec fn falsified(m: Partial, clause: Seq<i32>) -> bool {
    forall|k: int| 0 <= k < clause.len() ==> lit_false(m, #[trigger] clause[k])
}

/// The literal at position `k` is open and every other position is false.
pub open spec fn unit_at(m: Partial, clause: Seq<i32>, k: int) -> bool {
    &&& 0 <= k < clause.len()
    &&& !m.contains_key(logic::dimacs_var(clause[k]))
    &&& forall|j: int| 0 <= j < clause.len() && j != k ==> lit_false(m, #[trigger] clause[j])
}

/// Make a literal true.
pub open spec fn assign(m: Partial, lit: i32) -> Partial {
    m.insert(logic::dimacs_var(lit), lit > 0)
}

/// One unit propagation step with clause `c` at position `k`.
pub open spec fn propagates(db: Seq<Seq<i32>>, m: Partial, next: Partial, c: int, k: int) -> bool {
    &&& 0 <= c < db.len()
    &&& unit_at(m, db[c], k)
    &&& next == assign(m, db[c][k])
}

/// The assignment after position `i` of the chain comes from it by one step.
pub open spec fn step_at(db: Seq<Seq<i32>>, chain: Seq<Partial>, i: int) -> bool {
    exists|c: int, k: int| #[trigger] propagates(db, chain[i], chain[i + 1], c, k)
}

/// Consecutive assignments that unit propagation runs through.
pub open spec fn up_chain(db: Seq<Seq<i32>>, chain: Seq<Partial>) -> bool {
    &&& chain.len() > 0
    &&& forall|i: int| 0 <= i < chain.len() - 1 ==> #[trigger] step_at(db, chain, i)
}

/// A propagation chain from `m` that ends with a falsified clause.
pub open spec fn refuting_chain(db: Seq<Seq<i32>>, m: Partial, chain: Seq<Partial>) -> bool {
    &&& up_chain(db, chain)
    &&& chain[0] == m
    &&& exists|c: int| 0 <= c < db.len() && falsified(chain.last(), #[trigger] db[c])
}

/// Unit propagation from `m` reaches a falsified clause.
pub open spec fn refutes(db: Seq<Seq<i32>>, m: Partial) -> bool {
    exists|chain: Seq<Partial>| #[trigger] refuting_chain(db, m, chain)
}

/// The assignment that makes the given literals true, a later one prevailing
/// over an earlier one of the same variable.
pub open spec fn assume_all(lits: Seq<i32>) -> Partial
    decreases lits.len(),
{
    if lits.len() == 0 {
        Map::empty()
    } else {
        assign(assume_all(lits.drop_last()), lits.last())
    }
}

/// The literals of a clause, each negated.
pub open spec fn negated(clause: Seq<i32>) -> Seq<i32> {
    clause.map_values(|l: i32| (-l) as i32)
}

/// Step `s` of the proof follows by reverse unit propagation.
pub open spec fn rup(original: Seq<Seq<i32>>, steps: Seq<Seq<i32>>, s: int) -> bool {
    refutes(original + steps.take(s), assume_all(negated(steps[s])))
}

/// Every step before `s` is a non-empty clause that follows by reverse unit
/// propagation.
pub open spec fn rup_before(original: Seq<Seq<i32>>, steps: Seq<Seq<i32>>, s: int) -> bool {
    forall|t: int| 0 <= t < s ==> (#[trigger] steps[t]).len() > 0 && rup(original, steps, t)
}

/// The first `n` steps refute the original clauses.
pub open spec fn refutation(original: Seq<Seq<i32>>, steps: Seq<Seq<i32>>, n: int) -> bool {
    &&& 1 <= n <= steps.len()
    &&& steps[n - 1].len() == 0
    &&& rup_before(original, steps, n - 1)
    &&& rup(original, steps, n - 1)
}

/// Every literal refers to a declared variable.
pub open spec fn all_in_range(num_vars: u32, clauses: Seq<Seq<i32>>) -> bool {
    forall|i: int, j: int|
        0 <= i < clauses.len() && 0 <= j < clauses[i].len() ==> logic::dimacs_var(
            #[trigger] clauses[i][j],
        ) <= num_vars
}

/// Position `(i, j)` holds the first literal that is out of range.
pub open spec fn first_out_of_range(
    num_vars: u32,
    clauses: Seq<Seq<i32>>,
    i: int,
    j: int,
) -> bool {
    &&& 0 <= i < clauses.len()
    &&& 0 <= j < clauses[i].len()
    &&& logic::dimacs_var(clauses[i][j]) > num_vars
    &&& all_in_range(num_vars, clauses.take(i))
    &&& forall|k: int| 0 <= k < j ==> logic::dimacs_var(#[trigger] clauses[i][k]) <= num_vars
}

// ---------------------------------------------------------------------------
// Unit propagation
// ---------------------------------------------------------------------------

/// The table `asgn` holds the assignment `m`.
spec fn table_of(asgn: Seq<Option<bool>>, m: Partial) -> bool {
    forall|v: int|
        0 <= v < asgn.len() ==> {
            &&& #[trigger] asgn[v] is Some <==> m.contains_key(v)
            &&& asgn[v] is Some ==> asgn[v]->0 == m[v]
        }
}

/// Neither falsified nor unit.
pub open spec fn quiet(m: Partial, clause: Seq<i32>) -> bool {
    !falsified(m, clause) && forall|k: int| !(#[trigger] unit_at(m, clause, k))
}

/// What a clause looks like under an assignment.
enum Look {
    Falsified,
    Unit(i32),
    Quiet,
}

fn look_at(clause: &Vec<i32>, asgn: &Vec<Option<bool>>, Ghost(m): Ghost<Partial>) -> (l: Look)
    requires
        table_of(asgn@, m),
        forall|k: int|
            0 <= k < clause@.len() ==> logic::dimacs_var(#[trigger] clause@[k]) < asgn@.len(),
    ensures
        l is Falsified ==> falsified(m, clause@),
        l matches Look::Unit(lit) ==> exists|k: int|
            #[trigger] unit_at(m, clause@, k) && clause@[k] == lit,
        l is Quiet ==> quiet(m, clause@),
{
    let mut open: usize = 0;
    let mut open_lit: i32 = 0;
    let ghost mut open_at: int = 0;
    let mut i: usize = 0;
    while i < clause.len()
        invariant
            i <= clause@.len(),
            table_of(asgn@, m),
            forall|k: int|
                0 <= k < clause@.len() ==> logic::dimacs_var(#[trigger] clause@[k]) < asgn@.len(),
            open <= i,
            open == 0 ==> forall|k: int| 0 <= k < i ==> lit_false(m, #[trigger] clause@[k]),
            open == 1 ==> {
                &&& 0 <= open_at < i
                &&& clause@[open_at] == open_lit
                &&& !m.contains_key(logic::dimacs_var(open_lit))
                &&& forall|k: int|
                    0 <= k < i && k != open_at ==> lit_false(m, #[trigger] clause@[k])
            },
            open >= 2 ==> exists|p: int, q: int|
                0 <= p < q < i && !m.contains_key(logic::dimacs_var(#[trigger] clause@[p]))
                    && !m.contains_key(logic::dimacs_var(#[trigger] clause@[q])),
        decreases clause@.len() - i,
    {
        let lit: i32 = clause[i];
        assert(logic::dimacs_var(clause@[i as int]) < asgn@.len());
        let v: usize = var_of(lit) as usize;
        match asgn[v] {
            None => {
                proof {
                    if open == 1 {
                        assert(!m.contains_key(logic::dimacs_var(clause@[open_at])));
                        assert(!m.contains_key(logic::dimacs_var(clause@[i as int])));
                    }
                    open_at = i as int;
                }
                open_lit = lit;
                open += 1;
            },
            Some(val) => {
                if val == (lit > 0) {
                    assert(lit_true(m, clause@[i as int]));
                    assert forall|k: int| !(#[trigger] unit_at(m, clause@, k)) by {
                        if unit_at(m, clause@, k) && k != i {
                            assert(lit_false(m, clause@[i as int]));
                        }
                    }
                    return Look::Quiet;
                }
                assert(lit_false(m, clause@[i as int]));
            },
        }
        i += 1;
    }
    if open == 0 {
        Look::Falsified
    } else if open == 1 {
        assert(unit_at(m, clause@, open_at));
        Look::Unit(open_lit)
    } else {
        proof {
            let (p, q) = choose|p: int, q: int|
                0 <= p < q < i && !m.contains_key(logic::dimacs_var(#[trigger] clause@[p]))
                    && !m.contains_key(logic::dimacs_var(#[trigger] clause@[q]));
            assert(!lit_false(m, clause@[p]));
            assert forall|k: int| !(#[trigger] unit_at(m, clause@, k)) by {
                if unit_at(m, clause@, k) {
                    let other = if k == p {
                        q
                    } else {
                        p
                    };
                    assert(lit_false(m, clause@[other]));
                }
            }
        }
        Look::Quiet
    }
}

/// A chain can be prolonged by one propagation step.
proof fn chain_push(db: Seq<Seq<i32>>, chain: Seq<Partial>, next: Partial, c: int, k: int)
    requires
        up_chain(db, chain),
        propagates(db, chain.last(), next, c, k),
    ensures
        up_chain(db, chain.push(next)),
{
    let longer = chain.push(next);
    assert forall|i: int| 0 <= i < longer.len() - 1 implies #[trigger] step_at(db, longer, i) by {
        if i < chain.len() - 1 {
            assert(step_at(db, chain, i));
            let (c0, k0) = choose|c0: int, k0: int|
                #[trigger] propagates(db, chain[i], chain[i + 1], c0, k0);
            assert(propagates(db, longer[i], longer[i + 1], c0, k0));
        } else {
            assert(propagates(db, longer[i], longer[i + 1], c, k));
        }
    }
}

/// From an assignment under which every clause is quiet no chain leads to a
/// falsified clause, nor does one from any part of it.
proof fn quiet_is_final(db: Seq<Seq<i32>>, start: Partial, m: Partial, chain: Seq<Partial>)
    requires
        part_of(start, m),
        forall|c: int| 0 <= c < db.len() ==> quiet(m, #[trigger] db[c]),
        up_chain(db, chain),
        chain[0] == start,
    ensures
        part_of(chain.last(), m),
    decreases chain.len(),
{
    if chain.len() > 1 {
        let shorter = chain.drop_last();
        assert(up_chain(db, shorter)) by {
            assert forall|i: int| 0 <= i < shorter.len() - 1 implies #[trigger] step_at(
                db,
                shorter,
                i,
            ) by {
                assert(step_at(db, chain, i));
                let (c0, k0) = choose|c0: int, k0: int|
                    #[trigger] propagates(db, chain[i], chain[i + 1], c0, k0);
                assert(propagates(db, shorter[i], shorter[i + 1], c0, k0));
            }
        }
        quiet_is_final(db, start, m, shorter);
        let i = chain.len() - 2;
        let prev = chain[i];
        assert(prev == shorter.last());
        assert(chain[i + 1] == chain.last());
        assert(step_at(db, chain, i));
        let (c, k) = choose|c: int, k: int| #[trigger] propagates(db, prev, chain[i + 1], c, k);
        let clause = db[c];
        assert(quiet(m, clause));
        assert forall|j: int| 0 <= j < clause.len() && j != k implies lit_false(
            m,
            #[trigger] clause[j],
        ) by {
            assert(lit_false(prev, clause[j]));
        }
        let v = logic::dimacs_var(clause[k]);
        if !m.contains_key(v) {
            assert(unit_at(m, clause, k));
        } else if m[v] != (clause[k] > 0) {
            assert(falsified(m, clause));
        }
        let next = assign(prev, clause[k]);
        assert(chain.last() == next);
        assert forall|u: int| #[trigger] next.contains_key(u) implies m.contains_key(u) && next[u]
            == m[u] by {
            if u != v {
                assert(prev.contains_key(u));
            }
        }
    }
}

/// How many variables below `n` are not assigned.
pub open spec fn unassigned(m: Partial, n: nat) -> nat
    decreases n,
{
    if n == 0 {
        0
    } else {
        unassigned(m, (n - 1) as nat) + (if m.contains_key(n - 1) {
            0nat
        } else {
            1
        })
    }
}

proof fn unassigned_less(m: Partial, v: int, b: bool, n: nat)
    requires
        !m.contains_key(v),
        0 <= v,
    ensures
        unassigned(m.insert(v, b), n) == unassigned(m, n) - (if v < n {
            1int
        } else {
            0
        }),
    decreases n,
{
    if n > 0 {
        unassigned_less(m, v, b, (n - 1) as nat);
    }
}

/// Where unit propagation meets no falsified clause, it ends in an assignment
/// under which every clause is quiet.
pub proof fn propagation_ends(
    db: Seq<Seq<i32>>,
    num_vars: u32,
    start: Partial,
    chain: Seq<Partial>,
) -> (rest: Partial)
    requires
        all_in_range(num_vars, db),
        up_chain(db, chain),
        chain[0] == start,
        !refutes(db, start),
    ensures
        part_of(chain.last(), rest),
        forall|c: int| 0 <= c < db.len() ==> quiet(rest, #[trigger] db[c]),
    decreases unassigned(chain.last(), (num_vars + 1) as nat),
{
    let m = chain.last();
    if forall|c: int| 0 <= c < db.len() ==> quiet(m, #[trigger] db[c]) {
        m
    } else {
        let c = choose|c: int| 0 <= c < db.len() && !quiet(m, #[trigger] db[c]);
        if falsified(m, db[c]) {
            assert(refuting_chain(db, start, chain));
        }
        let k = choose|k: int| #[trigger] unit_at(m, db[c], k);
        let lit = db[c][k];
        let next = assign(m, lit);
        assert(propagates(db, m, next, c, k));
        chain_push(db, chain, next, c, k);
        unassigned_less(m, logic::dimacs_var(lit), lit > 0, (num_vars + 1) as nat);
        let rest = propagation_ends(db, num_vars, start, chain.push(next));
        assert(chain.push(next).last() == next);
        assert forall|v: int| #[trigger] m.contains_key(v) implies rest.contains_key(v) && m[v]
            == rest[v] by {
            assert(next.contains_key(v) && next[v] == m[v]);
        }
        rest
    }
}

/// Run unit propagation starting from `unit_lits` (already-negated literals
/// from the clause under test) against `db`. Returns `true` iff it reaches a
/// contradiction (some clause is fully falsified).
pub fn up_derives_empty(db: &[Vec<i32>], unit_lits: &[i32]) -> (r: bool)
    ensures
        r == refutes(logic::clause_views(db@), assume_all(unit_lits@)),
{
    let ghost all = logic::clause_views(db@);
    let ghost start = assume_all(unit_lits@);
    // The largest variable.
    let mut max_var: usize = 0;
    let mut i: usize = 0;
    while i < db.len()
        invariant
            i <= db@.len(),
            max_var <= 0x8000_0000,
            forall|p: int, q: int|
                0 <= p < i && 0 <= q < db@[p]@.len() ==> logic::dimacs_var(
                    #[trigger] db@[p]@[q],
                ) <= max_var,
        decreases db@.len() - i,
    {
        let clause: &Vec<i32> = &db[i];
        let mut j: usize = 0;
        while j < clause.len()
            invariant
                i < db@.len(),
                clause@ == db@[i as int]@,
                j <= clause@.len(),
                max_var <= 0x8000_0000,
                forall|p: int, q: int|
                    0 <= p < i && 0 <= q < db@[p]@.len() ==> logic::dimacs_var(
                        #[trigger] db@[p]@[q],
                    ) <= max_var,
                forall|q: int|
                    0 <= q < j ==> logic::dimacs_var(#[trigger] db@[i as int]@[q]) <= max_var,
            decreases clause@.len() - j,
        {
            let v: usize = var_of(clause[j]) as usize;
            if v > max_var {
                max_var = v;
            }
            j += 1;
        }
        i += 1;
    }
    i = 0;
    while i < unit_lits.len()
        invariant
            i <= unit_lits@.len(),
            max_var <= 0x8000_0000,
            forall|p: int, q: int|
                0 <= p < db@.len() && 0 <= q < db@[p]@.len() ==> logic::dimacs_var(
                    #[trigger] db@[p]@[q],
                ) <= max_var,
            forall|q: int|
                0 <= q < i ==> logic::dimacs_var(#[trigger] unit_lits@[q]) <= max_var,
        decreases unit_lits@.len() - i,
    {
        let v: usize = var_of(unit_lits[i]) as usize;
        if v > max_var {
            max_var = v;
        }
        i += 1;
    }
    let mut asgn: Vec<Option<bool>> = vec![None; max_var + 1];
    i = 0;
    assert(unit_lits@.take(0) =~= Seq::<i32>::empty());
    while i < unit_lits.len()
        invariant
            i <= unit_lits@.len(),
            asgn@.len() == max_var + 1,
            forall|q: int|
                0 <= q < unit_lits@.len() ==> logic::dimacs_var(#[trigger] unit_lits@[q])
                    <= max_var,
            table_of(asgn@, assume_all(unit_lits@.take(i as int))),
        decreases unit_lits@.len() - i,
    {
        let lit: i32 = unit_lits[i];
        let v: usize = var_of(lit) as usize;
        assert(logic::dimacs_var(unit_lits@[i as int]) <= max_var);
        asgn[v] = Some(lit > 0);
        assert(unit_lits@.take(i + 1).drop_last() =~= unit_lits@.take(i as int));
        i += 1;
    }
    assert(unit_lits@.take(unit_lits@.len() as int) =~= unit_lits@);
    let ghost mut chain: Seq<Partial> = seq![start];
    let mut changed: bool = true;
    let mut opened: usize = max_var + 1;
    proof {
        assert(up_chain(all, chain));
        open_bound(asgn@);
    }
    while changed
        invariant
            all == logic::clause_views(db@),
            asgn@.len() == max_var + 1,
            forall|p: int, q: int|
                0 <= p < db@.len() && 0 <= q < db@[p]@.len() ==> logic::dimacs_var(
                    #[trigger] db@[p]@[q],
                ) <= max_var,
            up_chain(all, chain),
            chain[0] == start,
            part_of(start, chain.last()),
            table_of(asgn@, chain.last()),
            open_slots(asgn@) <= opened,
            start == assume_all(unit_lits@),
            !changed ==> forall|c: int| 0 <= c < all.len() ==> quiet(chain.last(), #[trigger] all[c]),
        decreases open_slots(asgn@), (if changed { 1int } else { 0 }),
    {
        let ghost slots0 = open_slots(asgn@);
        changed = false;
        let mut c: usize = 0;
        while c < db.len()
            invariant
                c <= db@.len(),
                all == logic::clause_views(db@),
                asgn@.len() == max_var + 1,
                forall|p: int, q: int|
                    0 <= p < db@.len() && 0 <= q < db@[p]@.len() ==> logic::dimacs_var(
                        #[trigger] db@[p]@[q],
                    ) <= max_var,
                up_chain(all, chain),
                chain[0] == start,
                part_of(start, chain.last()),
                table_of(asgn@, chain.last()),
                start == assume_all(unit_lits@),
                open_slots(asgn@) <= slots0,
                changed ==> open_slots(asgn@) < slots0,
                !changed ==> forall|k: int| 0 <= k < c ==> quiet(chain.last(), #[trigger] all[k]),
            decreases db@.len() - c,
        {
            let clause: &Vec<i32> = &db[c];
            assert(all[c as int] == clause@);
            assert forall|k: int| 0 <= k < clause@.len() implies logic::dimacs_var(
                #[trigger] clause@[k],
            ) < asgn@.len() by {
                assert(logic::dimacs_var(db@[c as int]@[k]) <= max_var);
            }
            match look_at(clause, &asgn, Ghost(chain.last())) {
                Look::Falsified => {
                    assert(refuting_chain(all, start, chain));
                    return true;
                },
                Look::Unit(lit) => {
                    let ghost m = chain.last();
                    let ghost k = choose|k: int|
                        #[trigger] unit_at(m, clause@, k) && clause@[k] == lit;
                    let ghost before = asgn@;
                    let v: usize = var_of(lit) as usize;
                    asgn[v] = Some(lit > 0);
                    changed = true;
                    proof {
                        assert(propagates(all, m, assign(m, lit), c as int, k));
                        chain_push(all, chain, assign(m, lit), c as int, k);
                        chain = chain.push(assign(m, lit));
                        close_slot(before, v as int, lit > 0);
                        assert(part_of(start, chain.last()));
                    }
                },
                Look::Quiet => {},
            }
            c += 1;
        }
    }
    proof {
        let m = chain.last();
        if refutes(all, start) {
            let other = choose|other: Seq<Partial>| #[trigger] refuting_chain(all, start, other);
            quiet_is_final(all, start, m, other);
            let c = choose|c: int| 0 <= c < all.len() && falsified(other.last(), #[trigger] all[c]);
            assert(falsified(m, all[c])) by {
                assert forall|k: int| 0 <= k < all[c].len() implies lit_false(
                    m,
                    #[trigger] all[c][k],
                ) by {
                    assert(lit_false(other.last(), all[c][k]));
                }
            }
            assert(quiet(m, all[c]));
        }
    }
    false
}

/// How many variables are not assigned.
spec fn open_slots(asgn: Seq<Option<bool>>) -> nat
    decreases asgn.len(),
{
    if asgn.len() == 0 {
        0
    } else {
        open_slots(asgn.drop_last()) + (if asgn.last() is None { 1nat } else { 0 })
    }
}

proof fn open_bound(asgn: Seq<Option<bool>>)
    ensures
        open_slots(asgn) <= asgn.len(),
    decreases asgn.len(),
{
    if asgn.len() > 0 {
        open_bound(asgn.drop_last());
    }
}

proof fn close_slot(asgn: Seq<Option<bool>>, v: int, b: bool)
    requires
        0 <= v < asgn.len(),
        asgn[v] is None,
    ensures
        open_slots(asgn.update(v, Some(b))) == open_slots(asgn) - 1,
    decreases asgn.len(),
{
    let after = asgn.update(v, Some(b));
    if v == asgn.len() - 1 {
        assert(after.drop_last() =~= asgn.drop_last());
    } else {
        assert(after.drop_last() =~= asgn.drop_last().update(v, Some(b)));
        close_slot(asgn.drop_last(), v, b);
    }
}

// ---------------------------------------------------------------------------
// Verification of whole proofs
// ---------------------------------------------------------------------------

/// Find the first literal that is out of range.
fn range_error(num_vars: u32, clauses: &[Vec<i32>]) -> (r: Option<i32>)
    ensures
        r is None <==> all_in_range(num_vars, logic::clause_views(clauses@)),
        r matches Some(lit) ==> exists|i: int, j: int|
            #[trigger] first_out_of_range(num_vars, logic::clause_views(clauses@), i, j)
                && clauses@[i]@[j] == lit,
{
    let ghost all = logic::clause_views(clauses@);
    let mut i: usize = 0;
    while i < clauses.len()
        invariant
            i <= clauses@.len(),
            all == logic::clause_views(clauses@),
            all_in_range(num_vars, all.take(i as int)),
        decreases clauses@.len() - i,
    {
        let clause: &Vec<i32> = &clauses[i];
        assert(all[i as int] == clause@);
        let mut j: usize = 0;
        while j < clause.len()
            invariant
                i < clauses@.len(),
                all == logic::clause_views(clauses@),
                clause@ == all[i as int],
                clause@ == clauses@[i as int]@,
                j <= clause@.len(),
                all_in_range(num_vars, all.take(i as int)),
                forall|k: int|
                    0 <= k < j ==> logic::dimacs_var(#[trigger] all[i as int][k]) <= num_vars,
            decreases clause@.len() - j,
        {
            if var_of(clause[j]) > num_vars {
                assert(first_out_of_range(num_vars, all, i as int, j as int));
                assert(logic::dimacs_var(all[i as int][j as int]) > num_vars);
                return Some(clause[j]);
            }
            j += 1;
        }
        assert forall|p: int, q: int|
            0 <= p < i + 1 && 0 <= q < all.take(i + 1)[p].len() implies logic::dimacs_var(
            #[trigger] all.take(i + 1)[p][q],
        ) <= num_vars by {
            if p < i {
                assert(all.take(i as int)[p][q] == all[p][q]);
            }
        }
        i += 1;
    }
    assert(all.take(all.len() as int) =~= all);
    None
}

/// A valuation agrees with a partial assignment.
spec fn agrees(val: logic::Valuation, m: Partial) -> bool {
    forall|v: int| #[trigger] m.contains_key(v) ==> 0 <= v <= u32::MAX && val(v as u32) == m[v]
}

/// Unit propagation keeps agreement with any valuation that satisfies the
/// clauses.
proof fn chain_agrees(
    db: Seq<Seq<i32>>,
    chain: Seq<Partial>,
    val: logic::Valuation,
)
    requires
        up_chain(db, chain),
        agrees(val, chain[0]),
        logic::dimacs_formula_holds(val, db),
    ensures
        agrees(val, chain.last()),
    decreases chain.len(),
{
    if chain.len() > 1 {
        let shorter = chain.drop_last();
        assert forall|i: int| 0 <= i < shorter.len() - 1 implies #[trigger] step_at(
            db,
            shorter,
            i,
        ) by {
            assert(step_at(db, chain, i));
            let (c0, k0) = choose|c0: int, k0: int|
                #[trigger] propagates(db, chain[i], chain[i + 1], c0, k0);
            assert(propagates(db, shorter[i], shorter[i + 1], c0, k0));
        }
        chain_agrees(db, shorter, val);
        let i = chain.len() - 2;
        let prev = chain[i];
        assert(prev == shorter.last());
        assert(step_at(db, chain, i));
        let (c, k) = choose|c: int, k: int| #[trigger] propagates(db, prev, chain[i + 1], c, k);
        assert(logic::dimacs_clause_holds(val, db[c]));
        let j = choose|j: int| 0 <= j < db[c].len() && logic::dimacs_holds(val, #[trigger] db[c][j]);
        if j != k {
            assert(lit_false(prev, db[c][j]));
        }
    }
}

/// If propagation from an assignment refutes the clauses, no valuation that
/// satisfies them agrees with it.
proof fn refutes_sound(db: Seq<Seq<i32>>, m: Partial, val: logic::Valuation)
    requires
        refutes(db, m),
        logic::dimacs_formula_holds(val, db),
    ensures
        !agrees(val, m),
{
    let chain = choose|chain: Seq<Partial>| #[trigger] refuting_chain(db, m, chain);
    if agrees(val, m) {
        chain_agrees(db, chain, val);
        let c = choose|c: int| 0 <= c < db.len() && falsified(chain.last(), #[trigger] db[c]);
        assert(logic::dimacs_clause_holds(val, db[c]));
        let j = choose|j: int| 0 <= j < db[c].len() && logic::dimacs_holds(val, #[trigger] db[c][j]);
        assert(lit_false(chain.last(), db[c][j]));
    }
}

/// A valuation that makes every literal true agrees with assuming them.
proof fn assume_agrees(lits: Seq<i32>, val: logic::Valuation)
    requires
        forall|i: int| 0 <= i < lits.len() ==> logic::dimacs_holds(val, #[trigger] lits[i]),
    ensures
        agrees(val, assume_all(lits)),
    decreases lits.len(),
{
    if lits.len() > 0 {
        assert forall|i: int| 0 <= i < lits.drop_last().len() implies logic::dimacs_holds(
            val,
            #[trigger] lits.drop_last()[i],
        ) by {
            assert(lits[i] == lits.drop_last()[i]);
        }
        assume_agrees(lits.drop_last(), val);
        assert(logic::dimacs_holds(val, lits[lits.len() - 1]));
        let m = assume_all(lits.drop_last());
        assert forall|v: int| #[trigger] assign(m, lits.last()).contains_key(v) implies 0 <= v
            <= u32::MAX && val(v as u32) == assign(m, lits.last())[v] by {
            if v != logic::dimacs_var(lits.last()) {
                assert(m.contains_key(v));
            }
        }
    }
}

/// A clause that follows by reverse unit propagation holds wherever the
/// database holds and variable 0 is false.
proof fn rup_clause_holds(db: Seq<Seq<i32>>, clause: Seq<i32>, val: logic::Valuation)
    requires
        refutes(db, assume_all(negated(clause))),
        logic::dimacs_formula_holds(val, db),
        !val(0),
        forall|i: int| 0 <= i < clause.len() ==> #[trigger] clause[i] != i32::MIN,
    ensures
        logic::dimacs_clause_holds(val, clause),
{
    if !logic::dimacs_clause_holds(val, clause) {
        let neg = negated(clause);
        assert forall|i: int| 0 <= i < neg.len() implies logic::dimacs_holds(
            val,
            #[trigger] neg[i],
        ) by {
            assert(!logic::dimacs_holds(val, clause[i]));
            assert(neg[i] == (-clause[i]) as i32);
        }
        assume_agrees(neg, val);
        refutes_sound(db, assume_all(neg), val);
    }
}

/// Turning variable 0 false keeps a formula satisfied: no literal asks for it
/// to be true.
proof fn clear_zero(clauses: Seq<Seq<i32>>, val: logic::Valuation) -> (cleared: logic::Valuation)
    requires
        logic::dimacs_formula_holds(val, clauses),
    ensures
        logic::dimacs_formula_holds(cleared, clauses),
        !cleared(0),
{
    let cleared = |v: u32| v != 0 && val(v);
    assert forall|i: int| 0 <= i < clauses.len() implies logic::dimacs_clause_holds(
        cleared,
        #[trigger] clauses[i],
    ) by {
        assert(logic::dimacs_clause_holds(val, clauses[i]));
        let j = choose|j: int|
            0 <= j < clauses[i].len() && logic::dimacs_holds(val, #[trigger] clauses[i][j]);
        assert(logic::dimacs_holds(cleared, clauses[i][j]));
    }
    cleared
}

/// Every clause of an accepted proof prefix holds wherever the original
/// clauses hold and variable 0 is false.
proof fn prefix_holds(
    original: Seq<Seq<i32>>,
    steps: Seq<Seq<i32>>,
    s: int,
    val: logic::Valuation,
)
    requires
        0 <= s <= steps.len(),
        rup_before(original, steps, s),
        no_min(steps),
        logic::dimacs_formula_holds(val, original),
        !val(0),
    ensures
        logic::dimacs_formula_holds(val, original + steps.take(s)),
    decreases s,
{
    if s > 0 {
        assert(rup_before(original, steps, s - 1));
        prefix_holds(original, steps, s - 1, val);
        assert(steps[s - 1].len() > 0 && rup(original, steps, s - 1));
        assert forall|i: int| 0 <= i < steps[s - 1].len() implies #[trigger] steps[s - 1][i]
            != i32::MIN by {}
        rup_clause_holds(original + steps.take(s - 1), steps[s - 1], val);
        let db = original + steps.take(s);
        let shorter = original + steps.take(s - 1);
        assert forall|i: int| 0 <= i < db.len() implies logic::dimacs_clause_holds(
            val,
            #[trigger] db[i],
        ) by {
            if i < db.len() - 1 {
                assert(db[i] == shorter[i]);
            } else {
                assert(db[i] == steps[s - 1]);
            }
        }
    } else {
        assert(original + steps.take(0) =~= original);
    }
}

/// No literal lacks a negation.
pub open spec fn no_min(steps: Seq<Seq<i32>>) -> bool {
    forall|i: int, j: int|
        0 <= i < steps.len() && 0 <= j < steps[i].len() ==> #[trigger] steps[i][j] != i32::MIN
}

/// An accepted proof refutes: no valuation satisfies the original clauses.
pub proof fn refutation_sound(original: Seq<Seq<i32>>, steps: Seq<Seq<i32>>, n: int)
    requires
        refutation(original, steps, n),
        no_min(steps),
    ensures
        logic::dimacs_unsatisfiable(original),
{
    assert forall|val: logic::Valuation| !(#[trigger] logic::dimacs_formula_holds(
        val,
        original,
    )) by {
        if logic::dimacs_formula_holds(val, original) {
            let cleared = clear_zero(original, val);
            prefix_holds(original, steps, n - 1, cleared);
            rup_clause_holds(original + steps.take(n - 1), steps[n - 1], cleared);
        }
    }
}

/// What `verify_drup` returns.
pub open spec fn drup_result(
    num_vars: u32,
    original: Seq<Seq<i32>>,
    steps: Seq<Seq<i32>>,
    r: Result<usize, DrupError>,
) -> bool {
    let all = original + steps;
    if steps.len() == 0 {
        r matches Err(DrupError::EmptyProof)
    } else if steps.last().len() > 0 {
        r matches Err(DrupError::NoEmptyClause)
    } else if !all_in_range(num_vars, all) {
        r matches Err(DrupError::OutOfRange { lit, var, num_vars: n }) && {
            &&& n == num_vars
            &&& var == logic::dimacs_var(lit)
            &&& exists|i: int, j: int| #[trigger]
                first_out_of_range(num_vars, all, i, j) && all[i][j] == lit
        }
    } else {
        match r {
            Ok(n) => refutation(original, steps, n as int),
            Err(DrupError::NotRup { step, clause }) => {
                &&& step < steps.len()
                &&& rup_before(original, steps, step as int)
                &&& !rup(original, steps, step as int)
                &&& clause@ == steps[step as int]
            },
            _ => false,
        }
    }
}

/// Verify a DRUP proof.
///
/// * `num_vars`: number of variables declared in the problem.
/// * `original`: the original clause set (DIMACS integer format).
/// * `steps`: the DRUP proof steps. Each step is a clause; the last must be
///   the empty clause `[]`.
///
/// Returns `Ok(steps_verified)` on success, `Err` on any violation.
pub fn verify_drup(num_vars: u32, original: &[Vec<i32>], steps: &[Vec<i32>]) -> (r: Result<
    usize,
    DrupError,
>)
    requires
        num_vars <= i32::MAX || no_min(logic::clause_views(steps@)),
    ensures
        drup_result(
            num_vars,
            logic::clause_views(original@),
            logic::clause_views(steps@),
            r,
        ),
        r is Ok ==> logic::dimacs_unsatisfiable(logic::clause_views(original@)),
{
    let ghost orig = logic::clause_views(original@);
    let ghost st = logic::clause_views(steps@);
    let ghost all = orig + st;
    if steps.len() == 0 {
        return Err(DrupError::EmptyProof);
    }
    assert(st.last() == steps@[steps@.len() - 1]@);
    if steps[steps.len() - 1].len() > 0 {
        return Err(DrupError::NoEmptyClause);
    }
    match range_error(num_vars, original) {
        Some(lit) => {
            proof {
                let (i, j) = choose|i: int, j: int|
                    #[trigger] first_out_of_range(num_vars, orig, i, j) && original@[i]@[j]
                        == lit;
                assert(orig[i] == original@[i]@);
                assert(all[i] == orig[i]);
                assert(all.take(i) =~= orig.take(i));
                assert(first_out_of_range(num_vars, all, i, j));
                assert(logic::dimacs_var(all[i][j]) > num_vars);
            }
            return Err(DrupError::OutOfRange { lit, var: var_of(lit), num_vars });
        },
        None => {},
    }
    match range_error(num_vars, steps) {
        Some(lit) => {
            proof {
                let (i, j) = choose|i: int, j: int|
                    #[trigger] first_out_of_range(num_vars, st, i, j) && steps@[i]@[j] == lit;
                let p = orig.len() + i;
                assert(st[i] == steps@[i]@);
                assert(all[p] == st[i]);
                assert forall|a: int, b: int|
                    0 <= a < all.take(p).len() && 0 <= b < all.take(p)[a].len() implies
                    logic::dimacs_var(#[trigger] all.take(p)[a][b]) <= num_vars by {
                    if a < orig.len() {
                        assert(all.take(p)[a][b] == orig[a][b]);
                    } else {
                        assert(all.take(p)[a][b] == st.take(i)[a - orig.len()][b]);
                    }
                }
                assert forall|k: int| 0 <= k < j implies logic::dimacs_var(#[trigger] all[p][k])
                    <= num_vars by {
                    assert(logic::dimacs_var(st[i][k]) <= num_vars);
                }
                assert(first_out_of_range(num_vars, all, p, j));
                assert(logic::dimacs_var(all[p][j]) > num_vars);
            }
            return Err(DrupError::OutOfRange { lit, var: var_of(lit), num_vars });
        },
        None => {},
    }
    proof {
        assert(all_in_range(num_vars, all)) by {
            assert forall|a: int, b: int|
                0 <= a < all.len() && 0 <= b < all[a].len() implies logic::dimacs_var(
                #[trigger] all[a][b],
            ) <= num_vars by {
                if a < orig.len() {
                    assert(all[a][b] == orig[a][b]);
                } else {
                    assert(all[a][b] == st[a - orig.len()][b]);
                }
            }
        }
        assert(no_min(st)) by {
            assert forall|i: int, j: int|
                0 <= i < st.len() && 0 <= j < st[i].len() implies #[trigger] st[i][j]
                != i32::MIN by {
                assert(logic::dimacs_var(st[i][j]) <= num_vars);
            }
        }
    }
    let mut db: Vec<Vec<i32>> = clone_clauses(original);
    let mut s: usize = 0;
    assert(st.take(0) =~= Seq::<Seq<i32>>::empty());
    assert(orig + st.take(0) =~= orig);
    while s < steps.len()
        invariant
            s <= steps@.len(),
            orig == logic::clause_views(original@),
            st == logic::clause_views(steps@),
            all == orig + st,
            st.len() > 0,
            st.last().len() == 0,
            no_min(st),
            all_in_range(num_vars, all),
            logic::clause_views(db@) == orig + st.take(s as int),
            rup_before(orig, st, s as int),
        decreases steps@.len() - s,
    {
        let clause: &Vec<i32> = &steps[s];
        assert(st[s as int] == clause@);
        let neg: Vec<i32> = negate_all(clause, Ghost(st), Ghost(s as int));
        let holds: bool = up_derives_empty(db.as_slice(), neg.as_slice());
        if !holds {
            return Err(DrupError::NotRup { step: s, clause: clone_clause(clause) });
        }
        if clause.len() == 0 {
            proof {
                assert(refutation(orig, st, s + 1));
                refutation_sound(orig, st, s + 1);
            }
            return Ok(s + 1);
        }
        let ghost before = db@;
        db.push(clone_clause(clause));
        proof {
            assert(st.take(s + 1) =~= st.take(s as int).push(st[s as int]));
            assert(db@ == before.push(db@.last()));
            assert(logic::clause_views(db@) =~= logic::clause_views(before).push(clause@));
            assert((orig + st.take(s as int)).push(st[s as int]) =~= orig + st.take(s + 1));
        }
        s += 1;
    }
    proof {
        assert(st[st.len() - 1].len() > 0);
    }
    Err(DrupError::NoEmptyClause)
}

fn clone_clause(clause: &Vec<i32>) -> (r: Vec<i32>)
    ensures
        r@ == clause@,
{
    vstd::slice::slice_to_vec(clause.as_slice())
}

fn clone_clauses(clauses: &[Vec<i32>]) -> (r: Vec<Vec<i32>>)
    ensures
        logic::clause_views(r@) == logic::clause_views(clauses@),
{
    let mut r: Vec<Vec<i32>> = Vec::new();
    let mut i: usize = 0;
    while i < clauses.len()
        invariant
            i <= clauses@.len(),
            r@.len() == i,
            forall|k: int| 0 <= k < i ==> (#[trigger] r@[k])@ == clauses@[k]@,
        decreases clauses@.len() - i,
    {
        r.push(clone_clause(&clauses[i]));
        i += 1;
    }
    assert(logic::clause_views(r@) =~= logic::clause_views(clauses@));
    r
}

/// The literals of a clause, each negated.
fn negate_all(clause: &Vec<i32>, Ghost(st): Ghost<Seq<Seq<i32>>>, Ghost(s): Ghost<int>) -> (r: Vec<
    i32,
>)
    requires
        no_min(st),
        0 <= s < st.len(),
        st[s] == clause@,
    ensures
        r@ == negated(clause@),
{
    let mut r: Vec<i32> = Vec::new();
    let mut i: usize = 0;
    while i < clause.len()
        invariant
            i <= clause@.len(),
            no_min(st),
            0 <= s < st.len(),
            st[s] == clause@,
            r@.len() == i,
            forall|k: int| 0 <= k < i ==> #[trigger] r@[k] == (-clause@[k]) as i32,
        decreases clause@.len() - i,
    {
        assert(st[s][i as int] != i32::MIN);
        r.push(-clause[i]);
        i += 1;
    }
    assert(r@ =~= negated(clause@));
    r
}

} // verus!
