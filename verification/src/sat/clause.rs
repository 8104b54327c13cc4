use vstd::prelude::*;

use crate::akx::litvec::LitVec;
use crate::sat::watched::WatchList;
#[allow(unused_imports)]
use crate::akx::literal::Literal;
#[allow(unused_imports)]
use crate::sat::watched;

verus! {

/// A clause in the database.
#[derive(Clone, Debug)]
pub struct Clause {
    pub lits: LitVec,
    pub lbd: u32,
    pub learnt: bool,
    /// True if lits[0] is currently the reason for a propagation.
    pub locked: bool,
}

impl Clause {
    pub fn new(lits: LitVec, learnt: bool) -> (c: Self)
        ensures
            c.lits == lits,
            c.learnt == learnt,
            c.lbd == 0,
            !c.locked,
    {
        Clause { lits, lbd: 0, learnt, locked: false }
    }

    pub fn len(&self) -> (n: usize)
        ensures
            n == self.lits@.len(),
    {
        self.lits.len()
    }

    pub fn is_empty(&self) -> (b: bool)
        ensures
            b == (self.lits@.len() == 0),
    {
        self.lits.is_empty()
    }
}

/// Index into the clause database.
#[derive(Clone, Copy, PartialEq, Eq, Hash, Debug, Structural)]
pub struct ClauseRef(pub u32);

/// The references from here on stand for no clause.
pub const FIRST_SENTINEL: u32 = 0xFFFF_FFFE;

impl ClauseRef {
    /// Raw antecedent of a decision literal.
    pub const DECISION: u32 = 0xFFFF_FFFF;

    /// Raw sentinel used for a conflict from a queued unit literal with no clause.
    pub const UNIT_CONFLICT: u32 = 0xFFFF_FFFE;

    pub fn is_decision(self) -> (b: bool)
        ensures
            b == (self.0 == u32::MAX),
    {
        self.0 == u32::MAX
    }

    /// True for any sentinel value (DECISION or UNIT_CONFLICT).
    pub fn is_sentinel(self) -> (b: bool)
        ensures
            b == (self.0 >= FIRST_SENTINEL),
    {
        self.0 >= u32::MAX - 1
    }
}

/// How many of the stored clauses are learned ones.
pub open spec fn learnt_total(clauses: Seq<Option<Clause>>) -> nat
    decreases clauses.len(),
{
    if clauses.len() == 0 {
        0
    } else {
        learnt_total(clauses.drop_last()) + (if is_learnt(clauses.last()) { 1nat } else { 0 })
    }
}

pub open spec fn is_learnt(slot: Option<Clause>) -> bool {
    slot is Some && slot->0.learnt
}

pub proof fn learnt_total_push(clauses: Seq<Option<Clause>>, slot: Option<Clause>)
    ensures
        learnt_total(clauses.push(slot)) == learnt_total(clauses) + (if is_learnt(slot) {
            1nat
        } else {
            0
        }),
{
    assert(clauses.push(slot).drop_last() =~= clauses);
}

pub proof fn learnt_total_update(clauses: Seq<Option<Clause>>, i: int, slot: Option<Clause>)
    requires
        0 <= i < clauses.len(),
    ensures
        learnt_total(clauses.update(i, slot)) == learnt_total(clauses) - (if is_learnt(
            clauses[i],
        ) {
            1int
        } else {
            0
        }) + (if is_learnt(slot) { 1int } else { 0 }),
        learnt_total(clauses) >= (if is_learnt(clauses[i]) { 1int } else { 0 }),
    decreases clauses.len(),
{
    if i == clauses.len() - 1 {
        assert(clauses.update(i, slot).drop_last() =~= clauses.drop_last());
    } else {
        assert(clauses.update(i, slot).drop_last() =~= clauses.drop_last().update(i, slot));
        learnt_total_update(clauses.drop_last(), i, slot);
    }
}

pub proof fn learnt_total_bound(clauses: Seq<Option<Clause>>)
    ensures
        learnt_total(clauses) <= clauses.len(),
    decreases clauses.len(),
{
    if clauses.len() > 0 {
        learnt_total_bound(clauses.drop_last());
    }
}

/// Storage for all clauses (problem + learned).
pub struct ClauseDb {
    pub clauses: Vec<Option<Clause>>,
    pub learnt_count: usize,
    pub has_empty: bool,
}

impl ClauseDb {
    /// The learned-clause counter is right and every reference is a real one.
    pub open spec fn well_formed(&self) -> bool {
        &&& self.learnt_count == learnt_total(self.clauses@)
        &&& self.clauses@.len() <= FIRST_SENTINEL
    }

    /// Whether a reference stands for a clause that was not deleted.
    pub open spec fn live(&self, r: int) -> bool {
        0 <= r < self.clauses@.len() && self.clauses@[r] is Some
    }

    /// The literals of a stored clause.
    pub open spec fn lits(&self, r: int) -> Seq<Literal> {
        self.clauses@[r]->0.lits@
    }

    pub fn new() -> (db: Self)
        ensures
            db.well_formed(),
            db.clauses@.len() == 0,
            db.learnt_count == 0,
            !db.has_empty,
    {
        ClauseDb { clauses: Vec::new(), learnt_count: 0, has_empty: false }
    }

    /// Store a clause under the next reference.
    pub fn add(&mut self, clause: Clause) -> (r: ClauseRef)
        requires
            old(self).well_formed(),
            old(self).clauses@.len() < FIRST_SENTINEL,
        ensures
            final(self).well_formed(),
            r.0 == old(self).clauses@.len(),
            final(self).clauses@ == old(self).clauses@.push(Some(clause)),
            final(self).has_empty == old(self).has_empty,
    {
        proof {
            learnt_total_push(self.clauses@, Some(clause));
            learnt_total_bound(self.clauses@);
        }
        if clause.learnt {
            self.learnt_count += 1;
        }
        let id: ClauseRef = ClauseRef(self.clauses.len() as u32);
        self.clauses.push(Some(clause));
        id
    }

    pub fn get(&self, r: ClauseRef) -> (c: &Clause)
        requires
            self.live(r.0 as int),
        ensures
            *c == self.clauses@[r.0 as int]->0,
    {
        self.clauses[r.0 as usize].as_ref().unwrap()
    }

    pub fn get_mut(&mut self, r: ClauseRef) -> (c: &mut Clause)
        requires
            old(self).live(r.0 as int),
        ensures
            *c == old(self).clauses@[r.0 as int]->0,
            final(self).clauses@ == old(self).clauses@.update(r.0 as int, Some(*final(c))),
            final(self).learnt_count == old(self).learnt_count,
            final(self).has_empty == old(self).has_empty,
    {
        let i: usize = r.0 as usize;
        match &mut self.clauses[i] {
            Some(c) => c,
            None => vstd::pervasive::unreached(),
        }
    }

    pub fn get_ref(&self, idx: usize) -> (c: Option<&Clause>)
        ensures
            c is Some <==> self.live(idx as int),
            c is Some ==> *c->0 == self.clauses@[idx as int]->0,
    {
        if idx < self.clauses.len() {
            self.clauses[idx].as_ref()
        } else {
            None
        }
    }

    pub fn set_empty_clause(&mut self)
        ensures
            final(self).has_empty,
            final(self).clauses == old(self).clauses,
            final(self).learnt_count == old(self).learnt_count,
    {
        self.has_empty = true;
    }

    pub fn has_empty_clause(&self) -> (b: bool)
        ensures
            b == self.has_empty,
    {
        self.has_empty
    }

    pub fn learnt_count(&self) -> (n: usize)
        ensures
            n == self.learnt_count,
    {
        self.learnt_count
    }

    /// Remove learned clauses where `should_delete(cr, clause)` is true.
    /// `should_delete` receives the clause ref so the caller can check whether
    /// the clause is still the reason of its first literal (locked).
    /// The caller must rebuild the watch list after calling this.
    pub fn reduce_learned(&mut self, should_delete: impl Fn(ClauseRef, &Clause) -> bool)
        requires
            old(self).well_formed(),
            forall|r: int|
                0 <= r < old(self).clauses@.len() && is_learnt(#[trigger] old(self).clauses@[r])
                    ==> should_delete.requires(
                    (ClauseRef(r as u32), &old(self).clauses@[r]->0),
                ),
        ensures
            final(self).well_formed(),
            final(self).has_empty == old(self).has_empty,
            final(self).clauses@.len() == old(self).clauses@.len(),
            forall|r: int|
                0 <= r < old(self).clauses@.len() ==> {
                    let before = old(self).clauses@[r];
                    let after = #[trigger] final(self).clauses@[r];
                    if is_learnt(before) {
                        ||| after == before && should_delete.ensures(
                            (ClauseRef(r as u32), &before->0),
                            false,
                        )
                        ||| after is None && should_delete.ensures(
                            (ClauseRef(r as u32), &before->0),
                            true,
                        )
                    } else {
                        after == before
                    }
                },
    {
        let n: usize = self.clauses.len();
        let mut idx: usize = 0;
        while idx < n
            invariant
                n == self.clauses@.len(),
                n == old(self).clauses@.len(),
                idx <= n,
                self.well_formed(),
                self.has_empty == old(self).has_empty,
                forall|r: int|
                    0 <= r < old(self).clauses@.len() && is_learnt(
                        #[trigger] old(self).clauses@[r],
                    ) ==> should_delete.requires(
                        (ClauseRef(r as u32), &old(self).clauses@[r]->0),
                    ),
                forall|r: int|
                    idx <= r < n ==> #[trigger] self.clauses@[r] == old(self).clauses@[r],
                forall|r: int|
                    0 <= r < idx ==> {
                        let before = old(self).clauses@[r];
                        let after = #[trigger] self.clauses@[r];
                        if is_learnt(before) {
                            ||| after == before && should_delete.ensures(
                                (ClauseRef(r as u32), &before->0),
                                false,
                            )
                            ||| after is None && should_delete.ensures(
                                (ClauseRef(r as u32), &before->0),
                                true,
                            )
                        } else {
                            after == before
                        }
                    },
            decreases n - idx,
        {
            let mut drop_it: bool = false;
            assert(self.clauses@[idx as int] == old(self).clauses@[idx as int]);
            if let Some(c) = &self.clauses[idx] {
                if c.learnt {
                    drop_it = should_delete(ClauseRef(idx as u32), c);
                }
            }
            if drop_it {
                proof {
                    learnt_total_update(self.clauses@, idx as int, None);
                }
                self.clauses[idx] = None;
                self.learnt_count -= 1;
            }
            idx += 1;
        }
    }

    /// Iterate the surviving (non-deleted) clauses and register their two
    /// watched literals. Must be called after `reduce_learned` so the watch
    /// list never references a deleted clause.
    pub fn rebuild_watches(&self, watches: &mut WatchList)
        requires
            self.well_formed(),
            forall|r: int|
                #[trigger] self.live(r) ==> {
                    &&& self.lits(r).len() >= 2
                    &&& self.lits(r)[0].negate().0 < old(watches).size()
                    &&& self.lits(r)[1].negate().0 < old(watches).size()
                },
        ensures
            final(watches).size() == old(watches).size(),
            forall|l: Literal, r: ClauseRef|
                l.0 < final(watches).size() ==> #[trigger] watched::occurrences(
                    final(watches).under(l),
                    r,
                ) == self.watch_count(l, r),
    {
        watches.clear();
        let n: usize = self.clauses.len();
        let mut idx: usize = 0;
        while idx < n
            invariant
                idx <= n,
                n == self.clauses@.len(),
                self.well_formed(),
                watches.size() == old(watches).size(),
                forall|r: int|
                    #[trigger] self.live(r) ==> {
                        &&& self.lits(r).len() >= 2
                        &&& self.lits(r)[0].negate().0 < watches.size()
                        &&& self.lits(r)[1].negate().0 < watches.size()
                    },
                forall|l: Literal, r: ClauseRef|
                    l.0 < watches.size() ==> #[trigger] watched::occurrences(
                        watches.under(l),
                        r,
                    ) == (if r.0 < idx { self.watch_count(l, r) } else { 0 }),
            decreases n - idx,
        {
            let cr: ClauseRef = ClauseRef(idx as u32);
            if let Some(c) = &self.clauses[idx] {
                assert(self.live(idx as int));
                let w0: Literal = c.lits.at(0).negate();
                let w1: Literal = c.lits.at(1).negate();
                let ghost before = *watches;
                watches.watch(w0, cr);
                let ghost mid = *watches;
                watches.watch(w1, cr);
                assert forall|l: Literal, r: ClauseRef| l.0 < watches.size() implies
                    #[trigger] watched::occurrences(watches.under(l), r) == (if r.0 < idx + 1 {
                    self.watch_count(l, r)
                } else {
                    0
                }) by {
                    watched::occurrences_push(before.under(l), cr, r);
                    watched::occurrences_push(mid.under(l), cr, r);
                    assert(mid.under(l) == if l == w0 {
                        before.under(l).push(cr)
                    } else {
                        before.under(l)
                    });
                    assert(watches.under(l) == if l == w1 {
                        mid.under(l).push(cr)
                    } else {
                        mid.under(l)
                    });
                    assert(watched::occurrences(before.under(l), r) == (if r.0 < idx {
                        self.watch_count(l, r)
                    } else {
                        0
                    }));
                }
            } else {
                assert(!self.live(idx as int));
            }
            idx += 1;
        }
    }

    /// How often a clause is to be found under a literal: once for each of
    /// its two watched positions whose negation is that literal.
    pub open spec fn watch_count(&self, l: Literal, r: ClauseRef) -> nat {
        if self.live(r.0 as int) {
            (if self.lits(r.0 as int)[0].negate() == l { 1nat } else { 0 }) + (if self.lits(
                r.0 as int,
            )[1].negate() == l { 1nat } else { 0 })
        } else {
            0
        }
    }
}

impl Default for ClauseDb {
    fn default() -> (db: Self)
        ensures
            db.well_formed(),
            db.clauses@.len() == 0,
            db.learnt_count == 0,
            !db.has_empty,
    {
        ClauseDb::new()
    }
}

} // verus!
