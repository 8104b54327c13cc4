use vstd::prelude::*;

use crate::akx::literal::{Literal, MAX_VAR};
use crate::sat::clause::ClauseRef;

verus! {

/// How often a clause reference occurs in a list.
pub open spec fn occurrences(list: Seq<ClauseRef>, cr: ClauseRef) -> nat
    decreases list.len(),
{
    if list.len() == 0 {
        0
    } else {
        occurrences(list.drop_last(), cr) + (if list.last() == cr { 1nat } else { 0nat })
    }
}

/// Whether `pos` is where `cr` occurs for the first time.
pub open spec fn first_at(list: Seq<ClauseRef>, cr: ClauseRef, pos: int) -> bool {
    &&& 0 <= pos < list.len()
    &&& list[pos] == cr
    &&& forall|j: int| 0 <= j < pos ==> #[trigger] list[j] != cr
}

/// The list with the entry at `pos` replaced by the last one.
pub open spec fn swap_removed(list: Seq<ClauseRef>, pos: int) -> Seq<ClauseRef> {
    list.update(pos, list.last()).drop_last()
}

pub proof fn occurrences_push(list: Seq<ClauseRef>, x: ClauseRef, cr: ClauseRef)
    ensures
        occurrences(list.push(x), cr) == occurrences(list, cr) + (if x == cr { 1nat } else { 0 }),
{
    assert(list.push(x).drop_last() =~= list);
}

pub proof fn occurrences_update(list: Seq<ClauseRef>, i: int, x: ClauseRef, cr: ClauseRef)
    requires
        0 <= i < list.len(),
    ensures
        occurrences(list.update(i, x), cr) == occurrences(list, cr) - (if list[i] == cr {
            1int
        } else {
            0
        }) + (if x == cr { 1int } else { 0 }),
    decreases list.len(),
{
    if i == list.len() - 1 {
        assert(list.update(i, x).drop_last() =~= list.drop_last());
    } else {
        assert(list.update(i, x).drop_last() =~= list.drop_last().update(i, x));
        occurrences_update(list.drop_last(), i, x, cr);
    }
}

pub proof fn occurrences_swap_removed(list: Seq<ClauseRef>, pos: int, cr: ClauseRef)
    requires
        0 <= pos < list.len(),
    ensures
        occurrences(swap_removed(list, pos), cr) == occurrences(list, cr) - (if list[pos] == cr {
            1int
        } else {
            0
        }),
{
    occurrences_update(list, pos, list.last(), cr);
    let u = list.update(pos, list.last());
    assert(u.last() == list.last());
}

pub proof fn occurrences_member(list: Seq<ClauseRef>, i: int)
    requires
        0 <= i < list.len(),
    ensures
        occurrences(list, list[i]) >= 1,
    decreases list.len(),
{
    if i < list.len() - 1 {
        assert(list.drop_last()[i] == list[i]);
        occurrences_member(list.drop_last(), i);
    }
}

pub proof fn occurrences_twice(list: Seq<ClauseRef>, i: int, j: int)
    requires
        0 <= i < j < list.len(),
        list[i] == list[j],
    ensures
        occurrences(list, list[i]) >= 2,
    decreases list.len(),
{
    if j < list.len() - 1 {
        assert(list.drop_last()[i] == list[i]);
        assert(list.drop_last()[j] == list[j]);
        occurrences_twice(list.drop_last(), i, j);
    } else {
        assert(list.drop_last()[i] == list[i]);
        occurrences_member(list.drop_last(), i);
    }
}

pub proof fn occurrences_witness(list: Seq<ClauseRef>, cr: ClauseRef) -> (i: int)
    requires
        occurrences(list, cr) >= 1,
    ensures
        0 <= i < list.len(),
        list[i] == cr,
    decreases list.len(),
{
    if list.last() == cr {
        list.len() - 1
    } else {
        let i = occurrences_witness(list.drop_last(), cr);
        assert(list.drop_last()[i] == list[i]);
        i
    }
}

/// Two-watched-literal index.
/// `watches[lit.raw()]` = list of clause refs that watch `lit`.
pub struct WatchList {
    pub watches: Vec<Vec<ClauseRef>>,
}

impl WatchList {
    /// The clause references stored under a literal.
    pub open spec fn under(&self, lit: Literal) -> Seq<ClauseRef> {
        self.watches@[lit.0 as int]@
    }

    /// How many literals the index covers.
    pub open spec fn size(&self) -> nat {
        self.watches@.len()
    }

    pub fn new(num_vars: u32) -> (w: Self)
        requires
            num_vars < MAX_VAR,
            num_vars * 2 + 2 <= usize::MAX,
        ensures
            w.size() == num_vars * 2 + 2,
            forall|l: Literal| l.0 < w.size() ==> #[trigger] w.under(l).len() == 0,
    {
        let n: usize = (num_vars * 2 + 2) as usize;
        let mut watches: Vec<Vec<ClauseRef>> = Vec::new();
        while watches.len() < n
            invariant
                watches@.len() <= n,
                forall|i: int| 0 <= i < watches@.len() ==> (#[trigger] watches@[i])@.len() == 0,
            decreases n - watches@.len(),
        {
            watches.push(Vec::new());
        }
        WatchList { watches }
    }

    /// Store a clause under a literal.
    pub fn watch(&mut self, lit: Literal, cr: ClauseRef)
        requires
            lit.0 < old(self).size(),
        ensures
            final(self).size() == old(self).size(),
            final(self).under(lit) == old(self).under(lit).push(cr),
            forall|l: Literal|
                l != lit && l.0 < old(self).size() ==> #[trigger] final(self).under(l) == old(
                    self,
                ).under(l),
    {
        let i: usize = lit.raw() as usize;
        self.watches[i].push(cr);
    }

    /// Remove every clause reference (used before rebuilding from the clause
    /// database, e.g. after a learnt-clause reduction).
    pub fn clear(&mut self)
        ensures
            final(self).size() == old(self).size(),
            forall|l: Literal| l.0 < final(self).size() ==> #[trigger] final(self).under(l).len() == 0,
    {
        let n: usize = self.watches.len();
        let mut i: usize = 0;
        while i < n
            invariant
                i <= n,
                n == self.watches@.len(),
                n == old(self).watches@.len(),
                forall|j: int| 0 <= j < i ==> (#[trigger] self.watches@[j])@.len() == 0,
            decreases n - i,
        {
            self.watches[i].clear();
            i += 1;
        }
    }

    pub fn get(&self, lit: Literal) -> (list: &[ClauseRef])
        requires
            lit.0 < self.size(),
        ensures
            list@ == self.under(lit),
    {
        self.watches[lit.raw() as usize].as_slice()
    }

    pub fn get_mut(&mut self, lit: Literal) -> (list: &mut Vec<ClauseRef>)
        requires
            lit.0 < old(self).size(),
        ensures
            *list == old(self).watches@[lit.0 as int],
            final(self).watches@ == old(self).watches@.update(lit.0 as int, *final(list)),
    {
        let i: usize = lit.raw() as usize;
        &mut self.watches[i]
    }

    /// Drop the first occurrence of a clause under a literal, if there is
    /// one, by moving the last entry into its place.
    pub fn remove(&mut self, lit: Literal, cr: ClauseRef)
        requires
            lit.0 < old(self).size(),
        ensures
            final(self).size() == old(self).size(),
            forall|l: Literal|
                l != lit && l.0 < old(self).size() ==> #[trigger] final(self).under(l) == old(
                    self,
                ).under(l),
            !old(self).under(lit).contains(cr) ==> final(self).under(lit) == old(self).under(lit),
            forall|pos: int|
                #[trigger] first_at(old(self).under(lit), cr, pos) ==> final(self).under(lit)
                    == swap_removed(old(self).under(lit), pos),
    {
        let r: usize = lit.raw() as usize;
        let n: usize = self.watches[r].len();
        let mut i: usize = 0;
        while i < n
            invariant
                i <= n,
                r == lit.0,
                r < self.watches@.len(),
                n == self.under(lit).len(),
                *self == *old(self),
                forall|j: int| 0 <= j < i ==> #[trigger] self.under(lit)[j] != cr,
            decreases n - i,
        {
            if self.watches[r][i] == cr {
                self.watches[r].swap_remove(i);
                proof {
                    assert(first_at(old(self).under(lit), cr, i as int));
                    assert(old(self).under(lit).contains(cr));
                    assert forall|pos: int| #[trigger]
                        first_at(old(self).under(lit), cr, pos) implies pos == i by {
                        assert(old(self).under(lit)[pos] == cr);
                    }
                    assert(self.under(lit) =~= swap_removed(old(self).under(lit), i as int));
                }
                return;
            }
            i += 1;
        }
    }
}

} // verus!
