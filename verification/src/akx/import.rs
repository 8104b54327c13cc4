//! The import predicate.
//!
//! A worker `W` with active assumption context `ctx_W` may apply knowledge
//! object `K = (kind, concl, asmpts, ...)` iff `ctx_W ⊇ asmpts`. Unconditional
//! knowledge (`asmpts = ∅`) is always applicable. Knowledge whose assumption
//! set partially overlaps the context is *buffered* (it may become applicable
//! on a future context change); knowledge with no overlap is *discarded*.
//!
//! Import can never make a satisfiable instance UNSAT: if `IMPORT_OK` holds,
//! `F ∧ ctx_W ⊨ concl`, so importing `concl` adds a consequence already
//! entailed by the search space.
//!
//! `canonical_key` is used for deduplication so a conclusion already applied
//! under the same assumptions is not applied twice.

use vstd::prelude::*;

use crate::akx::filter::BloomFilter;
use crate::akx::fx;
use crate::akx::knowledge::{canonical_key, KnowledgeObject, Utility};
use crate::akx::literal::Literal;
use crate::akx::policy::ImportPolicy;
use rustc_hash::FxHashSet;
#[allow(unused_imports)]
use crate::akx::knowledge;
#[allow(unused_imports)]
use crate::akx::knowledge::ObjectView;
#[allow(unused_imports)]
use crate::akx::logic;

verus! {

/// Decision of the import predicate for a single knowledge object.
#[derive(Clone, Copy, Debug, PartialEq, Eq, Structural)]
pub enum ImportAction {
    /// `asmpts = ∅` or `ctx_W ⊇ asmpts`: safe to apply immediately.
    Apply,
    /// `ctx_W ⊅ asmpts` but `ctx_W ∩ asmpts ≠ ∅`: buffer and look again on the
    /// next context change.
    Buffer,
    /// `ctx_W ∩ asmpts = ∅`: discard; unlikely to become applicable soon.
    Discard,
}

/// Decision on a knowledge object as it flows through the import gate.
#[derive(Clone, Copy, Debug, PartialEq, Eq, Structural)]
pub enum ImportDecision {
    Applied,
    Buffered,
    Duplicate,
    DiscardedNoOverlap,
    DiscardedLowUtility,
}

/// Strictly ascending literals.
pub open spec fn ascending(lits: Seq<Literal>) -> bool {
    forall|i: int, j: int| 0 <= i < j < lits.len() ==> (#[trigger] lits[i]).0 < (
    #[trigger] lits[j]).0
}

/// Two sequences with the same literals.
pub open spec fn same_literals(a: Seq<Literal>, b: Seq<Literal>) -> bool {
    forall|l: Literal| #[trigger] a.contains(l) <==> b.contains(l)
}

/// The literals of a sequence in ascending order, each once.
pub open spec fn sorted_form(lits: Seq<Literal>) -> Seq<Literal> {
    choose|s: Seq<Literal>| ascending(s) && #[trigger] same_literals(s, lits)
}

/// Ascending sequences with the same literals are equal.
proof fn ascending_unique(a: Seq<Literal>, b: Seq<Literal>)
    requires
        ascending(a),
        ascending(b),
        same_literals(a, b),
    ensures
        a == b,
    decreases a.len(),
{
    if a.len() == 0 {
        if b.len() > 0 {
            assert(b.contains(b[0]));
            assert(a.contains(b[0]));
        }
        assert(a =~= b);
    } else {
        assert(a.contains(a.last()));
        assert(b.contains(a.last()));
        assert(b.len() > 0);
        assert(b.contains(b.last()));
        assert(a.contains(b.last()));
        let i = choose|i: int| 0 <= i < b.len() && b[i] == a.last();
        let j = choose|j: int| 0 <= j < a.len() && a[j] == b.last();
        assert(a.last() == b.last()) by {
            if i < b.len() - 1 {
                assert(b[i].0 < b.last().0);
                if j < a.len() - 1 {
                    assert(a[j].0 < a.last().0);
                }
            }
        }
        let a1 = a.drop_last();
        let b1 = b.drop_last();
        assert forall|l: Literal| #[trigger] a1.contains(l) <==> b1.contains(l) by {
            if a1.contains(l) {
                let k = choose|k: int| 0 <= k < a1.len() && a1[k] == l;
                assert(a[k] == l && l.0 < a.last().0);
                assert(a.contains(l));
                assert(b.contains(l));
                let m = choose|m: int| 0 <= m < b.len() && b[m] == l;
                assert(b1[m] == l);
            }
            if b1.contains(l) {
                let k = choose|k: int| 0 <= k < b1.len() && b1[k] == l;
                assert(b[k] == l && l.0 < b.last().0);
                assert(b.contains(l));
                assert(a.contains(l));
                let m = choose|m: int| 0 <= m < a.len() && a[m] == l;
                assert(a1[m] == l);
            }
        }
        ascending_unique(a1, b1);
        assert(a =~= a1.push(a.last()));
        assert(b =~= b1.push(b.last()));
    }
}

/// The ascending form of a sequence of literals is unique.
pub proof fn sorted_form_is(s: Seq<Literal>, lits: Seq<Literal>)
    requires
        ascending(s),
        same_literals(s, lits),
    ensures
        s == sorted_form(lits),
{
    let t = sorted_form(lits);
    assert(ascending(t) && same_literals(t, lits));
    assert(same_literals(s, t)) by {
        assert forall|l: Literal| #[trigger] s.contains(l) <==> t.contains(l) by {
            assert(t.contains(l) <==> lits.contains(l));
        }
    }
    ascending_unique(s, t);
}

/// The active assumption context of a worker: the sorted set of literals the
/// worker is currently assuming. This is `ctx_W` in the import predicate.
///
/// Kept sorted so subset tests are a linear merge.
#[derive(Clone, Debug, PartialEq, Eq)]
pub struct ImportContext {
    lits: Vec<Literal>,
}

/// Where a literal is, or where it would have to be inserted.
fn search(lits: &Vec<Literal>, lit: Literal) -> (r: Result<usize, usize>)
    requires
        ascending(lits@),
    ensures
        match r {
            Ok(i) => i < lits@.len() && lits@[i as int] == lit,
            Err(i) => {
                &&& i <= lits@.len()
                &&& forall|j: int| 0 <= j < i ==> (#[trigger] lits@[j]).0 < lit.0
                &&& forall|j: int| i <= j < lits@.len() ==> (#[trigger] lits@[j]).0 > lit.0
            },
        },
{
    let mut lo: usize = 0;
    let mut hi: usize = lits.len();
    while lo < hi
        invariant
            lo <= hi <= lits@.len(),
            ascending(lits@),
            forall|j: int| 0 <= j < lo ==> (#[trigger] lits@[j]).0 < lit.0,
            forall|j: int| hi <= j < lits@.len() ==> (#[trigger] lits@[j]).0 > lit.0,
        decreases hi - lo,
    {
        let mid: usize = lo + (hi - lo) / 2;
        let here: u32 = lits[mid].raw();
        if here == lit.raw() {
            assert(lits@[mid as int] == lit);
            return Ok(mid);
        }
        if here < lit.raw() {
            lo = mid + 1;
        } else {
            hi = mid;
        }
    }
    Err(lo)
}

impl ImportContext {
    /// The literals of the context, ascending.
    pub closed spec fn lits(&self) -> Seq<Literal> {
        self.lits@
    }

    /// Whether a literal is in the context.
    pub open spec fn has(&self, lit: Literal) -> bool {
        self.lits().contains(lit)
    }

    /// Sorted and without duplicates.
    pub open spec fn well_formed(&self) -> bool {
        ascending(self.lits())
    }

    pub fn new() -> (c: Self)
        ensures
            c.well_formed(),
            c.lits().len() == 0,
    {
        ImportContext { lits: Vec::new() }
    }

    /// Build a context from assumption literals (sorted on construction;
    /// duplicates ignored).
    pub fn from_assumptions(lits: &[Literal]) -> (c: Self)
        ensures
            c.well_formed(),
            c.lits() == sorted_form(lits@),
            same_literals(c.lits(), lits@),
    {
        let mut c = ImportContext::new();
        let mut i: usize = 0;
        while i < lits.len()
            invariant
                i <= lits@.len(),
                c.well_formed(),
                forall|l: Literal| #[trigger] c.has(l) <==> lits@.take(i as int).contains(l),
            decreases lits@.len() - i,
        {
            let ghost before = c;
            c.push(lits[i]);
            let ghost next = lits@.take(i + 1);
            assert forall|l: Literal| #[trigger] c.has(l) <==> next.contains(l) by {
                assert(next =~= lits@.take(i as int).push(lits@[i as int]));
                assert(before.has(l) <==> lits@.take(i as int).contains(l));
                if next.contains(l) && l != lits@[i as int] {
                    let k = choose|k: int| 0 <= k < next.len() && next[k] == l;
                    assert(lits@.take(i as int)[k] == l);
                }
                if lits@.take(i as int).contains(l) {
                    let k = choose|k: int| 0 <= k < i && lits@.take(i as int)[k] == l;
                    assert(next[k] == l);
                }
                assert(next[i as int] == lits@[i as int]);
            }
            i += 1;
        }
        assert(lits@.take(lits@.len() as int) =~= lits@);
        proof {
            assert forall|l: Literal| #[trigger] c.lits().contains(l) <==> lits@.contains(l) by {
                assert(c.has(l) <==> lits@.contains(l));
            }
            sorted_form_is(c.lits(), lits@);
        }
        c
    }

    /// Insert a literal, keeping the set sorted and duplicate-free. Returns
    /// true if it was newly added.
    pub fn push(&mut self, lit: Literal) -> (added: bool)
        requires
            old(self).well_formed(),
        ensures
            final(self).well_formed(),
            added == !old(self).has(lit),
            forall|l: Literal| #[trigger] final(self).has(l) <==> old(self).has(l) || l == lit,
    {
        let ghost before = self.lits@;
        match search(&self.lits, lit) {
            Ok(_) => false,
            Err(pos) => {
                self.lits.insert(pos, lit);
                proof {
                    let after = self.lits@;
                    assert forall|l: Literal| #[trigger] self.has(l) <==> old(self).has(l) || l
                        == lit by {
                        if before.contains(l) {
                            let k = choose|k: int| 0 <= k < before.len() && before[k] == l;
                            let m = if k < pos {
                                k
                            } else {
                                k + 1
                            };
                            assert(after[m] == l);
                        }
                        assert(after[pos as int] == lit);
                        if after.contains(l) && l != lit {
                            let k = choose|k: int| 0 <= k < after.len() && after[k] == l;
                            let m = if k < pos {
                                k
                            } else {
                                k - 1
                            };
                            assert(before[m] == l);
                        }
                    }
                    assert forall|i: int, j: int| 0 <= i < j < after.len() implies (
                    #[trigger] after[i]).0 < (#[trigger] after[j]).0 by {
                        let p = if i < pos {
                            i
                        } else {
                            i - 1
                        };
                        let q = if j < pos {
                            j
                        } else {
                            j - 1
                        };
                        if i != pos {
                            assert(after[i] == before[p]);
                        }
                        if j != pos {
                            assert(after[j] == before[q]);
                        }
                    }
                }
                true
            },
        }
    }

    /// Remove a literal. Returns true if it was present.
    pub fn remove(&mut self, lit: Literal) -> (removed: bool)
        requires
            old(self).well_formed(),
        ensures
            final(self).well_formed(),
            removed == old(self).has(lit),
            forall|l: Literal| #[trigger] final(self).has(l) <==> old(self).has(l) && l != lit,
    {
        let ghost before = self.lits@;
        match search(&self.lits, lit) {
            Ok(pos) => {
                self.lits.remove(pos);
                proof {
                    let after = self.lits@;
                    assert(after =~= before.remove(pos as int));
                    assert forall|l: Literal| #[trigger] self.has(l) <==> old(self).has(l) && l
                        != lit by {
                        if before.contains(l) && l != lit {
                            let k = choose|k: int| 0 <= k < before.len() && before[k] == l;
                            let m = if k < pos {
                                k
                            } else {
                                k - 1
                            };
                            assert(after[m] == l);
                        }
                        if after.contains(l) {
                            let k = choose|k: int| 0 <= k < after.len() && after[k] == l;
                            let m = if k < pos {
                                k
                            } else {
                                k + 1
                            };
                            assert(before[m] == l);
                        }
                    }
                    assert forall|i: int, j: int| 0 <= i < j < after.len() implies (
                    #[trigger] after[i]).0 < (#[trigger] after[j]).0 by {
                        let p = if i < pos {
                            i
                        } else {
                            i + 1
                        };
                        let q = if j < pos {
                            j
                        } else {
                            j + 1
                        };
                        assert(after[i] == before[p] && after[j] == before[q]);
                    }
                }
                true
            },
            Err(_) => false,
        }
    }

    /// Set membership (binary search over the sorted set).
    pub fn contains(&self, lit: Literal) -> (b: bool)
        requires
            self.well_formed(),
        ensures
            b == self.has(lit),
    {
        match search(&self.lits, lit) {
            Ok(i) => {
                assert(self.lits()[i as int] == lit);
                true
            },
            Err(_) => false,
        }
    }

    /// `ctx_W ⊇ asmpts`: every assumption literal is in this context.
    ///
    /// O(|asmpts|) linear merge when `asmpts` is sorted (the documented
    /// convention for `KnowledgeObject::assumptions`); O(|asmpts| log|ctx|)
    /// fallback otherwise. Always correct.
    pub fn contains_all(&self, asmpts: &[Literal]) -> (b: bool)
        requires
            self.well_formed(),
        ensures
            b == subset(asmpts@, self.lits()),
    {
        if is_sorted(asmpts) {
            self.merge_contains(asmpts)
        } else {
            let mut k: usize = 0;
            while k < asmpts.len()
                invariant
                    k <= asmpts@.len(),
                    self.well_formed(),
                    forall|j: int| 0 <= j < k ==> self.lits().contains(#[trigger] asmpts@[j]),
                decreases asmpts@.len() - k,
            {
                if !self.contains(asmpts[k]) {
                    return false;
                }
                k += 1;
            }
            true
        }
    }

    fn merge_contains(&self, asmpts: &[Literal]) -> (b: bool)
        requires
            self.well_formed(),
            forall|i: int, j: int|
                0 <= i <= j < asmpts@.len() ==> (#[trigger] asmpts@[i]).0 <= (
                #[trigger] asmpts@[j]).0,
        ensures
            b == subset(asmpts@, self.lits()),
    {
        let mut i: usize = 0;
        let mut j: usize = 0;
        while j < asmpts.len()
            invariant
                i <= self.lits@.len(),
                j <= asmpts@.len(),
                self.well_formed(),
                forall|p: int, q: int|
                    0 <= p <= q < asmpts@.len() ==> (#[trigger] asmpts@[p]).0 <= (
                    #[trigger] asmpts@[q]).0,
                forall|k: int| 0 <= k < j ==> self.lits().contains(#[trigger] asmpts@[k]),
                j < asmpts@.len() ==> forall|k: int|
                    0 <= k < i ==> (#[trigger] self.lits@[k]).0 < asmpts@[j as int].0,
            decreases self.lits@.len() - i + asmpts@.len() - j,
        {
            if i >= self.lits.len() {
                assert(!self.lits().contains(asmpts@[j as int]));
                return false;
            }
            let here: u32 = self.lits[i].raw();
            let want: u32 = asmpts[j].raw();
            if here < want {
                i += 1;
            } else if here == want {
                // One context element satisfies any number of identical
                // assumption literals, so only advance the assumption cursor.
                assert(self.lits()[i as int] == asmpts@[j as int]);
                j += 1;
            } else {
                assert forall|k: int| 0 <= k < self.lits@.len() implies self.lits@[k]
                    != asmpts@[j as int] by {
                    if k > i {
                        assert(self.lits@[i as int].0 < self.lits@[k].0);
                    }
                }
                assert(!self.lits().contains(asmpts@[j as int]));
                return false;
            }
        }
        true
    }

    pub fn literals(&self) -> (lits: &[Literal])
        ensures
            lits@ == self.lits(),
    {
        self.lits.as_slice()
    }
}

impl Default for ImportContext {
    fn default() -> (c: Self)
        ensures
            c.well_formed(),
            c.lits().len() == 0,
    {
        ImportContext::new()
    }
}

/// Every literal of `a` occurs in `b`.
pub open spec fn subset(a: Seq<Literal>, b: Seq<Literal>) -> bool {
    forall|k: int| 0 <= k < a.len() ==> b.contains(#[trigger] a[k])
}

/// Some literal of `a` occurs in `b`.
pub open spec fn overlaps(a: Seq<Literal>, b: Seq<Literal>) -> bool {
    exists|k: int| 0 <= k < a.len() && b.contains(#[trigger] a[k])
}

fn is_sorted(lits: &[Literal]) -> (b: bool)
    ensures
        b <==> forall|i: int, j: int|
            0 <= i <= j < lits@.len() ==> (#[trigger] lits@[i]).0 <= (#[trigger] lits@[j]).0,
{
    let mut k: usize = 1;
    while k < lits.len()
        invariant
            1 <= k,
            k <= lits@.len() || lits@.len() == 0,
            forall|i: int, j: int|
                0 <= i <= j < k && j < lits@.len() ==> (#[trigger] lits@[i]).0 <= (
                #[trigger] lits@[j]).0,
        decreases lits@.len() - k,
    {
        if lits[k - 1].raw() > lits[k].raw() {
            assert(lits@[k - 1].0 > lits@[k as int].0);
            return false;
        }
        assert forall|i: int, j: int|
            0 <= i <= j < k + 1 && j < lits@.len() implies (#[trigger] lits@[i]).0 <= (
        #[trigger] lits@[j]).0 by {
            if j == k && i < k {
                assert(lits@[i].0 <= lits@[k - 1].0);
            }
        }
        k += 1;
    }
    true
}

/// The import predicate over views.
pub open spec fn classified(ctx: Seq<Literal>, asmpts: Seq<Literal>) -> ImportAction {
    if subset(asmpts, ctx) {
        ImportAction::Apply
    } else if overlaps(asmpts, ctx) {
        ImportAction::Buffer
    } else {
        ImportAction::Discard
    }
}

/// The import predicate: `IMPORT_OK(W, K)`.
pub fn classify_import(ctx: &ImportContext, obj: &KnowledgeObject) -> (a: ImportAction)
    requires
        ctx.well_formed(),
    ensures
        a == classified(ctx.lits(), obj@.assumptions),
{
    classify_import_with(ctx, obj, false)
}

/// The import predicate with an optional pre-computed "definitely not a
/// subset" verdict (e.g. from a Bloom pre-filter). `non_subset = true` skips
/// the exact `ctx ⊇ asmpts` merge; the overlap classification is always exact.
pub fn classify_import_with(ctx: &ImportContext, obj: &KnowledgeObject, non_subset: bool) -> (a:
    ImportAction)
    requires
        ctx.well_formed(),
    ensures
        (non_subset ==> obj@.assumptions.len() == 0 || !subset(obj@.assumptions, ctx.lits()))
            ==> a == classified(ctx.lits(), obj@.assumptions),
        non_subset ==> a == (if obj@.assumptions.len() == 0 {
            ImportAction::Apply
        } else if overlaps(obj@.assumptions, ctx.lits()) {
            ImportAction::Buffer
        } else {
            ImportAction::Discard
        }),
{
    if obj.is_unconditional() {
        return ImportAction::Apply;
    }
    let asmpts: &[Literal] = obj.assumptions.as_slice();
    if !non_subset && ctx.contains_all(asmpts) {
        return ImportAction::Apply;
    }
    let mut k: usize = 0;
    while k < asmpts.len()
        invariant
            k <= asmpts@.len(),
            ctx.well_formed(),
            asmpts@ == obj@.assumptions,
            asmpts@.len() > 0,
            non_subset || !subset(asmpts@, ctx.lits()),
            forall|j: int| 0 <= j < k ==> !ctx.lits().contains(#[trigger] asmpts@[j]),
        decreases asmpts@.len() - k,
    {
        if ctx.contains(asmpts[k]) {
            assert(ctx.lits().contains(obj@.assumptions[k as int]));
            assert(overlaps(obj@.assumptions, ctx.lits()));
            return ImportAction::Buffer;
        }
        k += 1;
    }
    ImportAction::Discard
}

/// What may be imported follows from the search space: if the formula and an
/// object's assumptions entail its conclusion, and the predicate lets a worker
/// apply it, the formula and the worker's context entail the conclusion. So a
/// valuation that satisfies the formula and the context before the import
/// still does after it.
pub proof fn import_is_sound(
    f: Seq<Seq<Literal>>,
    ctx: Seq<Literal>,
    asmpts: Seq<Literal>,
    conclusion: spec_fn(logic::Valuation) -> bool,
)
    requires
        classified(ctx, asmpts) == ImportAction::Apply,
        forall|val: logic::Valuation|
            #[trigger] logic::formula_holds(val, f) && logic::all_hold(val, asmpts) ==> conclusion(
                val,
            ),
    ensures
        forall|val: logic::Valuation|
            #[trigger] logic::formula_holds(val, f) && logic::all_hold(val, ctx) ==> conclusion(
                val,
            ),
{
    assert forall|val: logic::Valuation|
        #[trigger] logic::formula_holds(val, f) && logic::all_hold(val, ctx) implies conclusion(
        val,
    ) by {
        assert forall|i: int| 0 <= i < asmpts.len() implies logic::lit_holds(
            val,
            #[trigger] asmpts[i],
        ) by {
            let j = choose|j: int| 0 <= j < ctx.len() && ctx[j] == asmpts[i];
            assert(logic::lit_holds(val, ctx[j]));
        }
    }
}

/// Unconditional knowledge is always applicable.
pub proof fn unconditional_applies(ctx: Seq<Literal>)
    ensures
        classified(ctx, Seq::empty()) == ImportAction::Apply,
{
}

// ---------------------------------------------------------------------------
// The buffer of conditional knowledge
// ---------------------------------------------------------------------------

#[derive(Debug)]
struct BufEntry {
    obj: KnowledgeObject,
    key: u64,
}

/// Bounded buffer for knowledge awaiting a context match. When full, evicts
/// the lowest-utility entry.
#[derive(Debug)]
pub struct ImportBuffer {
    cap: usize,
    entries: Vec<BufEntry>,
    keys: FxHashSet<u64>,
}

spec fn entry_views(entries: Seq<BufEntry>) -> Seq<ObjectView> {
    entries.map_values(|e: BufEntry| e.obj@)
}

/// Some object of the sequence has this deduplication key.
pub open spec fn holds_key(objs: Seq<ObjectView>, key: u64) -> bool {
    exists|i: int| 0 <= i < objs.len() && knowledge::key_of(#[trigger] objs[i]) == key
}

/// By descending utility.
pub open spec fn by_utility(objs: Seq<ObjectView>) -> bool {
    forall|i: int, j: int|
        0 <= i <= j < objs.len() ==> (#[trigger] objs[i]).utility >= (#[trigger] objs[j]).utility
}

/// No two objects share a deduplication key.
pub open spec fn distinct_keys(objs: Seq<ObjectView>) -> bool {
    forall|i: int, j: int|
        0 <= i < j < objs.len() ==> knowledge::key_of(#[trigger] objs[i]) != knowledge::key_of(
            #[trigger] objs[j],
        )
}

/// The number of leading objects with at least the given utility.
pub open spec fn rank_of(objs: Seq<ObjectView>, utility: Utility) -> nat
    decreases objs.len(),
{
    if objs.len() == 0 || objs[0].utility < utility {
        0
    } else {
        1 + rank_of(objs.drop_first(), utility)
    }
}

/// The objects with one more, behind those of at least its utility.
pub open spec fn ranked_insert(objs: Seq<ObjectView>, o: ObjectView) -> Seq<ObjectView> {
    objs.insert(rank_of(objs, o.utility) as int, o)
}

/// The buffer after an object was put in: unchanged if its key is there, else
/// with the object in its place and, beyond the capacity, without the last.
pub open spec fn buffered(objs: Seq<ObjectView>, cap: usize, o: ObjectView) -> Seq<ObjectView> {
    if holds_key(objs, knowledge::key_of(o)) {
        objs
    } else if objs.len() + 1 > cap {
        ranked_insert(objs, o).drop_last()
    } else {
        ranked_insert(objs, o)
    }
}

proof fn rank_is(objs: Seq<ObjectView>, utility: Utility, i: int)
    requires
        0 <= i <= objs.len(),
        forall|j: int| 0 <= j < i ==> (#[trigger] objs[j]).utility >= utility,
        i < objs.len() ==> objs[i].utility < utility,
    ensures
        rank_of(objs, utility) == i,
    decreases objs.len(),
{
    if objs.len() > 0 && i > 0 {
        assert(objs[0].utility >= utility);
        let rest = objs.drop_first();
        assert forall|j: int| 0 <= j < i - 1 implies (#[trigger] rest[j]).utility >= utility by {
            assert(rest[j] == objs[j + 1]);
        }
        rank_is(rest, utility, i - 1);
    }
}

/// What of a buffer is kept, applied and dropped under a context.
pub open spec fn kept_under(ctx: Seq<Literal>, objs: Seq<ObjectView>) -> Seq<ObjectView> {
    objs.filter(|o: ObjectView| classified(ctx, o.assumptions) == ImportAction::Buffer)
}

pub open spec fn applied_under(ctx: Seq<Literal>, objs: Seq<ObjectView>) -> Seq<ObjectView> {
    objs.filter(|o: ObjectView| classified(ctx, o.assumptions) == ImportAction::Apply)
}

pub open spec fn dropped_under(ctx: Seq<Literal>, objs: Seq<ObjectView>) -> Seq<ObjectView> {
    objs.filter(|o: ObjectView| classified(ctx, o.assumptions) == ImportAction::Discard)
}

/// The first objects, up to a number.
pub open spec fn at_most(objs: Seq<ObjectView>, n: usize) -> Seq<ObjectView> {
    if objs.len() <= n {
        objs
    } else {
        objs.take(n as int)
    }
}

pub open spec fn object_views(objs: Seq<KnowledgeObject>) -> Seq<ObjectView> {
    objs.map_values(|o: KnowledgeObject| o@)
}

impl ImportBuffer {
    /// The buffered objects, by descending utility.
    pub closed spec fn objects(&self) -> Seq<ObjectView> {
        entry_views(self.entries@)
    }

    pub closed spec fn capacity(&self) -> usize {
        self.cap
    }

    pub closed spec fn well_formed(&self) -> bool {
        &&& self.objects().len() <= self.cap
        &&& by_utility(self.objects())
        &&& distinct_keys(self.objects())
        &&& forall|i: int|
            0 <= i < self.entries@.len() ==> (#[trigger] self.entries@[i]).key
                == knowledge::key_of(self.entries@[i].obj@)
        &&& forall|k: u64| #[trigger] self.keys@.contains(k) <==> holds_key(self.objects(), k)
    }

    /// What well-formedness says of the buffered objects.
    pub proof fn bounded_and_ordered(&self)
        requires
            self.well_formed(),
        ensures
            self.objects().len() <= self.capacity(),
            by_utility(self.objects()),
            distinct_keys(self.objects()),
    {
    }

    pub fn new(cap: usize) -> (b: Self)
        ensures
            b.well_formed(),
            b.capacity() == cap,
            b.objects() == Seq::<ObjectView>::empty(),
    {
        let b = ImportBuffer { cap, entries: Vec::new(), keys: fx::set_new() };
        assert(b.objects() =~= Seq::<ObjectView>::empty());
        b
    }

    pub fn len(&self) -> (n: usize)
        ensures
            n == self.objects().len(),
    {
        self.entries.len()
    }

    pub fn is_empty(&self) -> (b: bool)
        ensures
            b == (self.objects().len() == 0),
    {
        self.entries.len() == 0
    }

    /// The buffered object at a position.
    pub fn get(&self, i: usize) -> (o: &KnowledgeObject)
        requires
            i < self.objects().len(),
        ensures
            o@ == self.objects()[i as int],
    {
        &self.entries[i].obj
    }

    /// Whether an object with the same canonical conclusion+assumptions is
    /// already buffered.
    pub fn contains_key(&self, key: u64) -> (b: bool)
        requires
            self.well_formed(),
        ensures
            b == holds_key(self.objects(), key),
    {
        fx::set_contains(&self.keys, key)
    }

    /// Insert a conditional knowledge object. If already at capacity, evicts
    /// the entry with the lowest utility (the latest of several). Eviction
    /// only trades which objects are retained.
    pub fn insert(&mut self, obj: KnowledgeObject)
        requires
            old(self).well_formed(),
        ensures
            final(self).well_formed(),
            final(self).capacity() == old(self).capacity(),
            final(self).objects() == buffered(old(self).objects(), old(self).capacity(), obj@),
    {
        let key: u64 = canonical_key(&obj);
        if fx::set_contains(&self.keys, key) {
            return ;
        }
        let ghost before = self.objects();
        let ghost o = obj@;
        let mut pos: usize = 0;
        while pos < self.entries.len() && self.entries[pos].obj.utility >= obj.utility
            invariant
                pos <= self.entries@.len(),
                obj@ == o,
                *self == *old(self),
                before == entry_views(self.entries@),
                forall|j: int| 0 <= j < pos ==> (#[trigger] before[j]).utility >= o.utility,
            decreases self.entries@.len() - pos,
        {
            assert(before[pos as int] == self.entries@[pos as int].obj@);
            pos += 1;
        }
        proof {
            if pos < before.len() {
                assert(before[pos as int] == self.entries@[pos as int].obj@);
            }
            rank_is(before, o.utility, pos as int);
        }
        self.entries.insert(pos, BufEntry { obj, key });
        fx::set_insert(&mut self.keys, key);
        let ghost grown = self.objects();
        proof {
            assert(grown =~= ranked_insert(before, o));
            inserted_ok(before, o, pos as int);
            assert forall|i: int| 0 <= i < self.entries@.len() implies (
            #[trigger] self.entries@[i]).key == knowledge::key_of(self.entries@[i].obj@) by {
                if i < pos {
                    assert(self.entries@[i] == old(self).entries@[i]);
                } else if i > pos {
                    assert(self.entries@[i] == old(self).entries@[i - 1]);
                }
            }
        }
        if self.entries.len() > self.cap {
            let ghost full = self.entries@;
            let last: usize = self.entries.len() - 1;
            let gone: u64 = self.entries[last].key;
            self.entries.pop();
            fx::set_remove(&mut self.keys, gone);
            proof {
                let left = self.objects();
                assert(left =~= grown.drop_last());
                assert(gone == knowledge::key_of(grown.last()));
                assert forall|k: u64| #[trigger] self.keys@.contains(k) <==> holds_key(
                    left,
                    k,
                ) by {
                    if holds_key(left, k) {
                        let i = choose|i: int|
                            0 <= i < left.len() && knowledge::key_of(#[trigger] left[i]) == k;
                        assert(grown[i] == left[i]);
                        assert(grown[last as int] == grown.last());
                    }
                    if holds_key(grown, k) && k != gone {
                        let i = choose|i: int|
                            0 <= i < grown.len() && knowledge::key_of(#[trigger] grown[i]) == k;
                        assert(left[i] == grown[i]);
                    }
                }
                assert(by_utility(left)) by {
                    assert forall|i: int, j: int| 0 <= i <= j < left.len() implies (
                    #[trigger] left[i]).utility >= (#[trigger] left[j]).utility by {
                        assert(left[i] == grown[i] && left[j] == grown[j]);
                    }
                }
                assert(distinct_keys(left)) by {
                    assert forall|i: int, j: int|
                        0 <= i < j < left.len() implies knowledge::key_of(#[trigger] left[i])
                        != knowledge::key_of(#[trigger] left[j]) by {
                        assert(left[i] == grown[i] && left[j] == grown[j]);
                    }
                }
            }
        }
    }

    /// Look at every buffered object again under a (possibly changed) context,
    /// applying the predicate. Returns objects that became applicable and the
    /// number of objects dropped because their assumptions no longer overlap
    /// the context at all. An applicable object beyond the first `max_out`
    /// leaves the buffer without being returned.
    pub fn recheck(&mut self, ctx: &ImportContext, max_out: usize) -> (r: (
        Vec<KnowledgeObject>,
        usize,
    ))
        requires
            old(self).well_formed(),
            ctx.well_formed(),
        ensures
            final(self).well_formed(),
            final(self).capacity() == old(self).capacity(),
            final(self).objects() == kept_under(ctx.lits(), old(self).objects()),
            object_views(r.0@) == at_most(
                applied_under(ctx.lits(), old(self).objects()),
                max_out,
            ),
            r.1 == dropped_under(ctx.lits(), old(self).objects()).len(),
    {
        let ghost all = self.objects();
        let ghost entries0 = self.entries@;
        let ghost c = ctx.lits();
        let mut applied: Vec<KnowledgeObject> = Vec::new();
        let mut dropped: usize = 0;
        let mut keep: Vec<BufEntry> = Vec::new();
        let mut keys: FxHashSet<u64> = fx::set_new();
        let mut entries: Vec<BufEntry> = Vec::new();
        std::mem::swap(&mut entries, &mut self.entries);
        let total: usize = entries.len();
        proof {
            assert(all.take(0) =~= Seq::<ObjectView>::empty());
            reveal(Seq::filter);
            assert(entry_views(keep@) =~= kept_under(c, all.take(0)));
            assert(object_views(applied@) =~= at_most(applied_under(c, all.take(0)), max_out));
        }
        for entry in it: entries
            invariant
                it.seq() == entries0,
                entries0.len() == total,
                all == entry_views(entries0),
                c == ctx.lits(),
                ctx.well_formed(),
                by_utility(all),
                distinct_keys(all),
                forall|i: int|
                    0 <= i < entries0.len() ==> (#[trigger] entries0[i]).key == knowledge::key_of(
                        entries0[i].obj@,
                    ),
                self.cap == old(self).cap,
                entry_views(keep@) == kept_under(c, all.take(it.index() as int)),
                object_views(applied@) == at_most(
                    applied_under(c, all.take(it.index() as int)),
                    max_out,
                ),
                dropped == dropped_under(c, all.take(it.index() as int)).len(),
                dropped <= it.index() <= entries0.len(),
                keep@.len() <= it.index(),
                by_utility(entry_views(keep@)),
                distinct_keys(entry_views(keep@)),
                forall|i: int|
                    0 <= i < keep@.len() ==> {
                        &&& (#[trigger] keep@[i]).key == knowledge::key_of(keep@[i].obj@)
                        &&& exists|m: int|
                            0 <= m < it.index() && #[trigger] all[m] == keep@[i].obj@
                    },
                forall|k: u64| #[trigger]
                    keys@.contains(k) <==> holds_key(entry_views(keep@), k),
        {
            let ghost i = it.index() as int;
            let ghost o = all[i];
            proof {
                assert(entry == entries0[i]);
                assert(o == entry.obj@);
                filter_step(all, |x: ObjectView| classified(c, x.assumptions)
                    == ImportAction::Buffer, i);
                filter_step(all, |x: ObjectView| classified(c, x.assumptions)
                    == ImportAction::Apply, i);
                filter_step(all, |x: ObjectView| classified(c, x.assumptions)
                    == ImportAction::Discard, i);
            }
            match classify_import(ctx, &entry.obj) {
                ImportAction::Apply => {
                    let ghost before = applied@;
                    if applied.len() < max_out {
                        applied.push(entry.obj);
                        assert(object_views(applied@) =~= object_views(before).push(o));
                    }
                    assert(object_views(applied@) =~= at_most(
                        applied_under(c, all.take(i + 1)),
                        max_out,
                    ));
                },
                ImportAction::Buffer => {
                    let ghost before = keep@;
                    fx::set_insert(&mut keys, entry.key);
                    keep.push(entry);
                    proof {
                        kept_grows(before, keep@, all, i);
                    }
                },
                ImportAction::Discard => {
                    dropped += 1;
                },
            }
        }
        assert(all.take(all.len() as int) =~= all);
        self.entries = keep;
        self.keys = keys;
        proof {
            (all).lemma_filter_len(
                |o: ObjectView| classified(c, o.assumptions) == ImportAction::Buffer,
            );
        }
        (applied, dropped)
    }
}

/// Filtering one more element of a sequence.
pub proof fn filter_step(s: Seq<ObjectView>, p: spec_fn(ObjectView) -> bool, i: int)
    requires
        0 <= i < s.len(),
    ensures
        s.take(i + 1).filter(p) == (if p(s[i]) {
            s.take(i).filter(p).push(s[i])
        } else {
            s.take(i).filter(p)
        }),
{
    reveal(Seq::filter);
    assert(s.take(i + 1).drop_last() =~= s.take(i));
    assert(s.take(i + 1).last() == s[i]);
}

/// One more entry is kept.
proof fn kept_grows(before: Seq<BufEntry>, after: Seq<BufEntry>, all: Seq<ObjectView>, i: int)
    requires
        0 <= i < all.len(),
        after.len() == before.len() + 1,
        after.drop_last() =~= before,
        after.last().obj@ == all[i],
        after.last().key == knowledge::key_of(all[i]),
        by_utility(all),
        distinct_keys(all),
        by_utility(entry_views(before)),
        distinct_keys(entry_views(before)),
        forall|k: int|
            0 <= k < before.len() ==> {
                &&& (#[trigger] before[k]).key == knowledge::key_of(before[k].obj@)
                &&& exists|m: int| 0 <= m < i && #[trigger] all[m] == before[k].obj@
            },
    ensures
        entry_views(after) == entry_views(before).push(all[i]),
        by_utility(entry_views(after)),
        distinct_keys(entry_views(after)),
        forall|k: int|
            0 <= k < after.len() ==> {
                &&& (#[trigger] after[k]).key == knowledge::key_of(after[k].obj@)
                &&& exists|m: int| 0 <= m < i + 1 && #[trigger] all[m] == after[k].obj@
            },
        forall|k: u64|
            #[trigger] holds_key(entry_views(after), k) <==> holds_key(entry_views(before), k) || k
                == knowledge::key_of(all[i]),
{
    let n = before.len() as int;
    let a = entry_views(after);
    let b = entry_views(before);
    assert forall|k: int| 0 <= k < n implies after[k] == before[k] by {
        assert(after.drop_last()[k] == before[k]);
    }
    assert(a =~= b.push(all[i]));
    assert forall|k: int| 0 <= k < after.len() implies {
        &&& (#[trigger] after[k]).key == knowledge::key_of(after[k].obj@)
        &&& exists|m: int| 0 <= m < i + 1 && #[trigger] all[m] == after[k].obj@
    } by {
        if k < n {
            assert(after[k] == before[k]);
            let m = choose|m: int| 0 <= m < i && #[trigger] all[m] == before[k].obj@;
            assert(all[m] == after[k].obj@);
        } else {
            assert(all[i] == after[k].obj@);
        }
    }
    assert forall|p: int, q: int| 0 <= p <= q < a.len() implies (#[trigger] a[p]).utility >= (
    #[trigger] a[q]).utility by {
        if q < n {
            assert(a[p] == b[p] && a[q] == b[q]);
        } else if p < n {
            assert(before[p].obj@ == a[p]);
            let m = choose|m: int| 0 <= m < i && #[trigger] all[m] == before[p].obj@;
            assert(all[m].utility >= all[i].utility);
        }
    }
    assert forall|p: int, q: int| 0 <= p < q < a.len() implies knowledge::key_of(#[trigger] a[p])
        != knowledge::key_of(#[trigger] a[q]) by {
        if q < n {
            assert(a[p] == b[p] && a[q] == b[q]);
        } else {
            assert(before[p].obj@ == a[p]);
            let m = choose|m: int| 0 <= m < i && #[trigger] all[m] == before[p].obj@;
            assert(knowledge::key_of(all[m]) != knowledge::key_of(all[i]));
        }
    }
    assert forall|k: u64| #[trigger] holds_key(a, k) <==> holds_key(b, k) || k
        == knowledge::key_of(all[i]) by {
        if holds_key(b, k) {
            let j = choose|j: int| 0 <= j < b.len() && knowledge::key_of(#[trigger] b[j]) == k;
            assert(a[j] == b[j]);
        }
        assert(a[n] == all[i]);
        if holds_key(a, k) && k != knowledge::key_of(all[i]) {
            let j = choose|j: int| 0 <= j < a.len() && knowledge::key_of(#[trigger] a[j]) == k;
            assert(b[j] == a[j]);
        }
    }
}

/// Inserting an object with a new key behind those of at least its utility
/// keeps the order and the keys.
proof fn inserted_ok(objs: Seq<ObjectView>, o: ObjectView, pos: int)
    requires
        by_utility(objs),
        distinct_keys(objs),
        !holds_key(objs, knowledge::key_of(o)),
        0 <= pos <= objs.len(),
        rank_of(objs, o.utility) == pos,
        forall|j: int| 0 <= j < pos ==> (#[trigger] objs[j]).utility >= o.utility,
        pos < objs.len() ==> objs[pos].utility < o.utility,
    ensures
        by_utility(ranked_insert(objs, o)),
        distinct_keys(ranked_insert(objs, o)),
        forall|k: u64|
            #[trigger] holds_key(ranked_insert(objs, o), k) <==> holds_key(objs, k) || k
                == knowledge::key_of(o),
{
    let a = ranked_insert(objs, o);
    assert forall|p: int| 0 <= p < a.len() implies #[trigger] a[p] == (if p < pos {
        objs[p]
    } else if p == pos {
        o
    } else {
        objs[p - 1]
    }) by {}
    assert forall|p: int, q: int| 0 <= p <= q < a.len() implies (#[trigger] a[p]).utility >= (
    #[trigger] a[q]).utility by {
        if q > pos {
            assert(objs[pos].utility >= objs[q - 1].utility);
        }
    }
    assert forall|p: int, q: int| 0 <= p < q < a.len() implies knowledge::key_of(#[trigger] a[p])
        != knowledge::key_of(#[trigger] a[q]) by {
        let i = if p < pos {
            p
        } else {
            p - 1
        };
        let j = if q < pos {
            q
        } else {
            q - 1
        };
        if p == pos {
            assert(knowledge::key_of(objs[j]) != knowledge::key_of(o));
        } else if q == pos {
            assert(knowledge::key_of(objs[i]) != knowledge::key_of(o));
        } else {
            assert(knowledge::key_of(objs[i]) != knowledge::key_of(objs[j]));
        }
    }
    assert forall|k: u64| #[trigger] holds_key(a, k) <==> holds_key(objs, k) || k
        == knowledge::key_of(o) by {
        if holds_key(objs, k) {
            let j = choose|j: int|
                0 <= j < objs.len() && knowledge::key_of(#[trigger] objs[j]) == k;
            let p = if j < pos {
                j
            } else {
                j + 1
            };
            assert(a[p] == objs[j]);
        }
        assert(a[pos] == o);
        if holds_key(a, k) && k != knowledge::key_of(o) {
            let p = choose|p: int| 0 <= p < a.len() && knowledge::key_of(#[trigger] a[p]) == k;
            let j = if p < pos {
                p
            } else {
                p - 1
            };
            assert(objs[j] == a[p]);
        }
    }
}

// ---------------------------------------------------------------------------
// The import gate
// ---------------------------------------------------------------------------

/// The import gate: the component every worker uses to receive knowledge.
///
/// It holds the worker's current context, applies the import predicate
/// (through an optional Bloom pre-filter), deduplicates via `canonical_key`,
/// and keeps a bounded utility-ordered buffer of conditional knowledge.
pub struct ImportGate {
    ctx: ImportContext,
    policy: ImportPolicy,
    buffer: ImportBuffer,
    seen: FxHashSet<u64>,
    /// Optional Bloom pre-filter over `ctx`. Rebuilt on `set_context`.
    /// `None` disables the optimization (pure exact predicate).
    prefilter: Option<BloomFilter>,
    /// Bits per context literal and hash functions of the pre-filter.
    bits_per_literal: usize,
    num_hashes: u32,
}

/// What of an import gate decides its behaviour. The pre-filter is not part
/// of it: it never changes a decision.
#[verifier::ext_equal]
pub struct GateView {
    pub ctx: Seq<Literal>,
    pub policy: ImportPolicy,
    pub capacity: usize,
    pub buffer: Seq<ObjectView>,
    pub seen: Set<u64>,
}

/// The keys of applied objects after the first `n` of some more.
pub open spec fn seen_after(seen: Set<u64>, objs: Seq<ObjectView>, n: int) -> Set<u64>
    decreases n,
{
    if n <= 0 {
        seen
    } else {
        seen_after(seen, objs, n - 1).insert(knowledge::key_of(objs[n - 1]))
    }
}

proof fn seen_has(seen: Set<u64>, objs: Seq<ObjectView>, n: int, i: int)
    requires
        0 <= i < n,
    ensures
        seen_after(seen, objs, n).contains(knowledge::key_of(objs[i])),
    decreases n,
{
    if i < n - 1 {
        seen_has(seen, objs, n - 1, i);
    }
}

/// The objects that a change of context makes applicable.
pub open spec fn released(g: GateView, ctx: Seq<Literal>) -> Seq<ObjectView> {
    at_most(applied_under(ctx, g.buffer), g.policy.max_items)
}

/// The import gate after a change of context. What it releases counts as
/// applied.
pub open spec fn in_context(g: GateView, ctx: Seq<Literal>) -> GateView {
    let out = released(g, ctx);
    GateView {
        ctx,
        buffer: kept_under(ctx, g.buffer),
        seen: seen_after(g.seen, out, out.len() as int),
        ..g
    }
}

/// The decision on an object and the import gate after it.
pub open spec fn submitted(g: GateView, o: ObjectView) -> (GateView, ImportDecision) {
    let key = knowledge::key_of(o);
    if o.utility < g.policy.min_utility {
        (g, ImportDecision::DiscardedLowUtility)
    } else if g.seen.contains(key) {
        (g, ImportDecision::Duplicate)
    } else {
        match classified(g.ctx, o.assumptions) {
            ImportAction::Apply => (
                GateView { seen: g.seen.insert(key), ..g },
                ImportDecision::Applied,
            ),
            ImportAction::Buffer => if g.policy.max_items == 0 {
                (g, ImportDecision::DiscardedNoOverlap)
            } else {
                (
                    GateView { buffer: buffered(g.buffer, g.capacity, o), ..g },
                    ImportDecision::Buffered,
                )
            },
            ImportAction::Discard => (g, ImportDecision::DiscardedNoOverlap),
        }
    }
}

/// The import gate after the first `n` objects of a batch.
pub open spec fn after_batch(g: GateView, batch: Seq<ObjectView>, n: int) -> GateView
    decreases n,
{
    if n <= 0 {
        g
    } else {
        submitted(after_batch(g, batch, n - 1), batch[n - 1]).0
    }
}

/// The decision on the object at position `i` of a batch.
pub open spec fn decision_at(g: GateView, batch: Seq<ObjectView>, i: int) -> ImportDecision {
    submitted(after_batch(g, batch, i), batch[i]).1
}

impl ImportGate {
    pub closed spec fn view(&self) -> GateView {
        GateView {
            ctx: self.ctx.lits(),
            policy: self.policy,
            capacity: self.buffer.capacity(),
            buffer: self.buffer.objects(),
            seen: self.seen@,
        }
    }

    pub closed spec fn well_formed(&self) -> bool {
        &&& self.ctx.well_formed()
        &&& self.buffer.well_formed()
        &&& self.prefilter matches Some(b) ==> b.well_formed() && forall|k: int|
            0 <= k < self.ctx.lits().len() ==> b.maybe(#[trigger] self.ctx.lits()[k])
    }

    pub fn new(policy: ImportPolicy) -> (g: Self)
        ensures
            g.well_formed(),
            g@ == (GateView {
                ctx: Seq::empty(),
                policy,
                capacity: if policy.buffer_capacity == 0 {
                    1
                } else {
                    policy.buffer_capacity
                },
                buffer: Seq::empty(),
                seen: Set::empty(),
            }),
    {
        let cap: usize = if policy.buffer_capacity == 0 {
            1
        } else {
            policy.buffer_capacity
        };
        let g = ImportGate {
            ctx: ImportContext::new(),
            policy,
            buffer: ImportBuffer::new(cap),
            seen: fx::set_new(),
            prefilter: None,
            bits_per_literal: 1,
            num_hashes: 1,
        };
        assert(g@.ctx =~= Seq::<Literal>::empty());
        g
    }

    /// As [`ImportGate::new`], but with a Bloom pre-filter sized at roughly
    /// `bits_per_ctx_literal` bits per context literal.
    pub fn with_bloom(policy: ImportPolicy, bits_per_ctx_literal: usize, num_hashes: u32) -> (g:
        Self)
        ensures
            g.well_formed(),
            g@ == (GateView {
                ctx: Seq::empty(),
                policy,
                capacity: if policy.buffer_capacity == 0 {
                    1
                } else {
                    policy.buffer_capacity
                },
                buffer: Seq::empty(),
                seen: Set::empty(),
            }),
    {
        let mut g = ImportGate::new(policy);
        let bits: usize = if bits_per_ctx_literal == 0 {
            1
        } else {
            bits_per_ctx_literal
        };
        g.prefilter = Some(BloomFilter::new(bits, num_hashes));
        g.bits_per_literal = bits;
        g.num_hashes = num_hashes;
        g
    }

    pub fn context(&self) -> (c: &ImportContext)
        requires
            self.well_formed(),
        ensures
            c.well_formed(),
            c.lits() == self@.ctx,
    {
        &self.ctx
    }

    /// The buffer of conditional knowledge.
    pub fn buffer(&self) -> (b: &ImportBuffer)
        requires
            self.well_formed(),
        ensures
            b.well_formed(),
            b.objects() == self@.buffer,
    {
        &self.buffer
    }

    /// Replace the worker's active assumption context and look at the buffer
    /// again. Returns objects that became applicable under the new context.
    pub fn set_context(&mut self, lits: &[Literal]) -> (out: Vec<KnowledgeObject>)
        requires
            old(self).well_formed(),
        ensures
            final(self).well_formed(),
            final(self)@ == in_context(old(self)@, sorted_form(lits@)),
            object_views(out@) == released(old(self)@, sorted_form(lits@)),
    {
        self.ctx = ImportContext::from_assumptions(lits);
        if self.prefilter.is_some() {
            let len: usize = self.ctx.literals().len();
            let bits: usize = match self.bits_per_literal.checked_mul(len) {
                Some(n) => if n == 0 {
                    self.bits_per_literal
                } else {
                    n
                },
                None => self.bits_per_literal,
            };
            self.prefilter = Some(BloomFilter::over(self.ctx.literals(), bits, self.num_hashes));
        }
        let max_out: usize = self.policy.max_items;
        let (applied, _dropped) = self.buffer.recheck(&self.ctx, max_out);
        let ghost out = object_views(applied@);
        let mut i: usize = 0;
        while i < applied.len()
            invariant
                i <= applied@.len(),
                out == object_views(applied@),
                self.well_formed(),
                self@ == (GateView {
                    seen: seen_after(old(self)@.seen, out, i as int),
                    ..in_context(old(self)@, sorted_form(lits@))
                }),
            decreases applied@.len() - i,
        {
            assert(out[i as int] == applied@[i as int]@);
            fx::set_insert(&mut self.seen, canonical_key(&applied[i]));
            i += 1;
        }
        applied
    }

    /// Submit a batch of knowledge to the import gate. Applies the import predicate to
    /// each item and buffers partial-overlap items within bounds.
    pub fn submit(&mut self, batch: &[KnowledgeObject]) -> (out: Vec<ImportDecision>)
        requires
            old(self).well_formed(),
        ensures
            final(self).well_formed(),
            out@.len() == batch@.len(),
            forall|i: int|
                0 <= i < batch@.len() ==> #[trigger] out@[i] == decision_at(
                    old(self)@,
                    object_views(batch@),
                    i,
                ),
            final(self)@ == after_batch(
                old(self)@,
                object_views(batch@),
                batch@.len() as int,
            ),
    {
        let ghost all = object_views(batch@);
        let mut out: Vec<ImportDecision> = Vec::new();
        let mut i: usize = 0;
        while i < batch.len()
            invariant
                i <= batch@.len(),
                all == object_views(batch@),
                self.well_formed(),
                out@.len() == i,
                self@ == after_batch(old(self)@, all, i as int),
                forall|k: int|
                    0 <= k < i ==> #[trigger] out@[k] == decision_at(old(self)@, all, k),
            decreases batch@.len() - i,
        {
            assert(all[i as int] == batch@[i as int]@);
            let d: ImportDecision = self.submit_one(&batch[i]);
            out.push(d);
            i += 1;
        }
        out
    }

    /// Which objects of a batch would be applied if it were submitted.
    pub fn foresee(&self, batch: &[KnowledgeObject]) -> (out: Vec<bool>)
        requires
            self.well_formed(),
        ensures
            out@.len() == batch@.len(),
            forall|i: int|
                0 <= i < batch@.len() ==> #[trigger] out@[i] == (decision_at(
                    self@,
                    object_views(batch@),
                    i,
                ) == ImportDecision::Applied),
    {
        let ghost all = object_views(batch@);
        let ghost g = self@;
        let mut out: Vec<bool> = Vec::new();
        let mut fresh = fx::set_new();
        let mut i: usize = 0;
        assert(g.seen =~= g.seen.union(fresh@));
        while i < batch.len()
            invariant
                i <= batch@.len(),
                all == object_views(batch@),
                g == self@,
                self.well_formed(),
                out@.len() == i,
                after_batch(g, all, i as int).seen == g.seen.union(fresh@),
                after_batch(g, all, i as int).ctx == g.ctx,
                after_batch(g, all, i as int).policy == g.policy,
                forall|k: int|
                    0 <= k < i ==> #[trigger] out@[k] == (decision_at(g, all, k)
                        == ImportDecision::Applied),
            decreases batch@.len() - i,
        {
            let obj: &KnowledgeObject = &batch[i];
            assert(all[i as int] == obj@);
            let mut applied: bool = false;
            if obj.utility >= self.policy.min_utility {
                let key: u64 = canonical_key(obj);
                if !fx::set_contains(&self.seen, key) && !fx::set_contains(&fresh, key) {
                    if let ImportAction::Apply = classify_import(&self.ctx, obj) {
                        applied = true;
                        let ghost before = fresh@;
                        fx::set_insert(&mut fresh, key);
                        assert(g.seen.union(before).insert(key) =~= g.seen.union(fresh@));
                    }
                }
            }
            out.push(applied);
            i += 1;
        }
        out
    }

    fn submit_one(&mut self, obj: &KnowledgeObject) -> (d: ImportDecision)
        requires
            old(self).well_formed(),
        ensures
            final(self).well_formed(),
            (final(self)@, d) == submitted(old(self)@, obj@),
    {
        if obj.utility < self.policy.min_utility {
            return ImportDecision::DiscardedLowUtility;
        }
        let key: u64 = canonical_key(obj);
        if fx::set_contains(&self.seen, key) {
            return ImportDecision::Duplicate;
        }
        // A "definitely absent" assumption literal proves that the context
        // does not hold all assumptions, so the exact merge may be skipped.
        // Whether the object still overlaps the context is another question.
        let non_subset: bool = !obj.is_unconditional() && match &self.prefilter {
            Some(b) => !b.maybe_contains_all(obj.assumptions.as_slice()),
            None => false,
        };
        proof {
            if non_subset && subset(obj@.assumptions, self.ctx.lits()) {
                crate::akx::filter::bloom_never_false_negative(
                    self.prefilter->0,
                    self.ctx.lits(),
                    obj@.assumptions,
                );
            }
        }
        match classify_import_with(&self.ctx, obj, non_subset) {
            ImportAction::Apply => {
                fx::set_insert(&mut self.seen, key);
                ImportDecision::Applied
            },
            ImportAction::Buffer => {
                if self.policy.max_items == 0 {
                    return ImportDecision::DiscardedNoOverlap;
                }
                self.buffer.insert(obj.clone());
                ImportDecision::Buffered
            },
            ImportAction::Discard => ImportDecision::DiscardedNoOverlap,
        }
    }

    pub fn buffer_len(&self) -> (n: usize)
        ensures
            n == self@.buffer.len(),
    {
        self.buffer.len()
    }
}

/// An object that was applied is not applied again: with the same key it is a
/// duplicate from then on.
pub proof fn applied_once(g: GateView, a: ObjectView, b: ObjectView)
    requires
        submitted(g, a).1 == ImportDecision::Applied,
        knowledge::key_of(a) == knowledge::key_of(b),
        b.utility >= g.policy.min_utility,
    ensures
        submitted(submitted(g, a).0, b).1 == ImportDecision::Duplicate,
{
}

/// An object that a change of context released is not applied again either.
pub proof fn released_once(g: GateView, ctx: Seq<Literal>, i: int, b: ObjectView)
    requires
        0 <= i < released(g, ctx).len(),
        knowledge::key_of(released(g, ctx)[i]) == knowledge::key_of(b),
        b.utility >= g.policy.min_utility,
    ensures
        submitted(in_context(g, ctx), b).1 == ImportDecision::Duplicate,
{
    let out = released(g, ctx);
    seen_has(g.seen, out, out.len() as int, i);
}

/// Only what the predicate admits is applied.
pub proof fn applied_only_in_context(g: GateView, o: ObjectView)
    ensures
        submitted(g, o).1 == ImportDecision::Applied ==> subset(o.assumptions, g.ctx),
{
}

} // verus!
