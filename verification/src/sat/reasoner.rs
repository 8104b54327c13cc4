//! The exchange-model reasoner around the CDCL solver.
//!
//! A [`CdclReasoner`] is bound to one work unit. Every imported object passes
//! through the import gate, so only knowledge whose assumptions lie in the
//! worker's context is applied, and exported clauses are tagged with that
//! context.

use vstd::prelude::*;

use crate::akx::import::{ImportDecision, ImportGate};
use crate::akx::knowledge::{
    ClauseKnowledge, KnowledgeId, KnowledgeKind, KnowledgeKindTag, KnowledgeObject, Scope,
    TrustLevel, Utility, UTILITY_ONE,
};
use crate::akx::literal::Literal;
use crate::akx::litvec::LitVec;
use crate::akx::policy::{ExportPolicy, ImportPolicy};
use crate::akx::reasoner::{
    Capabilities, Checkpoint, HardwareClass, ImportStats, KnowledgeBatch, Reasoner, ReasonerError,
    ReasonerEvent, ReasonerId, WorkerId,
};
use crate::akx::stop::Stop;
use crate::akx::tagvec::TagVec;
use crate::akx::work::{CubePath, PartialModel, Priority, ProblemId, WorkBudget, WorkUnit};
use crate::clock;
use crate::sat::cdcl::{CdclSolver, SolveResult};
use crate::sat::clause::FIRST_SENTINEL;
use crate::sat::model::Model;
use crate::shared::share;
use std::sync::atomic::AtomicBool;
use std::sync::Arc;
use std::time::Instant;
#[allow(unused_imports)]
use crate::akx::import;
#[allow(unused_imports)]
use crate::akx::import::GateView;
#[allow(unused_imports)]
use crate::akx::knowledge;
#[allow(unused_imports)]
use crate::akx::knowledge::{KindView, ObjectView};
#[allow(unused_imports)]
use crate::akx::logic;
#[allow(unused_imports)]
use crate::akx::stop;
#[allow(unused_imports)]
use crate::akx::stop::Source;
#[allow(unused_imports)]
use crate::akx::work::UnitView;
#[allow(unused_imports)]
use crate::sat::cdcl;
#[allow(unused_imports)]
use crate::sat::state;
#[allow(unused_imports)]
use crate::sat::trace;

verus! {

/// Size of the identifier domain of a single worker: knowledge identifiers
/// never collide across workers because each worker's live in its own high word.
pub const KID_WORD: u64 = 0x1_0000_0000;

/// The first knowledge identifier of a worker.
pub open spec fn first_kid(worker: WorkerId) -> int {
    worker.0 * KID_WORD + 1
}

/// Estimate the utility of a learned clause from its LBD, `1 / (1 + lbd)`.
/// Lower LBD = more useful.
pub fn utility_of(lbd: u32) -> (u: Utility)
    ensures
        u == UTILITY_ONE as int / (1 + lbd),
        u <= UTILITY_ONE,
{
    let d: u64 = 1 + lbd as u64;
    let q: u64 = UTILITY_ONE as u64 / d;
    assert(q <= UTILITY_ONE) by (nonlinear_arith)
        requires
            d >= 1,
            q == UTILITY_ONE as u64 / d,
    ;
    q as u32
}

/// The utility of a clause with a given LBD, in contracts.
pub open spec fn utility_for(lbd: u32) -> Utility {
    (UTILITY_ONE as int / (1 + lbd)) as u32
}

/// A lower LBD never gives a lower utility.
pub proof fn utility_is_antitone(a: u32, b: u32)
    requires
        a <= b,
    ensures
        UTILITY_ONE as int / (1 + a) >= UTILITY_ONE as int / (1 + b),
{
    vstd::arithmetic::div_mod::lemma_div_is_ordered_by_denominator(
        UTILITY_ONE as int,
        1 + a,
        1 + b,
    );
}

/// The knowledge object for a learned clause: a claim under the whole context.
pub open spec fn tagged(
    entry: (Vec<Literal>, u32),
    ctx: Seq<Literal>,
    worker: WorkerId,
    id: u64,
) -> ObjectView {
    ObjectView {
        id: KnowledgeId(id),
        kind: KindView::Clause { literals: import::sorted_form(entry.0@), lbd: entry.1 },
        assumptions: ctx,
        scope: Scope::Process,
        trust: TrustLevel::Trusted,
        utility: utility_for(entry.1),
        proof_ref: None,
        source: worker.0,
    }
}

/// The knowledge objects for learned clauses, numbered upwards from `id`.
pub open spec fn tagged_all(
    entries: Seq<(Vec<Literal>, u32)>,
    ctx: Seq<Literal>,
    worker: WorkerId,
    id: u64,
) -> Seq<ObjectView> {
    Seq::new(entries.len(), |i: int| tagged(entries[i], ctx, worker, (id + i) as u64))
}

/// The objects past a policy's watermark.
pub open spec fn past_watermark(p: ExportPolicy, objs: Seq<ObjectView>) -> Seq<ObjectView> {
    objs.filter(|o: ObjectView| o.id.0 > p.watermark.0)
}

/// Whether a policy lets an object out.
pub open spec fn admits(p: ExportPolicy, o: ObjectView) -> bool {
    &&& o.utility >= p.min_utility
    &&& knowledge::scope_rank(o.scope) <= knowledge::scope_rank(p.max_scope)
    &&& p.kind_filter@.len() == 0 || p.kind_filter@.contains(knowledge::tag_of(o.kind))
}

/// What an export hands out and what it keeps for later: admitted objects go
/// out until there are `max_items` of them, the objects after that are kept.
pub open spec fn export_split(p: ExportPolicy, objs: Seq<ObjectView>) -> (
    Seq<ObjectView>,
    Seq<ObjectView>,
)
    decreases objs.len(),
{
    if objs.len() == 0 {
        (Seq::empty(), Seq::empty())
    } else {
        let (out, kept) = export_split(p, objs.drop_last());
        let o = objs.last();
        if out.len() >= p.max_items {
            (out, kept.push(o))
        } else if admits(p, o) {
            (out.push(o), kept)
        } else {
            (out, kept)
        }
    }
}

/// Everything exported is admitted by the policy and past its watermark, and
/// there are at most `max_items` objects.
pub proof fn export_respects_policy(p: ExportPolicy, objs: Seq<ObjectView>)
    ensures
        export_split(p, past_watermark(p, objs)).0.len() <= p.max_items,
        forall|i: int|
            0 <= i < export_split(p, past_watermark(p, objs)).0.len() ==> admits(
                p,
                #[trigger] export_split(p, past_watermark(p, objs)).0[i],
            ) && export_split(p, past_watermark(p, objs)).0[i].id.0 > p.watermark.0,
{
    let fresh = past_watermark(p, objs);
    split_facts(p, fresh);
    let out = export_split(p, fresh).0;
    assert forall|i: int| 0 <= i < out.len() implies admits(p, #[trigger] out[i])
        && out[i].id.0 > p.watermark.0 by {
        let k = choose|k: int| 0 <= k < fresh.len() && fresh[k] == out[i];
        broadcast use vstd::seq_lib::group_filter_ensures;

        assert((|o: ObjectView| o.id.0 > p.watermark.0)(fresh[k]));
    }
}

proof fn split_facts(p: ExportPolicy, objs: Seq<ObjectView>)
    ensures
        export_split(p, objs).0.len() <= p.max_items,
        forall|i: int|
            0 <= i < export_split(p, objs).0.len() ==> admits(
                p,
                #[trigger] export_split(p, objs).0[i],
            ) && objs.contains(export_split(p, objs).0[i]),
    decreases objs.len(),
{
    if objs.len() > 0 {
        let prev = export_split(p, objs.drop_last()).0;
        split_facts(p, objs.drop_last());
        let out = export_split(p, objs).0;
        assert forall|i: int| 0 <= i < out.len() implies admits(p, #[trigger] out[i])
            && objs.contains(out[i]) by {
            if i < prev.len() {
                assert(out[i] == prev[i]);
                let k = choose|k: int|
                    0 <= k < objs.drop_last().len() && objs.drop_last()[k] == prev[i];
                assert(objs[k] == out[i]);
            } else {
                assert(objs[objs.len() - 1] == out[i]);
            }
        }
    }
}

/// Whether an applied object can be used: every kind but clauses is accepted
/// as it is, a clause only if it speaks of the problem's variables.
pub open spec fn usable(n: u32, k: KindView) -> bool {
    k matches KindView::Clause { literals, .. } ==> state::lits_ok(n, literals)
}

/// The import statistics after one more decision.
pub open spec fn tallied(s: ImportStats, d: ImportDecision, fits: bool) -> ImportStats {
    match d {
        ImportDecision::Applied => if fits {
            ImportStats { applied: (s.applied + 1) as u32, ..s }
        } else {
            ImportStats { discarded_no_overlap: (s.discarded_no_overlap + 1) as u32, ..s }
        },
        ImportDecision::Buffered => ImportStats { buffered: (s.buffered + 1) as u32, ..s },
        ImportDecision::Duplicate => ImportStats {
            discarded_duplicate: (s.discarded_duplicate + 1) as u32,
            ..s
        },
        ImportDecision::DiscardedNoOverlap => ImportStats {
            discarded_no_overlap: (s.discarded_no_overlap + 1) as u32,
            ..s
        },
        ImportDecision::DiscardedLowUtility => ImportStats {
            discarded_no_overlap: (s.discarded_no_overlap + 1) as u32,
            ..s
        },
    }
}

/// The statistics after the first `i` objects of a batch.
pub open spec fn stats_after(g: GateView, n: u32, batch: Seq<ObjectView>, i: int) -> ImportStats
    decreases i,
{
    if i <= 0 {
        ImportStats {
            received: batch.len() as u32,
            applied: 0,
            buffered: 0,
            discarded_no_overlap: 0,
            discarded_duplicate: 0,
        }
    } else {
        tallied(
            stats_after(g, n, batch, i - 1),
            import::decision_at(g, batch, i - 1),
            usable(n, batch[i - 1].kind),
        )
    }
}

/// Whether the object at position `i` of a batch takes effect.
pub open spec fn takes_effect(g: GateView, n: u32, batch: Seq<ObjectView>, i: int) -> bool {
    import::decision_at(g, batch, i) == ImportDecision::Applied && usable(n, batch[i].kind)
}

/// The clauses that take effect among the first `i` objects of a batch.
pub open spec fn clauses_after(g: GateView, n: u32, batch: Seq<ObjectView>, i: int) -> Seq<
    Seq<Literal>,
>
    decreases i,
{
    if i <= 0 {
        Seq::empty()
    } else {
        let before = clauses_after(g, n, batch, i - 1);
        match batch[i - 1].kind {
            KindView::Clause { literals, .. } => if takes_effect(g, n, batch, i - 1) {
                before.push(literals)
            } else {
                before
            },
            _ => before,
        }
    }
}

/// The clauses that take effect take no more references than there are objects.
proof fn references_bounded(g: GateView, n: u32, batch: Seq<ObjectView>, i: int)
    requires
        0 <= i <= batch.len(),
    ensures
        cdcl::references(clauses_after(g, n, batch, i)) <= i,
    decreases i,
{
    if i > 0 {
        references_bounded(g, n, batch, i - 1);
        if let KindView::Clause { literals, .. } = batch[i - 1].kind {
            cdcl::references_push(clauses_after(g, n, batch, i - 1), literals);
        }
    }
}

/// The highest identifier applied after the first `i` objects of a batch.
pub open spec fn watermark_after(
    g: GateView,
    n: u32,
    batch: Seq<ObjectView>,
    i: int,
    start: u64,
) -> u64
    decreases i,
{
    if i <= 0 {
        start
    } else {
        let before = watermark_after(g, n, batch, i - 1, start);
        if takes_effect(g, n, batch, i - 1) && batch[i - 1].id.0 > before {
            batch[i - 1].id.0
        } else {
            before
        }
    }
}

/// What a partial model says: a value for each variable of the solver's model.
pub open spec fn partial_of(m: Model) -> Seq<Option<bool>> {
    Seq::new(
        m.values().len(),
        |v: int| Some(if v == 0 { false } else { m.values()[v] }),
    )
}

/// A learned clause is a claim under the context: if every imported clause
/// follows from the formula and the context, then so does everything that
/// follows from the formula together with the imported clauses.
pub proof fn learned_under_context(
    f: Seq<Seq<Literal>>,
    imported: Seq<Seq<Literal>>,
    ctx: Seq<Literal>,
    clause: Seq<Literal>,
)
    requires
        forall|i: int, val: logic::Valuation|
            0 <= i < imported.len() && logic::formula_holds(val, f) && logic::all_hold(val, ctx)
                ==> #[trigger] logic::clause_holds(val, imported[i]),
        logic::entails(f + imported, clause),
    ensures
        forall|val: logic::Valuation|
            #[trigger] logic::formula_holds(val, f) && logic::all_hold(val, ctx)
                ==> logic::clause_holds(val, clause),
{
    assert forall|val: logic::Valuation|
        #[trigger] logic::formula_holds(val, f) && logic::all_hold(
            val,
            ctx,
        ) implies logic::clause_holds(val, clause) by {
        let all = f + imported;
        assert forall|i: int| 0 <= i < all.len() implies logic::clause_holds(
            val,
            #[trigger] all[i],
        ) by {
            if i < f.len() {
                assert(all[i] == f[i]);
            } else {
                assert(all[i] == imported[i - f.len()]);
                assert(logic::clause_holds(val, imported[i - f.len()]));
            }
        }
        assert(logic::formula_holds(val, all));
    }
}

/// A clause that follows from the formula, as a claim under the context.
pub open spec fn rightly_claimed(
    f: Seq<Seq<Literal>>,
    ctx: Seq<Literal>,
    o: ObjectView,
) -> bool {
    &&& o.kind matches KindView::Clause { literals, .. } && logic::entails(f, literals)
    &&& o.assumptions == ctx
}

pub open spec fn all_rightly_claimed(
    f: Seq<Seq<Literal>>,
    ctx: Seq<Literal>,
    objs: Seq<ObjectView>,
) -> bool {
    forall|i: int| 0 <= i < objs.len() ==> rightly_claimed(f, ctx, #[trigger] objs[i])
}

/// Exports are sound: if every imported clause follows from the formula that
/// the solver was given and the context, then so does every exported clause
/// from that formula and the assumptions that it is claimed under.
pub proof fn exports_are_sound(
    base: Seq<Seq<Literal>>,
    imported: Seq<Seq<Literal>>,
    ctx: Seq<Literal>,
    objs: Seq<ObjectView>,
    i: int,
    val: logic::Valuation,
)
    requires
        forall|k: int, v: logic::Valuation|
            0 <= k < imported.len() && logic::formula_holds(v, base) && logic::all_hold(v, ctx)
                ==> #[trigger] logic::clause_holds(v, imported[k]),
        all_rightly_claimed(base + imported, ctx, objs),
        0 <= i < objs.len(),
        logic::formula_holds(val, base),
        logic::all_hold(val, objs[i].assumptions),
    ensures
        objs[i].kind matches KindView::Clause { literals, .. } && logic::clause_holds(
            val,
            literals,
        ),
{
    assert(rightly_claimed(base + imported, ctx, objs[i]));
    if let KindView::Clause { literals, .. } = objs[i].kind {
        learned_under_context(base, imported, ctx, literals);
    }
}

/// What follows from a formula follows from it with more clauses.
proof fn entails_more(f: Seq<Seq<Literal>>, g: Seq<Seq<Literal>>, c: Seq<Literal>)
    requires
        logic::entails(f, c),
        f.is_prefix_of(g),
    ensures
        logic::entails(g, c),
{
    assert forall|val: logic::Valuation| #[trigger] logic::formula_holds(val, g) implies
        logic::clause_holds(val, c) by {
        assert forall|i: int| 0 <= i < f.len() implies logic::clause_holds(
            val,
            #[trigger] f[i],
        ) by {
            assert(g[i] == f[i]);
        }
        assert(logic::formula_holds(val, f));
    }
}

/// The objects that an export hands out and keeps are among those it had.
proof fn split_claims(
    f: Seq<Seq<Literal>>,
    ctx: Seq<Literal>,
    p: ExportPolicy,
    objs: Seq<ObjectView>,
)
    requires
        all_rightly_claimed(f, ctx, objs),
    ensures
        all_rightly_claimed(f, ctx, export_split(p, objs).0),
        all_rightly_claimed(f, ctx, export_split(p, objs).1),
    decreases objs.len(),
{
    if objs.len() > 0 {
        assert(rightly_claimed(f, ctx, objs[objs.len() - 1]));
        assert(all_rightly_claimed(f, ctx, objs.drop_last())) by {
            assert forall|i: int| 0 <= i < objs.len() - 1 implies rightly_claimed(
                f,
                ctx,
                #[trigger] objs.drop_last()[i],
            ) by {
                assert(objs.drop_last()[i] == objs[i]);
            }
        }
        split_claims(f, ctx, p, objs.drop_last());
    }
}

proof fn fresh_claims(
    f: Seq<Seq<Literal>>,
    ctx: Seq<Literal>,
    p: ExportPolicy,
    objs: Seq<ObjectView>,
)
    requires
        all_rightly_claimed(f, ctx, objs),
    ensures
        all_rightly_claimed(f, ctx, past_watermark(p, objs)),
    decreases objs.len(),
{
    reveal(Seq::filter);
    if objs.len() > 0 {
        let rest = objs.drop_last();
        assert(rightly_claimed(f, ctx, objs[objs.len() - 1]));
        assert forall|i: int| 0 <= i < rest.len() implies rightly_claimed(
            f,
            ctx,
            #[trigger] rest[i],
        ) by {
            assert(rest[i] == objs[i]);
        }
        fresh_claims(f, ctx, p, rest);
    }
}

/// A sorted clause says the same.
proof fn sorted_claim(f: Seq<Seq<Literal>>, c: Seq<Literal>, sorted: Seq<Literal>)
    requires
        logic::entails(f, c),
        import::same_literals(sorted, c),
    ensures
        logic::entails(f, sorted),
{
    assert forall|val: logic::Valuation| #[trigger] logic::formula_holds(val, f) implies
        logic::clause_holds(val, sorted) by {
        assert forall|i: int| 0 <= i < c.len() implies sorted.contains(#[trigger] c[i]) by {
            assert(c.contains(c[i]));
        }
        logic::clause_holds_subset(val, c, sorted);
    }
}

/// Reasoner over the CDCL solver.
///
/// `step` runs the solver under the work unit's assumptions for one conflict
/// budget and returns [`ReasonerEvent::Progress`] at chunk boundaries so the
/// scheduler can export newly learned clauses. `export` returns only objects
/// with `id > policy.watermark`.
pub struct CdclReasoner {
    id: ReasonerId,
    worker_id: WorkerId,
    solver: CdclSolver,
    work: WorkUnit,
    /// The import gate; its context is the sorted assumptions of `work`.
    gate: ImportGate,
    /// Knowledge produced by `step` but not yet exported.
    pending: Vec<KnowledgeObject>,
    /// Next knowledge identifier to assign to an exported object.
    next_kid: u64,
    /// Highest identifier that has been applied through `import`.
    max_imported_id: u64,
    /// The formula that the solver was given.
    base: Ghost<Seq<Seq<Literal>>>,
    /// The clauses imported since.
    imported: Ghost<Seq<Seq<Literal>>>,
}

impl CdclReasoner {
    pub closed spec fn reasoner(&self) -> ReasonerId {
        self.id
    }

    pub closed spec fn worker(&self) -> WorkerId {
        self.worker_id
    }

    /// The number of variables of the problem.
    pub closed spec fn vars(&self) -> u32 {
        self.solver.vars()
    }

    /// The formula that the solver was given.
    pub closed spec fn base(&self) -> Seq<Seq<Literal>> {
        self.base@
    }

    /// The clauses imported since.
    pub closed spec fn imported(&self) -> Seq<Seq<Literal>> {
        self.imported@
    }

    /// All clauses that the solver works on.
    pub open spec fn formula(&self) -> Seq<Seq<Literal>> {
        self.base() + self.imported()
    }

    /// The work unit.
    pub closed spec fn unit(&self) -> UnitView {
        self.work@
    }

    /// The shutdown token of the work unit.
    pub closed spec fn token(&self) -> Arc<AtomicBool> {
        self.work.shutdown
    }

    /// The state of the import gate.
    pub closed spec fn gate_view(&self) -> GateView {
        self.gate@
    }

    /// The sorted assumptions of the work unit.
    pub open spec fn ctx(&self) -> Seq<Literal> {
        import::sorted_form(self.unit().assumptions)
    }

    /// The knowledge waiting for export.
    pub closed spec fn pending(&self) -> Seq<ObjectView> {
        import::object_views(self.pending@)
    }

    /// The learned clauses that have not been drained from the solver yet.
    pub closed spec fn staged(&self) -> Seq<(Vec<Literal>, u32)> {
        self.solver.outbox()
    }

    /// The next identifier to be assigned.
    pub closed spec fn next_id(&self) -> u64 {
        self.next_kid
    }

    /// The highest identifier applied so far.
    pub closed spec fn watermark(&self) -> u64 {
        self.max_imported_id
    }

    /// How many clause references the solver has handed out.
    pub closed spec fn stored(&self) -> nat {
        self.solver.stored()
    }

    pub closed spec fn conflict_count(&self) -> u64 {
        self.solver.conflict_count()
    }

    pub closed spec fn well_formed(&self) -> bool {
        &&& self.solver.well_formed()
        &&& self.gate.well_formed()
        &&& self.solver.formula() == self.base@ + self.imported@
        &&& self.gate@.ctx == import::sorted_form(self.work@.assumptions)
        &&& state::lits_ok(self.solver.vars(), self.work@.assumptions)
        &&& all_rightly_claimed(
            self.base@ + self.imported@,
            import::sorted_form(self.work@.assumptions),
            import::object_views(self.pending@),
        )
    }

    /// Create a reasoner bound to `work`, solving the formula already loaded
    /// into `solver`. The solver must be at level 0 at this point.
    pub fn new(id: ReasonerId, worker_id: WorkerId, solver: CdclSolver, work: WorkUnit) -> (r: Self)
        requires
            solver.well_formed(),
            state::lits_ok(solver.vars(), work@.assumptions),
        ensures
            r.well_formed(),
            r.reasoner() == id,
            r.worker() == worker_id,
            r.vars() == solver.vars(),
            r.base() == solver.formula(),
            r.imported().len() == 0,
            r.unit() == work@,
            r.token() == work.shutdown,
            r.gate_view() == (GateView {
                ctx: r.ctx(),
                policy: ImportPolicy { max_items: 512, min_utility: 0, buffer_capacity: 1024 },
                capacity: 1024,
                buffer: Seq::empty(),
                seen: Set::empty(),
            }),
            r.pending().len() == 0,
            r.staged() == solver.outbox(),
            r.next_id() == first_kid(worker_id),
            r.watermark() == 0,
            r.stored() == solver.stored(),
    {
        CdclReasoner::with_import_policy(id, worker_id, solver, work, ImportPolicy::default(), None)
    }

    /// As [`CdclReasoner::new`], but with a custom import policy and a Bloom
    /// pre-filter sized at `bits_per_ctx_literal` bits per context literal.
    pub fn with_import_policy(
        id: ReasonerId,
        worker_id: WorkerId,
        solver: CdclSolver,
        work: WorkUnit,
        policy: ImportPolicy,
        bloom_bits: Option<(usize, u32)>,
    ) -> (r: Self)
        requires
            solver.well_formed(),
            state::lits_ok(solver.vars(), work@.assumptions),
        ensures
            r.well_formed(),
            r.reasoner() == id,
            r.worker() == worker_id,
            r.vars() == solver.vars(),
            r.base() == solver.formula(),
            r.imported().len() == 0,
            r.unit() == work@,
            r.token() == work.shutdown,
            r.gate_view() == (GateView {
                ctx: r.ctx(),
                policy,
                capacity: if policy.buffer_capacity == 0 {
                    1
                } else {
                    policy.buffer_capacity
                },
                buffer: Seq::empty(),
                seen: Set::empty(),
            }),
            r.pending().len() == 0,
            r.staged() == solver.outbox(),
            r.next_id() == first_kid(worker_id),
            r.watermark() == 0,
            r.stored() == solver.stored(),
    {
        let mut gate = match bloom_bits {
            Some((bits, hashes)) => ImportGate::with_bloom(policy, bits, hashes),
            None => ImportGate::new(policy),
        };
        let _waiting: Vec<KnowledgeObject> = gate.set_context(work.assumption_slice());
        let ghost f = solver.formula();
        let r = CdclReasoner {
            id,
            worker_id,
            solver,
            work,
            gate,
            pending: Vec::new(),
            next_kid: worker_id.0 as u64 * KID_WORD + 1,
            max_imported_id: 0,
            base: Ghost(f),
            imported: Ghost(Seq::empty()),
        };
        proof {
            assert(f + Seq::<Seq<Literal>>::empty() =~= f);
            assert(import::kept_under(r.ctx(), Seq::empty()) =~= Seq::<ObjectView>::empty()) by {
                reveal(Seq::filter);
            }
            assert(import::applied_under(r.ctx(), Seq::empty()) =~= Seq::<ObjectView>::empty())
                by {
                reveal(Seq::filter);
            }
            assert(r.gate@.buffer =~= Seq::<ObjectView>::empty());
        }
        r
    }

    pub fn worker_id(&self) -> (w: WorkerId)
        ensures
            w == self.worker(),
    {
        self.worker_id
    }

    /// The number of variables of the problem.
    pub fn num_vars(&self) -> (n: u32)
        ensures
            n == self.vars(),
    {
        self.solver.num_vars()
    }

    /// The solver backing this reasoner (exposed for tests and model checks).
    pub fn solver(&self) -> (s: &CdclSolver)
        requires
            self.well_formed(),
        ensures
            s.well_formed(),
            s.vars() == self.vars(),
            s.formula() == self.formula(),
            s.outbox() == self.staged(),
            s.stored() == self.stored(),
    {
        &self.solver
    }

    /// The import gate of this reasoner.
    pub fn gate(&self) -> (g: &ImportGate)
        requires
            self.well_formed(),
        ensures
            g.well_formed(),
            g@ == self.gate_view(),
            g@.ctx == self.ctx(),
    {
        &self.gate
    }

    /// Everything but the solver's outbox, the pending objects and the next
    /// identifier is the same.
    pub closed spec fn same_but_exports(&self, o: &CdclReasoner) -> bool {
        &&& self.id == o.id
        &&& self.worker_id == o.worker_id
        &&& self.solver.vars() == o.solver.vars()
        &&& self.solver.formula() == o.solver.formula()
        &&& self.solver.stored() == o.solver.stored()
        &&& self.solver.counters() == o.solver.counters()
        &&& self.work == o.work
        &&& self.gate == o.gate
        &&& self.max_imported_id == o.max_imported_id
        &&& self.base == o.base
        &&& self.imported == o.imported
    }

    /// Drain newly learned clauses from the solver into the pending objects,
    /// tagged with the context: every clause the solver holds follows from the
    /// formula and the context.
    fn drain_learned_to_pending(&mut self)
        requires
            old(self).well_formed(),
            old(self).next_id() + old(self).staged().len() <= u64::MAX,
        ensures
            final(self).well_formed(),
            final(self).same_but_exports(old(self)),
            final(self).staged().len() == 0,
            final(self).pending() == old(self).pending() + tagged_all(
                old(self).staged(),
                old(self).ctx(),
                old(self).worker(),
                old(self).next_id(),
            ),
            final(self).next_id() == old(self).next_id() + old(self).staged().len(),
    {
        let learned = self.solver.drain_learned();
        let ghost ctx = self.ctx();
        let ghost worker = self.worker_id;
        let ghost id0 = self.next_kid;
        let mut i: usize = 0;
        assert(self.pending() =~= old(self).pending() + tagged_all(
            learned@.take(0),
            ctx,
            worker,
            id0,
        ));
        while i < learned.len()
            invariant
                i <= learned@.len(),
                learned@ == old(self).staged(),
                cdcl::outbox_ok(
                    self.base@ + self.imported@,
                    self.solver.vars(),
                    learned@,
                ),
                ctx == old(self).ctx(),
                worker == old(self).worker(),
                id0 == old(self).next_id(),
                old(self).next_id() + old(self).staged().len() <= u64::MAX,
                self.well_formed(),
                self.same_but_exports(old(self)),
                self.staged().len() == 0,
                self.next_kid == id0 + i,
                self.pending() == old(self).pending() + tagged_all(
                    learned@.take(i as int),
                    ctx,
                    worker,
                    id0,
                ),
            decreases learned@.len() - i,
        {
            let ghost before = self.pending();
            let lbd: u32 = learned[i].1;
            let sorted = crate::akx::import::ImportContext::from_assumptions(
                learned[i].0.as_slice(),
            );
            let obj = KnowledgeObject {
                id: KnowledgeId(self.next_kid),
                kind: KnowledgeKind::Clause(
                    ClauseKnowledge { literals: LitVec::from_slice(sorted.literals()), lbd },
                ),
                assumptions: LitVec::from_slice(self.gate.context().literals()),
                scope: Scope::Process,
                trust: TrustLevel::Trusted,
                utility: utility_of(lbd),
                proof_ref: None,
                source: self.worker_id.0,
            };
            let ghost v = obj@;
            assert(v == tagged(learned@[i as int], ctx, worker, (id0 + i) as u64));
            proof {
                assert(logic::entails(self.base@ + self.imported@, learned@[i as int].0@));
                sorted_claim(
                    self.base@ + self.imported@,
                    learned@[i as int].0@,
                    import::sorted_form(learned@[i as int].0@),
                );
                assert(rightly_claimed(self.base@ + self.imported@, ctx, v));
            }
            self.next_kid = self.next_kid + 1;
            self.pending.push(obj);
            proof {
                assert(self.pending() =~= before.push(v));
                let next = tagged_all(learned@.take(i + 1), ctx, worker, id0);
                assert(next =~= tagged_all(learned@.take(i as int), ctx, worker, id0).push(v));
                assert(self.pending() =~= old(self).pending() + next);
            }
            i += 1;
        }
        assert(learned@.take(learned@.len() as int) =~= learned@);
    }

    /// Drain and export in one pass, building no object at all when the policy
    /// will reject everything (`max_items == 0`).
    pub fn drain_and_export(&mut self, policy: &ExportPolicy) -> (batch: KnowledgeBatch)
        requires
            old(self).well_formed(),
            old(self).next_id() + old(self).staged().len() <= u64::MAX,
        ensures
            final(self).well_formed(),
            final(self).same_but_exports(old(self)),
            final(self).staged().len() == 0,
            policy.max_items == 0 ==> {
                &&& batch@.len() == 0
                &&& final(self).pending() == old(self).pending()
                &&& final(self).next_id() == old(self).next_id()
            },
            policy.max_items > 0 ==> {
                &&& (import::object_views(batch@), final(self).pending()) == export_split(
                    *policy,
                    past_watermark(
                        *policy,
                        old(self).pending() + tagged_all(
                            old(self).staged(),
                            old(self).ctx(),
                            old(self).worker(),
                            old(self).next_id(),
                        ),
                    ),
                )
                &&& final(self).next_id() == old(self).next_id() + old(self).staged().len()
            },
            all_rightly_claimed(
                old(self).formula(),
                old(self).ctx(),
                import::object_views(batch@),
            ),
    {
        if policy.max_items == 0 {
            let _dropped = self.solver.drain_learned();
            return Vec::new();
        }
        self.drain_learned_to_pending();
        self.hand_out(policy)
    }

    /// Split the pending objects by a policy.
    fn hand_out(&mut self, policy: &ExportPolicy) -> (batch: KnowledgeBatch)
        requires
            old(self).well_formed(),
        ensures
            final(self).well_formed(),
            final(self).same_but_exports(old(self)),
            final(self).staged() == old(self).staged(),
            final(self).next_id() == old(self).next_id(),
            (import::object_views(batch@), final(self).pending()) == export_split(
                *policy,
                past_watermark(*policy, old(self).pending()),
            ),
            all_rightly_claimed(
                old(self).formula(),
                old(self).ctx(),
                import::object_views(batch@),
            ),
    {
        proof {
            let f = self.formula();
            fresh_claims(f, self.ctx(), *policy, self.pending());
            split_claims(f, self.ctx(), *policy, past_watermark(*policy, self.pending()));
        }
        let mut waiting: Vec<KnowledgeObject> = Vec::new();
        std::mem::swap(&mut waiting, &mut self.pending);
        let ghost all = import::object_views(waiting@);
        let ghost p = |o: ObjectView| o.id.0 > policy.watermark.0;
        let mut out: Vec<KnowledgeObject> = Vec::new();
        let mut keep: Vec<KnowledgeObject> = Vec::new();
        proof {
            reveal(Seq::filter);
            assert(all.take(0).filter(p) =~= Seq::<ObjectView>::empty());
            assert(import::object_views(out@) =~= Seq::<ObjectView>::empty());
            assert(import::object_views(keep@) =~= Seq::<ObjectView>::empty());
        }
        for obj in it: waiting
            invariant
                all == import::object_views(it.seq()),
                p == (|o: ObjectView| o.id.0 > policy.watermark.0),
                (import::object_views(out@), import::object_views(keep@)) == export_split(
                    *policy,
                    all.take(it.index() as int).filter(p),
                ),
        {
            let ghost i = it.index() as int;
            let ghost v = obj@;
            let ghost before = all.take(i).filter(p);
            let ghost out0 = import::object_views(out@);
            let ghost keep0 = import::object_views(keep@);
            proof {
                assert(all[i] == it.seq()[i]@);
                import::filter_step(all, p, i);
                if p(v) {
                    assert(before.push(v).drop_last() =~= before);
                }
            }
            if obj.id.0 > policy.watermark.0 {
                if out.len() >= policy.max_items {
                    keep.push(obj);
                    assert(import::object_views(keep@) =~= keep0.push(v));
                } else if obj.utility >= policy.min_utility && obj.scope.rank()
                    <= policy.max_scope.rank() && policy.kind_filter.admits(obj.kind.tag()) {
                    out.push(obj);
                    assert(import::object_views(out@) =~= out0.push(v));
                }
            }
        }
        proof {
            assert(all.take(all.len() as int) =~= all);
        }
        self.pending = keep;
        out
    }

    /// Whether there is room for the clauses of a batch that would take effect.
    fn has_room(&self, batch: &[KnowledgeObject]) -> (b: bool)
        requires
            self.well_formed(),
        ensures
            b == (batch@.len() <= u32::MAX && self.stored() + cdcl::references(
                clauses_after(
                    self.gate_view(),
                    self.vars(),
                    import::object_views(batch@),
                    batch@.len() as int,
                ),
            ) <= FIRST_SENTINEL),
    {
        let ghost g = self.gate@;
        let ghost n = self.solver.vars();
        let ghost objs = import::object_views(batch@);
        if batch.len() > 0xFFFF_FFFF {
            return false;
        }
        let stored: usize = self.solver.stored_clauses();
        proof {
            references_bounded(g, n, objs, objs.len() as int);
        }
        if batch.len() <= FIRST_SENTINEL as usize && stored <= FIRST_SENTINEL as usize
            - batch.len() {
            return true;
        }
        let applied: Vec<bool> = self.gate.foresee(batch);
        let num_vars: u32 = self.solver.num_vars();
        let mut needed: usize = 0;
        let mut i: usize = 0;
        while i < batch.len()
            invariant
                i <= batch@.len() <= u32::MAX,
                objs == import::object_views(batch@),
                num_vars == n,
                applied@.len() == batch@.len(),
                forall|k: int|
                    0 <= k < batch@.len() ==> #[trigger] applied@[k] == (import::decision_at(
                        g,
                        objs,
                        k,
                    ) == ImportDecision::Applied),
                needed <= i,
                needed == cdcl::references(clauses_after(g, n, objs, i as int)),
            decreases batch@.len() - i,
        {
            let ghost before = clauses_after(g, n, objs, i as int);
            assert(objs[i as int] == batch@[i as int]@);
            assert(applied@[i as int] == (import::decision_at(g, objs, i as int)
                == ImportDecision::Applied));
            if applied[i] {
                if let KnowledgeKind::Clause(c) = &batch[i].kind {
                    proof {
                        cdcl::references_push(before, c.literals@);
                    }
                    if in_range(c.literals.as_slice(), num_vars) && c.literals.len() >= 2 {
                        needed = needed + 1;
                    }
                }
            }
            i += 1;
        }
        needed <= FIRST_SENTINEL as usize && stored <= FIRST_SENTINEL as usize - needed
    }

    /// The partial model that a solver's model stands for.
    fn to_partial_model(&self, m: &Model) -> (p: PartialModel)
        requires
            1 <= m.values().len() <= u32::MAX,
        ensures
            p.assignments@ == partial_of(*m),
            p.work_unit_ancestry.steps@ == self.unit().ancestry,
    {
        let mut assignments: Vec<Option<bool>> = Vec::new();
        assignments.push(Some(false));
        let n: u32 = m.num_vars();
        let mut v: u32 = 0;
        while v < n
            invariant
                v <= n,
                n == m.values().len() - 1,
                assignments@ == partial_of(*m).take(v + 1),
            decreases n - v,
        {
            v += 1;
            assignments.push(Some(m.value_of(v)));
            assert(assignments@ =~= partial_of(*m).take(v + 1));
        }
        assert(partial_of(*m).take(n + 1) =~= partial_of(*m));
        PartialModel { assignments, work_unit_ancestry: self.work.ancestry.clone() }
    }

    /// The event that a solver's conclusion amounts to. `over_time` tells
    /// whether the wall-clock budget has been spent.
    pub fn conclude(&self, result: &SolveResult, over_time: bool) -> (e: ReasonerEvent)
        requires
            result matches SolveResult::Sat(m) ==> 1 <= m.values().len() <= u32::MAX,
        ensures
            match *result {
                SolveResult::Sat(m) => e matches ReasonerEvent::SatCandidate { model }
                    && model.assignments@ == partial_of(m) && model.work_unit_ancestry.steps@
                    == self.unit().ancestry,
                SolveResult::Unsat => e == (ReasonerEvent::UnsatLocal { proof_ref: None }),
                SolveResult::Unknown => if over_time {
                    e == ReasonerEvent::BudgetExhausted
                } else {
                    e == ReasonerEvent::Progress
                },
            },
    {
        match result {
            SolveResult::Sat(m) => ReasonerEvent::SatCandidate {
                model: Arc::new(self.to_partial_model(m)),
            },
            SolveResult::Unsat => ReasonerEvent::UnsatLocal { proof_ref: None },
            SolveResult::Unknown => if over_time {
                ReasonerEvent::BudgetExhausted
            } else {
                ReasonerEvent::Progress
            },
        }
    }

    /// What a step that led from `self` to `after` reports, given what was read
    /// of the request to stop, of the time limit, and of the time spent.
    ///
    /// It is cancelled if and only if a reading was a request. Else the solver's
    /// conclusion decides: a model, a refutation, or neither, if and only if the
    /// time limit was read to be over, or the conflict budget is spent, or the
    /// solver's numbers have run out. Without a conclusion, the time spent tells
    /// whether the budget is exhausted. Where unit propagation alone refutes the
    /// formula with the assumptions, the refutation is found, whatever the time.
    pub open spec fn stepped(
        &self,
        after: &CdclReasoner,
        budget: WorkBudget,
        requests: (Seq<bool>, Seq<bool>),
        limits: (Seq<bool>, Seq<bool>),
        spans: (Seq<bool>, Seq<bool>),
        e: ReasonerEvent,
    ) -> bool {
        let spent = after.conflict_count() - self.conflict_count();
        let assumptions = self.unit().assumptions;
        &&& if e is Cancelled {
            &&& stop::got_tripped(requests.0, requests.1)
            &&& requests.1.len() == requests.0.len() + 1 ==> *after == *self
        } else {
            stop::stayed_clear(requests.0, requests.1)
        }
        &&& trace::plain(self.formula()) && (trace::dead(self.formula()) || trace::dead(
            self.formula() + trace::units(assumptions),
        ) && budget.max_conflicts >= 1 && self.conflict_count() < u64::MAX) ==> e is Cancelled
            || e is UnsatLocal
        &&& spent <= requests.1.len() - requests.0.len() + 1
        &&& spent <= limits.1.len() - limits.0.len() + 1
        &&& match e {
            ReasonerEvent::Cancelled => true,
            ReasonerEvent::SatCandidate { model } => {
                &&& stop::stayed_clear(limits.0, limits.1)
                &&& exists|m: Model|
                    model.assignments@ == #[trigger] partial_of(m) && cdcl::result_ok(
                        SolveResult::Sat(m),
                        self.vars(),
                        self.formula(),
                        assumptions,
                    )
                &&& model.work_unit_ancestry.steps@ == self.unit().ancestry
                &&& spent <= budget.max_conflicts
            },
            ReasonerEvent::UnsatLocal { proof_ref } => {
                &&& stop::stayed_clear(limits.0, limits.1)
                &&& proof_ref is None
                &&& logic::unsatisfiable(self.formula(), assumptions)
                &&& spent <= budget.max_conflicts
            },
            ReasonerEvent::Progress | ReasonerEvent::BudgetExhausted => {
                &&& {
                    ||| stop::got_tripped(limits.0, limits.1)
                    ||| stop::stayed_clear(limits.0, limits.1) && {
                        ||| spent > budget.max_conflicts
                        ||| after.conflict_count() == u64::MAX
                        ||| after.stored() >= FIRST_SENTINEL
                    }
                }
                &&& spans.1 == spans.0.push(e is BudgetExhausted)
            },
            ReasonerEvent::NeedWork => false,
            ReasonerEvent::InternalError(_) => false,
        }
    }

    /// Solve for one budget, unless there is a request to stop before, during
    /// or after it. `limit` is read during the search, and `span` after a search
    /// without a conclusion, to see whether the budget of time is spent.
    pub fn step_with(
        &mut self,
        budget: WorkBudget,
        watch: &mut Stop,
        limit: &mut Stop,
        span: &mut Stop,
    ) -> (e: ReasonerEvent)
        requires
            old(self).well_formed(),
            old(watch).well_formed(),
            old(limit).well_formed(),
            old(span).well_formed(),
        ensures
            final(self).well_formed(),
            final(watch).well_formed(),
            final(watch).source() == old(watch).source(),
            final(limit).well_formed(),
            final(limit).source() == old(limit).source(),
            final(span).well_formed(),
            final(span).source() == old(span).source(),
            old(self).stepped(
                final(self),
                budget,
                (old(watch).readings(), final(watch).readings()),
                (old(limit).readings(), final(limit).readings()),
                (old(span).readings(), final(span).readings()),
                e,
            ),
            final(self).reasoner() == old(self).reasoner(),
            final(self).worker() == old(self).worker(),
            final(self).vars() == old(self).vars(),
            final(self).base() == old(self).base(),
            final(self).imported() == old(self).imported(),
            final(self).unit() == old(self).unit(),
            final(self).token() == old(self).token(),
            final(self).gate_view() == old(self).gate_view(),
            final(self).pending() == old(self).pending(),
            final(self).next_id() == old(self).next_id(),
            final(self).watermark() == old(self).watermark(),
            final(self).stored() >= old(self).stored(),
            final(self).conflict_count() >= old(self).conflict_count(),
    {
        let ghost r0 = watch.readings();
        let ghost l0 = limit.readings();
        let before: bool = watch.read();
        let ghost r1 = watch.readings();
        proof {
            stop::one_reading(r0, before);
        }
        if before {
            return ReasonerEvent::Cancelled;
        }
        proof {
            self.solver.vars_bounded();
        }
        let found: Option<SolveResult> = self.solver.solve_until(
            self.work.assumptions.as_slice(),
            budget.max_conflicts,
            limit,
            watch,
        );
        let ghost r2 = watch.readings();
        proof {
            stop::clear_then_clear(r0, r1, r2);
        }
        let result: SolveResult = match found {
            Some(s) => s,
            None => {
                return ReasonerEvent::Cancelled;
            },
        };
        let after: bool = watch.read();
        proof {
            stop::one_reading(r2, after);
            stop::clear_then_clear(r0, r2, watch.readings());
        }
        if after {
            return ReasonerEvent::Cancelled;
        }
        let over_time: bool = match result {
            SolveResult::Unknown => span.read(),
            _ => false,
        };
        let event = self.conclude(&result, over_time);
        proof {
            if let SolveResult::Sat(m) = result {
                assert(partial_of(m) == event->model.assignments@);
            }
        }
        event
    }

    /// What a step reports that was watched in these ways, its clock being
    /// started at a moment: the request to stop is the work unit's token, the
    /// time limit is the moment `max_ms` milliseconds later (if there is a
    /// budget of time, and if so late a moment can be represented), and the
    /// budget of time is spent once `max_ms` milliseconds have passed.
    pub open spec fn stepped_since(
        &self,
        after: &CdclReasoner,
        budget: WorkBudget,
        started: Instant,
        watch: Stop,
        limit: Stop,
        span: Stop,
        e: ReasonerEvent,
    ) -> bool {
        &&& watch.well_formed() && limit.well_formed() && span.well_formed()
        &&& watch.source() == Source::Token(self.token())
        &&& match limit.source() {
            Source::Deadline(d) => budget.max_ms > 0 && clock::nanos_from(started, d)
                == budget.max_ms * 1_000_000,
            Source::Never => budget.max_ms == 0 || forall|d: Instant| #[trigger]
                clock::nanos_from(started, d) != budget.max_ms * 1_000_000,
            _ => false,
        }
        &&& span.source() == Source::Elapsed(started, (budget.max_ms * 1_000_000) as u128)
        &&& self.stepped(
            after,
            budget,
            (Seq::empty(), watch.readings()),
            (Seq::empty(), limit.readings()),
            (Seq::empty(), span.readings()),
            e,
        )
    }
}

impl Reasoner for CdclReasoner {
    open spec fn ready(&self) -> bool {
        self.well_formed()
    }

    fn id(&self) -> (id: ReasonerId)
        ensures
            id == self.reasoner(),
    {
        self.id
    }

    fn capabilities(&self) -> (c: Capabilities)
        ensures
            c.can_produce@ == seq![KnowledgeKindTag::Clause],
            c.can_consume@ == seq![KnowledgeKindTag::Clause],
            c.is_complete,
            !c.produces_proofs,
            c.hardware == HardwareClass::Cpu,
    {
        let tags: [KnowledgeKindTag; 1] = [KnowledgeKindTag::Clause];
        Capabilities {
            can_produce: TagVec::from_slice(&tags),
            can_consume: TagVec::from_slice(&tags),
            is_complete: true,
            produces_proofs: false,
            hardware: HardwareClass::Cpu,
        }
    }

    /// Import a batch through the import gate. The clauses that take effect join the
    /// formula. A batch is refused as a whole if the solver has no room left for
    /// those clauses, or if its objects are more than can be counted.
    fn import(&mut self, batch: KnowledgeBatch) -> (r: Result<ImportStats, ReasonerError>)
        ensures
            r is Err <==> batch@.len() > u32::MAX || old(self).stored() + cdcl::references(
                clauses_after(
                    old(self).gate_view(),
                    old(self).vars(),
                    import::object_views(batch@),
                    batch@.len() as int,
                ),
            ) > FIRST_SENTINEL,
            r is Err ==> *final(self) == *old(self) && r->Err_0 is OutOfMemory,
            r matches Ok(s) ==> {
                let g = old(self).gate_view();
                let n = old(self).vars();
                let objs = import::object_views(batch@);
                let len = objs.len() as int;
                &&& s == stats_after(g, n, objs, len)
                &&& final(self).gate_view() == import::after_batch(g, objs, len)
                &&& final(self).imported() == old(self).imported() + clauses_after(g, n, objs, len)
                &&& final(self).watermark() == watermark_after(
                    g,
                    n,
                    objs,
                    len,
                    old(self).watermark(),
                )
            },
            final(self).reasoner() == old(self).reasoner(),
            final(self).worker() == old(self).worker(),
            final(self).vars() == old(self).vars(),
            final(self).base() == old(self).base(),
            final(self).unit() == old(self).unit(),
            final(self).token() == old(self).token(),
            final(self).pending() == old(self).pending(),
            final(self).staged() == old(self).staged(),
            final(self).next_id() == old(self).next_id(),
    {
        if !self.has_room(batch.as_slice()) {
            return Err(ReasonerError::OutOfMemory(String::from_str("clause references exhausted")));
        }
        let ghost g = self.gate@;
        let ghost n = self.solver.vars();
        let ghost objs = import::object_views(batch@);
        let decisions: Vec<ImportDecision> = self.gate.submit(batch.as_slice());
        let mut stats = ImportStats::default();
        stats.received = batch.len() as u32;
        let mut clauses: Vec<Vec<Literal>> = Vec::new();
        let mut top: u64 = self.max_imported_id;
        let num_vars: u32 = self.solver.num_vars();
        let mut i: usize = 0;
        assert(clauses@.map_values(|c: Vec<Literal>| c@) =~= Seq::<Seq<Literal>>::empty());
        while i < batch.len()
            invariant
                i <= batch@.len() <= u32::MAX,
                objs == import::object_views(batch@),
                num_vars == n,
                decisions@.len() == batch@.len(),
                forall|k: int|
                    0 <= k < batch@.len() ==> #[trigger] decisions@[k] == import::decision_at(
                        g,
                        objs,
                        k,
                    ),
                stats == stats_after(g, n, objs, i as int),
                stats.received == batch@.len(),
                stats.applied <= i,
                stats.buffered <= i,
                stats.discarded_no_overlap <= i,
                stats.discarded_duplicate <= i,
                clauses@.len() <= i,
                clauses@.map_values(|c: Vec<Literal>| c@) == clauses_after(g, n, objs, i as int),
                forall|k: int|
                    0 <= k < clauses@.len() ==> state::lits_ok(n, (#[trigger] clauses@[k])@),
                top == watermark_after(g, n, objs, i as int, self.max_imported_id),
            decreases batch@.len() - i,
        {
            let ghost before = clauses@.map_values(|c: Vec<Literal>| c@);
            let obj: &KnowledgeObject = &batch[i];
            assert(objs[i as int] == obj@);
            match decisions[i] {
                ImportDecision::Applied => {
                    let mut fits: bool = true;
                    if let KnowledgeKind::Clause(c) = &obj.kind {
                        fits = in_range(c.literals.as_slice(), num_vars);
                        if fits {
                            clauses.push(vstd::slice::slice_to_vec(c.literals.as_slice()));
                            assert(clauses@.map_values(|c: Vec<Literal>| c@) =~= before.push(
                                c.literals@,
                            ));
                        }
                    }
                    if fits {
                        stats.applied = stats.applied + 1;
                        if obj.id.0 > top {
                            top = obj.id.0;
                        }
                    } else {
                        stats.discarded_no_overlap = stats.discarded_no_overlap + 1;
                    }
                },
                ImportDecision::Buffered => {
                    stats.buffered = stats.buffered + 1;
                },
                ImportDecision::Duplicate => {
                    stats.discarded_duplicate = stats.discarded_duplicate + 1;
                },
                ImportDecision::DiscardedNoOverlap => {
                    stats.discarded_no_overlap = stats.discarded_no_overlap + 1;
                },
                ImportDecision::DiscardedLowUtility => {
                    stats.discarded_no_overlap = stats.discarded_no_overlap + 1;
                },
            }
            i += 1;
        }
        let ghost added = clauses@.map_values(|c: Vec<Literal>| c@);
        proof {
            context_kept(g, objs, objs.len() as int);
            assert((self.base@ + self.imported@) + added =~= self.base@ + (self.imported@
                + added));
        }
        self.solver.import_clauses(clauses.as_slice());
        self.max_imported_id = top;
        proof {
            let f = self.base@ + self.imported@;
            let g = self.base@ + (self.imported@ + added);
            assert(g.take(f.len() as int) =~= f);
            let objs = import::object_views(self.pending@);
            assert forall|i: int| 0 <= i < objs.len() implies rightly_claimed(
                g,
                self.ctx(),
                #[trigger] objs[i],
            ) by {
                assert(rightly_claimed(f, self.ctx(), objs[i]));
                if let KindView::Clause { literals, .. } = objs[i].kind {
                    entails_more(f, g, literals);
                }
            }
            self.imported@ = self.imported@ + added;
        }
        Ok(stats)
    }

    /// Solve for one budget, as [`CdclReasoner::step_with`] does for what the
    /// work unit's shutdown token and the clock show.
    fn step(&mut self, budget: WorkBudget) -> (r: Result<ReasonerEvent, ReasonerError>)
        ensures
            r is Ok,
            r matches Ok(e) && exists|started: Instant, watch: Stop, limit: Stop, span: Stop|
                #[trigger]
                old(self).stepped_since(final(self), budget, started, watch, limit, span, e),
            final(self).reasoner() == old(self).reasoner(),
            final(self).worker() == old(self).worker(),
            final(self).vars() == old(self).vars(),
            final(self).base() == old(self).base(),
            final(self).imported() == old(self).imported(),
            final(self).unit() == old(self).unit(),
            final(self).token() == old(self).token(),
            final(self).gate_view() == old(self).gate_view(),
            final(self).pending() == old(self).pending(),
            final(self).next_id() == old(self).next_id(),
            final(self).watermark() == old(self).watermark(),
            final(self).stored() >= old(self).stored(),
            final(self).conflict_count() >= old(self).conflict_count(),
    {
        let started: Instant = clock::now();
        let deadline: Option<Instant> = if budget.max_ms > 0 {
            clock::after_millis(&started, budget.max_ms)
        } else {
            None
        };
        let mut watch = Stop::on(share(&self.work.shutdown));
        let mut limit = Stop::at(deadline);
        let mut span = Stop::after(started, budget.max_ms as u128 * 1_000_000);
        proof {
            assert(watch.readings() =~= Seq::empty());
            assert(limit.readings() =~= Seq::empty());
            assert(span.readings() =~= Seq::empty());
        }
        let e = self.step_with(budget, &mut watch, &mut limit, &mut span);
        assert(old(self).stepped_since(self, budget, started, watch, limit, span, e));
        Ok(e)
    }

    /// Hand out pending knowledge by a policy; what it refuses is dropped, what
    /// there is no room for stays pending.
    fn export(&mut self, policy: &ExportPolicy) -> (r: Result<KnowledgeBatch, ReasonerError>)
        ensures
            final(self).same_but_exports(old(self)),
            final(self).staged() == old(self).staged(),
            final(self).next_id() == old(self).next_id(),
            r is Ok,
            (import::object_views(r->Ok_0@), final(self).pending()) == export_split(
                *policy,
                past_watermark(*policy, old(self).pending()),
            ),
            all_rightly_claimed(
                old(self).formula(),
                old(self).ctx(),
                import::object_views(r->Ok_0@),
            ),
    {
        Ok(self.hand_out(policy))
    }

    fn checkpoint(&self) -> (r: Result<Option<Checkpoint>, ReasonerError>)
        ensures
            r matches Ok(Some(c)) && c.worker_id == self.worker() && c.work_unit@ == self.unit()
                && c.internal_state is None && c.knowledge_watermark == KnowledgeId(
                self.watermark(),
            ),
    {
        Ok(
            Some(
                Checkpoint {
                    worker_id: self.worker_id,
                    work_unit: self.work.clone(),
                    internal_state: None,
                    knowledge_watermark: KnowledgeId(self.max_imported_id),
                },
            ),
        )
    }
}

/// Whether all literals speak of the variables `1..=n`.
fn in_range(lits: &[Literal], n: u32) -> (b: bool)
    ensures
        b == state::lits_ok(n, lits@),
{
    let mut i: usize = 0;
    while i < lits.len()
        invariant
            i <= lits@.len(),
            forall|k: int| 0 <= k < i ==> 1 <= (#[trigger] lits@[k]).var() <= n,
        decreases lits@.len() - i,
    {
        let v: u32 = lits[i].var();
        if v < 1 || v > n {
            assert(!(1 <= lits@[i as int].var() <= n));
            return false;
        }
        i += 1;
    }
    true
}

/// Submitting objects never changes the context of an import gate.
proof fn context_kept(g: GateView, objs: Seq<ObjectView>, n: int)
    ensures
        import::after_batch(g, objs, n).ctx == g.ctx,
    decreases n,
{
    if n > 0 {
        context_kept(g, objs, n - 1);
    }
}

/// Build a work unit from scratch.
pub fn make_work_unit(
    problem_id: u64,
    assumptions: Vec<Literal>,
    seed: u64,
    budget: WorkBudget,
) -> (u: WorkUnit)
    ensures
        u@ == (UnitView {
            problem: ProblemId(problem_id),
            assumptions: assumptions@,
            ancestry: Seq::empty(),
            priority: Priority(Priority::NORMAL),
            budget,
            seed,
        }),
{
    WorkUnit {
        problem: ProblemId(problem_id),
        assumptions,
        ancestry: CubePath::default(),
        priority: Priority(Priority::NORMAL),
        budget,
        seed,
        shutdown: Arc::new(AtomicBool::new(false)),
    }
}

} // verus!
