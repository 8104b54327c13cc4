use vstd::prelude::*;

use crate::akx::fx;
use crate::akx::literal::Literal;
use crate::akx::litvec::LitVec;

verus! {

/// Monotonically increasing identifier for a knowledge object within a run.
#[derive(Clone, Copy, PartialEq, Eq, PartialOrd, Ord, Hash, Debug, Structural)]
pub struct KnowledgeId(pub u64);

/// Opaque reference into a proof store.
#[derive(Clone, Copy, PartialEq, Eq, Hash, Debug, Structural)]
pub struct ProofRef(pub u64);

/// Routing scope: how far a knowledge object is permitted to travel.
#[derive(Clone, Copy, PartialEq, Eq, PartialOrd, Ord, Hash, Debug, Structural)]
pub enum Scope {
    /// Stays within the producing worker's thread.
    Local,
    /// Shared within a single OS process.
    Process,
    /// Shared within a single cluster node.
    Node,
    /// Shared across the whole cluster.
    Global,
}

/// The position of a scope in the hierarchy, the narrowest first.
pub open spec fn scope_rank(s: Scope) -> int {
    match s {
        Scope::Local => 0,
        Scope::Process => 1,
        Scope::Node => 2,
        Scope::Global => 3,
    }
}

impl Scope {
    /// The position in the hierarchy, the narrowest scope first.
    pub fn rank(self) -> (r: u8)
        ensures
            r == scope_rank(self),
    {
        match self {
            Scope::Local => 0,
            Scope::Process => 1,
            Scope::Node => 2,
            Scope::Global => 3,
        }
    }
}

/// Trust classification for UNSAT closure eligibility.
#[derive(Clone, Copy, PartialEq, Eq, Hash, Debug, Structural)]
pub enum TrustLevel {
    /// Produced by a verified complete reasoner; may participate in UNSAT closure.
    Trusted,
    /// Produced by an incomplete/experimental reasoner; requires validation before use.
    Proposal,
    /// Branching/scheduling hint only; never used for soundness-critical decisions.
    Hint,
}

/// A utility or score in billionths: 1_000_000_000 stands for 1.0.
pub type Utility = u32;

/// The utility 1.0.
pub const UTILITY_ONE: u32 = 1_000_000_000;

// ---------------------------------------------------------------------------
// Per-kind payloads
// ---------------------------------------------------------------------------

/// Assumptions are stored as a sorted short vector of literals.
pub type AssumptionSet = LitVec;

/// Clause knowledge: a disjunction of literals that is valid under `assumptions`.
#[derive(Debug)]
pub struct ClauseKnowledge {
    /// Literals of the clause, in canonical (sorted) order.
    pub literals: LitVec,
    /// LBD (Literal Block Distance) score at derivation time.
    pub lbd: u32,
}

/// Theory lemma: a logical consequence valid under given theory context.
#[derive(Debug)]
pub struct TheoryLemma {
    /// Encoded conclusion (theory-specific; opaque outside the theory).
    pub conclusion_bytes: Vec<u8>,
    /// Human-readable tag for telemetry (e.g., "euf_congruence", "arith_bound").
    pub theory_tag: String,
}

/// Arithmetic or bit-vector bound on a term.
#[derive(Debug)]
pub struct BoundKnowledge {
    /// Term identifier (from the term DAG).
    pub term_id: u64,
    pub kind: BoundKind,
    /// Encoded value (interpretation is theory-specific).
    pub value_bytes: Vec<u8>,
}

#[derive(Clone, Copy, PartialEq, Eq, Debug, Structural)]
pub enum BoundKind {
    LessEq,
    GreaterEq,
    Equal,
    NotEqual,
}

/// A set of assumptions forming a sub-problem.
#[derive(Debug)]
pub struct CubeKnowledge {
    pub literals: LitVec,
}

/// A set of literals that are jointly inconsistent under the current theory.
#[derive(Debug)]
pub struct ConflictKnowledge {
    pub core: LitVec,
    pub theory_tag: String,
}

/// A partial satisfying assignment, proposed by an incomplete worker.
#[derive(Debug)]
pub struct ModelFragment {
    /// Variable → bool assignments. Sparse: may not cover all variables.
    pub assignments: Vec<(u32, bool)>,
}

/// A fragment of a proof derivation.
#[derive(Debug)]
pub struct ProofFragment {
    pub kind: ProofFragmentKind,
    pub bytes: Vec<u8>,
}

#[derive(Clone, Copy, PartialEq, Eq, Debug, Structural)]
pub enum ProofFragmentKind {
    Resolution,
    TheoryCertificate,
    ModelCheck,
}

/// Heuristic scoring hint for branching or routing.
#[derive(Debug)]
pub struct HeuristicHint {
    /// Variable → score pairs, highest first.
    pub scores: Vec<(u32, Utility)>,
    pub source_tag: String,
}

/// Knowledge kind discriminant (for routing/filtering by kind alone).
#[derive(Clone, Copy, PartialEq, Eq, Hash, Debug, Structural)]
pub enum KnowledgeKindTag {
    Clause,
    TheoryLemma,
    Bound,
    Cube,
    Conflict,
    ModelFragment,
    ProofFragment,
    HeuristicHint,
}

#[derive(Debug)]
pub enum KnowledgeKind {
    Clause(ClauseKnowledge),
    TheoryLemma(TheoryLemma),
    Bound(BoundKnowledge),
    Cube(CubeKnowledge),
    Conflict(ConflictKnowledge),
    ModelFragment(ModelFragment),
    ProofFragment(ProofFragment),
    HeuristicHint(HeuristicHint),
}

/// The contents of a knowledge kind.
#[verifier::ext_equal]
pub enum KindView {
    Clause { literals: Seq<Literal>, lbd: u32 },
    TheoryLemma { bytes: Seq<u8>, tag: Seq<char> },
    Bound { term_id: u64, kind: BoundKind, bytes: Seq<u8> },
    Cube { literals: Seq<Literal> },
    Conflict { core: Seq<Literal>, tag: Seq<char> },
    ModelFragment { assignments: Seq<(u32, bool)> },
    ProofFragment { form: ProofFragmentKind, bytes: Seq<u8> },
    HeuristicHint { scores: Seq<(u32, Utility)>, tag: Seq<char> },
}

impl View for KnowledgeKind {
    type V = KindView;

    open spec fn view(&self) -> KindView {
        match self {
            KnowledgeKind::Clause(c) => KindView::Clause { literals: c.literals@, lbd: c.lbd },
            KnowledgeKind::TheoryLemma(t) => KindView::TheoryLemma {
                bytes: t.conclusion_bytes@,
                tag: t.theory_tag@,
            },
            KnowledgeKind::Bound(b) => KindView::Bound {
                term_id: b.term_id,
                kind: b.kind,
                bytes: b.value_bytes@,
            },
            KnowledgeKind::Cube(c) => KindView::Cube { literals: c.literals@ },
            KnowledgeKind::Conflict(c) => KindView::Conflict {
                core: c.core@,
                tag: c.theory_tag@,
            },
            KnowledgeKind::ModelFragment(m) => KindView::ModelFragment {
                assignments: m.assignments@,
            },
            KnowledgeKind::ProofFragment(p) => KindView::ProofFragment {
                form: p.kind,
                bytes: p.bytes@,
            },
            KnowledgeKind::HeuristicHint(h) => KindView::HeuristicHint {
                scores: h.scores@,
                tag: h.source_tag@,
            },
        }
    }
}

/// The discriminant of a kind.
pub open spec fn tag_of(k: KindView) -> KnowledgeKindTag {
    match k {
        KindView::Clause { .. } => KnowledgeKindTag::Clause,
        KindView::TheoryLemma { .. } => KnowledgeKindTag::TheoryLemma,
        KindView::Bound { .. } => KnowledgeKindTag::Bound,
        KindView::Cube { .. } => KnowledgeKindTag::Cube,
        KindView::Conflict { .. } => KnowledgeKindTag::Conflict,
        KindView::ModelFragment { .. } => KnowledgeKindTag::ModelFragment,
        KindView::ProofFragment { .. } => KnowledgeKindTag::ProofFragment,
        KindView::HeuristicHint { .. } => KnowledgeKindTag::HeuristicHint,
    }
}

impl KnowledgeKind {
    pub fn tag(&self) -> (t: KnowledgeKindTag)
        ensures
            t == tag_of(self@),
    {
        match self {
            KnowledgeKind::Clause(_) => KnowledgeKindTag::Clause,
            KnowledgeKind::TheoryLemma(_) => KnowledgeKindTag::TheoryLemma,
            KnowledgeKind::Bound(_) => KnowledgeKindTag::Bound,
            KnowledgeKind::Cube(_) => KnowledgeKindTag::Cube,
            KnowledgeKind::Conflict(_) => KnowledgeKindTag::Conflict,
            KnowledgeKind::ModelFragment(_) => KnowledgeKindTag::ModelFragment,
            KnowledgeKind::ProofFragment(_) => KnowledgeKindTag::ProofFragment,
            KnowledgeKind::HeuristicHint(_) => KnowledgeKindTag::HeuristicHint,
        }
    }
}

fn copy_bytes(v: &Vec<u8>) -> (r: Vec<u8>)
    ensures
        r@ == v@,
{
    vstd::slice::slice_to_vec(v.as_slice())
}

impl Clone for KnowledgeKind {
    fn clone(&self) -> (k: Self)
        ensures
            k@ == self@,
    {
        match self {
            KnowledgeKind::Clause(c) => KnowledgeKind::Clause(
                ClauseKnowledge { literals: c.literals.clone(), lbd: c.lbd },
            ),
            KnowledgeKind::TheoryLemma(t) => KnowledgeKind::TheoryLemma(
                TheoryLemma {
                    conclusion_bytes: copy_bytes(&t.conclusion_bytes),
                    theory_tag: t.theory_tag.clone(),
                },
            ),
            KnowledgeKind::Bound(b) => KnowledgeKind::Bound(
                BoundKnowledge {
                    term_id: b.term_id,
                    kind: b.kind,
                    value_bytes: copy_bytes(&b.value_bytes),
                },
            ),
            KnowledgeKind::Cube(c) => KnowledgeKind::Cube(
                CubeKnowledge { literals: c.literals.clone() },
            ),
            KnowledgeKind::Conflict(c) => KnowledgeKind::Conflict(
                ConflictKnowledge { core: c.core.clone(), theory_tag: c.theory_tag.clone() },
            ),
            KnowledgeKind::ModelFragment(m) => KnowledgeKind::ModelFragment(
                ModelFragment {
                    assignments: vstd::slice::slice_to_vec(m.assignments.as_slice()),
                },
            ),
            KnowledgeKind::ProofFragment(p) => KnowledgeKind::ProofFragment(
                ProofFragment { kind: p.kind, bytes: copy_bytes(&p.bytes) },
            ),
            KnowledgeKind::HeuristicHint(h) => KnowledgeKind::HeuristicHint(
                HeuristicHint {
                    scores: vstd::slice::slice_to_vec(h.scores.as_slice()),
                    source_tag: h.source_tag.clone(),
                },
            ),
        }
    }
}

/// A complete knowledge object.
///
/// Validity obligation: `F ∧ assumptions ⊨ conclusion`
/// where F is the original problem formula (globally fixed).
///
/// Unconditional knowledge has `assumptions = []`.
#[derive(Debug)]
pub struct KnowledgeObject {
    pub id: KnowledgeId,
    pub kind: KnowledgeKind,
    /// Sorted assumption literals under which `kind` was derived.
    /// Empty means the conclusion is unconditional (valid for the whole problem).
    pub assumptions: AssumptionSet,
    pub scope: Scope,
    pub trust: TrustLevel,
    /// Utility estimate between 0 and 1; higher = more likely to be useful.
    pub utility: Utility,
    pub proof_ref: Option<ProofRef>,
    /// ID of the worker that produced this object.
    pub source: u32,
}

/// The contents of a knowledge object.
#[verifier::ext_equal]
pub struct ObjectView {
    pub id: KnowledgeId,
    pub kind: KindView,
    pub assumptions: Seq<Literal>,
    pub scope: Scope,
    pub trust: TrustLevel,
    pub utility: Utility,
    pub proof_ref: Option<ProofRef>,
    pub source: u32,
}

impl View for KnowledgeObject {
    type V = ObjectView;

    open spec fn view(&self) -> ObjectView {
        ObjectView {
            id: self.id,
            kind: self.kind@,
            assumptions: self.assumptions@,
            scope: self.scope,
            trust: self.trust,
            utility: self.utility,
            proof_ref: self.proof_ref,
            source: self.source,
        }
    }
}

impl Clone for KnowledgeObject {
    fn clone(&self) -> (o: Self)
        ensures
            o@ == self@,
    {
        KnowledgeObject {
            id: self.id,
            kind: self.kind.clone(),
            assumptions: self.assumptions.clone(),
            scope: self.scope,
            trust: self.trust,
            utility: self.utility,
            proof_ref: self.proof_ref,
            source: self.source,
        }
    }
}

/// The next wider scope.
pub open spec fn wider(s: Scope) -> Option<Scope> {
    match s {
        Scope::Local => Some(Scope::Process),
        Scope::Process => Some(Scope::Node),
        Scope::Node => Some(Scope::Global),
        Scope::Global => None,
    }
}

impl KnowledgeObject {
    /// True if this is an unconditional consequence.
    pub fn is_unconditional(&self) -> (b: bool)
        ensures
            b == (self@.assumptions.len() == 0),
    {
        self.assumptions.is_empty()
    }

    /// The Scope required to share this object one level up the hierarchy.
    pub fn promoted_scope(&self) -> (s: Option<Scope>)
        ensures
            s == wider(self.scope),
    {
        match self.scope {
            Scope::Local => Some(Scope::Process),
            Scope::Process => Some(Scope::Node),
            Scope::Node => Some(Scope::Global),
            Scope::Global => None,
        }
    }
}

/// Promotion widens the scope by exactly one step, and ends at the cluster.
pub proof fn promotion_is_one_step(s: Scope)
    ensures
        wider(s) matches Some(w) ==> scope_rank(w) == scope_rank(s) + 1,
        wider(s) is None <==> s == Scope::Global,
{
}

// ---------------------------------------------------------------------------
// Canonical hash for deduplication
// ---------------------------------------------------------------------------

pub open spec fn tag_word(t: KnowledgeKindTag) -> u64 {
    match t {
        KnowledgeKindTag::Clause => 0,
        KnowledgeKindTag::TheoryLemma => 1,
        KnowledgeKindTag::Bound => 2,
        KnowledgeKindTag::Cube => 3,
        KnowledgeKindTag::Conflict => 4,
        KnowledgeKindTag::ModelFragment => 5,
        KnowledgeKindTag::ProofFragment => 6,
        KnowledgeKindTag::HeuristicHint => 7,
    }
}

pub open spec fn bound_word(k: BoundKind) -> u64 {
    match k {
        BoundKind::LessEq => 0,
        BoundKind::GreaterEq => 1,
        BoundKind::Equal => 2,
        BoundKind::NotEqual => 3,
    }
}

pub open spec fn lit_words(lits: Seq<Literal>) -> Seq<u64> {
    lits.map_values(|l: Literal| l.0 as u64)
}

pub open spec fn byte_words(bytes: Seq<u8>) -> Seq<u64> {
    bytes.map_values(|b: u8| b as u64)
}

/// A variable and its value as one word.
pub open spec fn assignment_word(a: (u32, bool)) -> u64 {
    (a.0 * 2 + (if a.1 { 1int } else { 0 })) as u64
}

pub open spec fn assignment_words(s: Seq<(u32, bool)>) -> Seq<u64> {
    s.map_values(|a: (u32, bool)| assignment_word(a))
}

/// What of a kind is its conclusion, as words. Hints are not compared by
/// content; each is fresh.
pub open spec fn conclusion_words(k: KindView, id: KnowledgeId) -> Seq<u64> {
    match k {
        KindView::Clause { literals, lbd } => lit_words(literals),
        KindView::TheoryLemma { bytes, tag } => byte_words(bytes),
        KindView::Bound { term_id, kind, bytes } => seq![term_id, bound_word(kind)] + byte_words(
            bytes,
        ),
        KindView::Cube { literals } => lit_words(literals),
        KindView::Conflict { core, tag } => lit_words(core),
        KindView::ModelFragment { assignments } => assignment_words(assignments),
        KindView::ProofFragment { form, bytes } => byte_words(bytes),
        KindView::HeuristicHint { scores, tag } => seq![id.0],
    }
}

/// The words that identify a conclusion together with its assumptions.
pub open spec fn key_words(o: ObjectView) -> Seq<u64> {
    seq![tag_word(tag_of(o.kind)), o.assumptions.len() as u64] + lit_words(o.assumptions)
        + conclusion_words(o.kind, o.id)
}

/// The words that identify a conclusion, whatever its assumptions.
pub open spec fn bare_words(o: ObjectView) -> Seq<u64> {
    seq![tag_word(tag_of(o.kind))] + conclusion_words(o.kind, o.id)
}

/// The deduplication key of an object.
pub open spec fn key_of(o: ObjectView) -> u64 {
    fx::hash_of(key_words(o))
}

/// The key of an object's conclusion alone.
pub open spec fn bare_key_of(o: ObjectView) -> u64 {
    fx::hash_of(bare_words(o))
}

fn push_lits(words: &mut Vec<u64>, lits: &[Literal])
    ensures
        final(words)@ == old(words)@ + lit_words(lits@),
{
    let mut i: usize = 0;
    assert(words@ =~= old(words)@ + lit_words(lits@).take(0));
    while i < lits.len()
        invariant
            i <= lits@.len(),
            words@ == old(words)@ + lit_words(lits@).take(i as int),
        decreases lits@.len() - i,
    {
        words.push(lits[i].raw() as u64);
        assert(words@ =~= old(words)@ + lit_words(lits@).take(i + 1));
        i += 1;
    }
    assert(lit_words(lits@).take(i as int) =~= lit_words(lits@));
}

fn push_bytes(words: &mut Vec<u64>, bytes: &Vec<u8>)
    ensures
        final(words)@ == old(words)@ + byte_words(bytes@),
{
    let mut i: usize = 0;
    assert(words@ =~= old(words)@ + byte_words(bytes@).take(0));
    while i < bytes.len()
        invariant
            i <= bytes@.len(),
            words@ == old(words)@ + byte_words(bytes@).take(i as int),
        decreases bytes@.len() - i,
    {
        words.push(bytes[i] as u64);
        assert(words@ =~= old(words)@ + byte_words(bytes@).take(i + 1));
        i += 1;
    }
    assert(byte_words(bytes@).take(i as int) =~= byte_words(bytes@));
}

fn push_assignments(words: &mut Vec<u64>, s: &Vec<(u32, bool)>)
    ensures
        final(words)@ == old(words)@ + assignment_words(s@),
{
    let mut i: usize = 0;
    assert(words@ =~= old(words)@ + assignment_words(s@).take(0));
    while i < s.len()
        invariant
            i <= s@.len(),
            words@ == old(words)@ + assignment_words(s@).take(i as int),
        decreases s@.len() - i,
    {
        let (v, b) = s[i];
        let bit: u64 = if b {
            1
        } else {
            0
        };
        words.push(v as u64 * 2 + bit);
        assert(words@ =~= old(words)@ + assignment_words(s@).take(i + 1));
        i += 1;
    }
    assert(assignment_words(s@).take(i as int) =~= assignment_words(s@));
}

fn push_conclusion(words: &mut Vec<u64>, kind: &KnowledgeKind, id: KnowledgeId)
    ensures
        final(words)@ == old(words)@ + conclusion_words(kind@, id),
{
    match kind {
        KnowledgeKind::Clause(c) => push_lits(words, c.literals.as_slice()),
        KnowledgeKind::TheoryLemma(t) => push_bytes(words, &t.conclusion_bytes),
        KnowledgeKind::Bound(b) => {
            words.push(b.term_id);
            let k: u64 = match b.kind {
                BoundKind::LessEq => 0,
                BoundKind::GreaterEq => 1,
                BoundKind::Equal => 2,
                BoundKind::NotEqual => 3,
            };
            words.push(k);
            push_bytes(words, &b.value_bytes);
            assert(words@ =~= old(words)@ + conclusion_words(kind@, id));
        },
        KnowledgeKind::Cube(c) => push_lits(words, c.literals.as_slice()),
        KnowledgeKind::Conflict(c) => push_lits(words, c.core.as_slice()),
        KnowledgeKind::ModelFragment(m) => push_assignments(words, &m.assignments),
        KnowledgeKind::ProofFragment(p) => push_bytes(words, &p.bytes),
        KnowledgeKind::HeuristicHint(_) => {
            words.push(id.0);
            assert(words@ =~= old(words)@ + conclusion_words(kind@, id));
        },
    }
}

fn word_of(t: KnowledgeKindTag) -> (w: u64)
    ensures
        w == tag_word(t),
{
    match t {
        KnowledgeKindTag::Clause => 0,
        KnowledgeKindTag::TheoryLemma => 1,
        KnowledgeKindTag::Bound => 2,
        KnowledgeKindTag::Cube => 3,
        KnowledgeKindTag::Conflict => 4,
        KnowledgeKindTag::ModelFragment => 5,
        KnowledgeKindTag::ProofFragment => 6,
        KnowledgeKindTag::HeuristicHint => 7,
    }
}

/// Compute a deduplication key for a knowledge object.
///
/// Two objects are considered duplicates iff they have the same tag,
/// the same canonical conclusion, and the same sorted assumption set.
/// The key is the hash of the words that spell these three out.
pub fn canonical_key(obj: &KnowledgeObject) -> (key: u64)
    ensures
        key == key_of(obj@),
{
    let mut words: Vec<u64> = Vec::new();
    words.push(word_of(obj.kind.tag()));
    words.push(obj.assumptions.len() as u64);
    assert(words@ =~= seq![tag_word(tag_of(obj@.kind)), obj@.assumptions.len() as u64]);
    push_lits(&mut words, obj.assumptions.as_slice());
    push_conclusion(&mut words, &obj.kind, obj.id);
    fx::hash_words(words.as_slice())
}

/// Compute a key for the conclusion of a knowledge object, whatever its
/// assumptions. An unconditional version of a conclusion supersedes all
/// conditional versions, which share this key.
pub fn conclusion_key(obj: &KnowledgeObject) -> (key: u64)
    ensures
        key == bare_key_of(obj@),
{
    let mut words: Vec<u64> = Vec::new();
    words.push(word_of(obj.kind.tag()));
    assert(words@ =~= seq![tag_word(tag_of(obj@.kind))]);
    push_conclusion(&mut words, &obj.kind, obj.id);
    fx::hash_words(words.as_slice())
}

/// What of a kind is compared when two objects are held against each other.
pub open spec fn same_conclusion(a: ObjectView, b: ObjectView) -> bool {
    match (a.kind, b.kind) {
        (KindView::Clause { literals: x, lbd: l1 }, KindView::Clause { literals: y, lbd: l2 }) => x
            == y,
        (
            KindView::TheoryLemma { bytes: x, tag: t1 },
            KindView::TheoryLemma { bytes: y, tag: t2 },
        ) => x == y,
        (
            KindView::Bound { term_id: i, kind: k, bytes: x },
            KindView::Bound { term_id: j, kind: l, bytes: y },
        ) => i == j && k == l && x == y,
        (KindView::Cube { literals: x }, KindView::Cube { literals: y }) => x == y,
        (KindView::Conflict { core: x, tag: t1 }, KindView::Conflict { core: y, tag: t2 }) => x
            == y,
        (
            KindView::ModelFragment { assignments: x },
            KindView::ModelFragment { assignments: y },
        ) => x == y,
        (
            KindView::ProofFragment { form: k, bytes: x },
            KindView::ProofFragment { form: l, bytes: y },
        ) => x == y,
        (
            KindView::HeuristicHint { scores: x, tag: t1 },
            KindView::HeuristicHint { scores: y, tag: t2 },
        ) => a.id == b.id,
        _ => false,
    }
}

/// The words behind `canonical_key` agree iff the tag, the conclusion and the
/// assumptions agree; the words behind `conclusion_key` agree iff the tag and
/// the conclusion agree.
pub proof fn key_words_identify(a: ObjectView, b: ObjectView)
    requires
        a.assumptions.len() <= u64::MAX,
        b.assumptions.len() <= u64::MAX,
    ensures
        key_words(a) == key_words(b) <==> same_conclusion(a, b) && a.assumptions == b.assumptions,
        bare_words(a) == bare_words(b) <==> same_conclusion(a, b),
{
    let ca = conclusion_words(a.kind, a.id);
    let cb = conclusion_words(b.kind, b.id);
    if bare_words(a) == bare_words(b) {
        assert(bare_words(a)[0] == bare_words(b)[0]);
        assert(bare_words(a).skip(1) =~= ca);
        assert(bare_words(b).skip(1) =~= cb);
        conclusion_injective(a, b);
    }
    if key_words(a) == key_words(b) {
        let ka = key_words(a);
        let kb = key_words(b);
        let n = a.assumptions.len() as int;
        assert(ka[0] == kb[0] && ka[1] == kb[1]);
        assert(ka[1] == a.assumptions.len() && kb[1] == b.assumptions.len());
        assert(ka.subrange(2, n + 2) =~= lit_words(a.assumptions));
        assert(kb.subrange(2, n + 2) =~= lit_words(b.assumptions));
        lit_words_injective(a.assumptions, b.assumptions);
        assert(ka.skip(n + 2) =~= ca);
        assert(kb.skip(n + 2) =~= cb);
        conclusion_injective(a, b);
    }
    if same_conclusion(a, b) {
        assert(ca =~= cb);
        assert(tag_of(a.kind) == tag_of(b.kind));
    }
}

/// Two different sequences of words with the same hash.
pub open spec fn collide(a: Seq<u64>, b: Seq<u64>) -> bool {
    a != b && fx::hash_of(a) == fx::hash_of(b)
}

/// Objects have the same key if and only if they are duplicates (the tag, the
/// conclusion and the assumptions agree), or the hash happens to be the same
/// for the different words that spell them out.
pub proof fn keys_identify(a: ObjectView, b: ObjectView)
    requires
        a.assumptions.len() <= u64::MAX,
        b.assumptions.len() <= u64::MAX,
    ensures
        key_of(a) == key_of(b) <==> {
            ||| same_conclusion(a, b) && a.assumptions == b.assumptions
            ||| collide(key_words(a), key_words(b))
        },
        bare_key_of(a) == bare_key_of(b) <==> {
            ||| same_conclusion(a, b)
            ||| collide(bare_words(a), bare_words(b))
        },
{
    key_words_identify(a, b);
}

proof fn lit_words_injective(a: Seq<Literal>, b: Seq<Literal>)
    requires
        lit_words(a) == lit_words(b),
    ensures
        a == b,
{
    assert(a.len() == lit_words(a).len() && b.len() == lit_words(b).len());
    assert forall|i: int| 0 <= i < a.len() implies a[i] == b[i] by {
        assert(lit_words(a)[i] == a[i].0 as u64);
        assert(lit_words(b)[i] == b[i].0 as u64);
    }
    assert(a =~= b);
}

proof fn byte_words_injective(a: Seq<u8>, b: Seq<u8>)
    requires
        byte_words(a) == byte_words(b),
    ensures
        a == b,
{
    assert(a.len() == byte_words(a).len() && b.len() == byte_words(b).len());
    assert forall|i: int| 0 <= i < a.len() implies a[i] == b[i] by {
        assert(byte_words(a)[i] == a[i] as u64);
        assert(byte_words(b)[i] == b[i] as u64);
    }
    assert(a =~= b);
}

proof fn conclusion_injective(a: ObjectView, b: ObjectView)
    requires
        tag_word(tag_of(a.kind)) == tag_word(tag_of(b.kind)),
        conclusion_words(a.kind, a.id) == conclusion_words(b.kind, b.id),
    ensures
        same_conclusion(a, b),
{
    let ca = conclusion_words(a.kind, a.id);
    let cb = conclusion_words(b.kind, b.id);
    match (a.kind, b.kind) {
        (KindView::Clause { literals: x, lbd: l1 }, KindView::Clause { literals: y, lbd: l2 }) => {
            lit_words_injective(x, y);
        },
        (
            KindView::TheoryLemma { bytes: x, tag: t1 },
            KindView::TheoryLemma { bytes: y, tag: t2 },
        ) => {
            byte_words_injective(x, y);
        },
        (
            KindView::Bound { term_id: i, kind: k, bytes: x },
            KindView::Bound { term_id: j, kind: l, bytes: y },
        ) => {
            assert(ca[0] == cb[0] && ca[1] == cb[1]);
            assert(ca.skip(2) =~= byte_words(x));
            assert(cb.skip(2) =~= byte_words(y));
            byte_words_injective(x, y);
        },
        (KindView::Cube { literals: x }, KindView::Cube { literals: y }) => {
            lit_words_injective(x, y);
        },
        (KindView::Conflict { core: x, tag: t1 }, KindView::Conflict { core: y, tag: t2 }) => {
            lit_words_injective(x, y);
        },
        (
            KindView::ModelFragment { assignments: x },
            KindView::ModelFragment { assignments: y },
        ) => {
            assert(x.len() == ca.len() && y.len() == cb.len());
            assert forall|i: int| 0 <= i < x.len() implies x[i] == y[i] by {
                assert(ca[i] == assignment_word(x[i]) && cb[i] == assignment_word(y[i]));
            }
            assert(x =~= y);
        },
        (
            KindView::ProofFragment { form: k, bytes: x },
            KindView::ProofFragment { form: l, bytes: y },
        ) => {
            byte_words_injective(x, y);
        },
        (
            KindView::HeuristicHint { scores: x, tag: t1 },
            KindView::HeuristicHint { scores: y, tag: t2 },
        ) => {
            assert(ca[0] == cb[0]);
        },
        _ => {},
    }
}

} // verus!
