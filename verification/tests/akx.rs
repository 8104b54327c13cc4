//! Literals, filters, keys and the import gate.

use reasonmesh::akx::filter::{BloomFilter, SplitMix64, ZobristContext};
use reasonmesh::akx::fx::hash_words;
use reasonmesh::akx::import::{
    classify_import, ImportAction, ImportContext, ImportDecision, ImportGate,
};
use reasonmesh::akx::knowledge::{
    canonical_key, conclusion_key, BoundKind, BoundKnowledge, ClauseKnowledge, KnowledgeId,
    KnowledgeKind, KnowledgeKindTag, KnowledgeObject, Scope, TrustLevel,
};
use reasonmesh::akx::literal::Literal;
use reasonmesh::akx::litvec::LitVec;
use reasonmesh::akx::policy::{ExportPolicy, ImportPolicy};
use reasonmesh::akx::tagvec::TagVec;
use reasonmesh::akx::work::{CubePath, PartialModel, Priority, WorkBudget};

fn utility(x: f64) -> u32 {
    (x * 1e9).round() as u32
}

fn clause_obj(id: u64, lits: &[Literal], assumptions: &[Literal], u: f64) -> KnowledgeObject {
    KnowledgeObject {
        id: KnowledgeId(id),
        kind: KnowledgeKind::Clause(ClauseKnowledge {
            literals: LitVec::from_slice(lits),
            lbd: 1,
        }),
        assumptions: LitVec::from_slice(assumptions),
        scope: Scope::Process,
        trust: TrustLevel::Trusted,
        utility: utility(u),
        proof_ref: None,
        source: 1,
    }
}

#[test]
fn roundtrip() {
    for var in 0..1000u32 {
        let pos = Literal::positive(var);
        let neg = Literal::negative(var);
        assert_eq!(pos.var(), var);
        assert_eq!(neg.var(), var);
        assert!(pos.is_positive());
        assert!(neg.is_negative());
        assert_eq!(pos.negate(), neg);
        assert_eq!(neg.negate(), pos);
    }
}

#[test]
fn xor_negate() {
    let l = Literal::positive(42);
    assert_eq!(l.negate().negate(), l);
}

#[test]
fn bloom_never_false_negative() {
    let ctx_lits = [
        Literal::positive(1),
        Literal::negative(3),
        Literal::positive(5),
        Literal::negative(8),
    ];
    let bloom = BloomFilter::over(&ctx_lits, 256, 4);
    for l in ctx_lits {
        assert!(bloom.maybe_contains(l));
    }
    // Subset of the context must survive the pre-filter.
    let subset = [Literal::positive(1), Literal::negative(8)];
    assert!(bloom.maybe_contains_all(&subset));
    // Definitely-absent literal must be caught.
    assert!(!bloom.maybe_contains(Literal::positive(42)));
}

#[test]
fn bloom_prefilter_never_blocks_true_subsets_fuzz() {
    let mut rng = SplitMix64::new(7);
    for _ in 0..200 {
        let ctx: Vec<Literal> = (0..12)
            .map(|_| {
                let v = 1 + (rng.next_u64() % 8) as u32;
                if rng.next_u64() & 1 == 0 {
                    Literal::positive(v)
                } else {
                    Literal::negative(v)
                }
            })
            .collect();
        let bloom = BloomFilter::over(&ctx, 512, 4);
        let subset: Vec<Literal> = ctx
            .iter()
            .copied()
            .filter(|_| rng.next_u64() & 1 == 0)
            .collect();
        // No false negatives: a real subset always passes the pre-filter.
        assert!(
            bloom.maybe_contains_all(&subset),
            "false negative on {subset:?}"
        );
    }
}

#[test]
fn bloom_is_deterministic() {
    let ctx = [Literal::positive(2), Literal::negative(4)];
    let a = BloomFilter::over(&ctx, 128, 3);
    let b = BloomFilter::over(&ctx, 128, 3);
    assert_eq!(format!("{:?}", a), format!("{:?}", b));
}

#[test]
fn zobrist_is_order_independent() {
    let lits = [
        Literal::positive(1),
        Literal::negative(2),
        Literal::positive(3),
    ];
    let f1 = ZobristContext::fingerprint_of(&lits, 4, 99);
    let mut reversed = lits;
    reversed.reverse();
    let f2 = ZobristContext::fingerprint_of(&reversed, 4, 99);
    assert_eq!(f1, f2);
}

#[test]
fn zobrist_incremental_matches_static() {
    let mut z = ZobristContext::new(5, 42);
    z.add(Literal::negative(2));
    z.add(Literal::positive(1));
    // {¬x2, x1} built incrementally == static set fingerprint.
    let set = vec![Literal::positive(1), Literal::negative(2)];
    let static_fp = ZobristContext::fingerprint_of(&set, 5, 42);
    assert_eq!(z.fingerprint(), static_fp);
    // Adding a duplicate breaks set semantics (XOR toggles); callers must
    // maintain a set. Verify the documented contract holds: adding an
    // already-present literal would toggle it back out.
    z.add(Literal::negative(2));
    let not_dupe: Vec<Literal> = vec![Literal::positive(1)];
    assert_eq!(
        z.fingerprint(),
        ZobristContext::fingerprint_of(&not_dupe, 5, 42)
    );
}

#[test]
fn zobrist_remove_inverts_add() {
    let mut z = ZobristContext::new(5, 1);
    let before = z.fingerprint();
    z.add(Literal::positive(3));
    z.add(Literal::negative(1));
    let mid = z.fingerprint();
    assert_ne!(before, mid);
    let only_x3 = ZobristContext::fingerprint_of(&[Literal::positive(3)], 5, 1);
    assert_eq!(z.remove(Literal::negative(1)), Some(only_x3));
    assert_eq!(z.fingerprint(), only_x3);
}

#[test]
fn zobrist_deterministic_across_instances() {
    let lits = [Literal::positive(1), Literal::negative(2)];
    let a = ZobristContext::fingerprint_of(&lits, 5, 77);
    let b = ZobristContext::fingerprint_of(&lits, 5, 77);
    assert_eq!(a, b);
}

#[test]
fn contains_all_merge_matches_brute_force() {
    for seed in 0..200u32 {
        let mut state: u64 = seed as u64;
        let mut rng = move || {
            state = state
                .wrapping_mul(6364136223846793005)
                .wrapping_add(1442695040888963407);
            (state >> 33) as u32
        };
        let ctx_lits: Vec<Literal> = (0..8)
            .map(|_| {
                let v = 1 + (rng() % 6);
                if rng() & 1 == 0 {
                    Literal::positive(v)
                } else {
                    Literal::negative(v)
                }
            })
            .collect();
        let ctx = ImportContext::from_assumptions(&ctx_lits);
        let asmpts: Vec<Literal> = (0..3)
            .map(|_| {
                let v = 1 + (rng() % 6);
                if rng() & 1 == 0 {
                    Literal::positive(v)
                } else {
                    Literal::negative(v)
                }
            })
            .collect();
        let expected = asmpts.iter().all(|l| ctx_lits.contains(l));
        let mut sorted = asmpts.clone();
        sorted.sort_unstable();
        let merge = ctx.contains_all(&sorted);
        assert_eq!(merge, expected);
        // unsorted fallback must agree too
        assert_eq!(ctx.contains_all(&asmpts), expected);
    }
}

#[test]
fn classify_unconditional_is_always_apply() {
    let ctx = ImportContext::new();
    let obj = clause_obj(1, &[Literal::positive(1)], &[], 0.5);
    assert_eq!(classify_import(&ctx, &obj), ImportAction::Apply);
}

#[test]
fn classify_subset_applies() {
    let ctx = ImportContext::from_assumptions(&[Literal::positive(1), Literal::negative(3)]);
    // asmpts ⊆ ctx
    let obj = clause_obj(1, &[Literal::negative(2)], &[Literal::positive(1)], 0.5);
    assert_eq!(classify_import(&ctx, &obj), ImportAction::Apply);
}

#[test]
fn classify_partial_overlap_buffers() {
    let ctx = ImportContext::from_assumptions(&[Literal::positive(1)]);
    // overlap (x1) but not subset (also needs ¬x5)
    let obj = clause_obj(
        1,
        &[Literal::negative(2)],
        &[Literal::positive(1), Literal::negative(5)],
        0.5,
    );
    assert_eq!(classify_import(&ctx, &obj), ImportAction::Buffer);
}

#[test]
fn classify_no_overlap_discards() {
    let ctx = ImportContext::from_assumptions(&[Literal::positive(1)]);
    // asmpts = {¬x2, ¬x5}, no overlap with {x1}
    let obj = clause_obj(
        1,
        &[Literal::negative(2)],
        &[Literal::negative(2), Literal::negative(5)],
        0.5,
    );
    assert_eq!(classify_import(&ctx, &obj), ImportAction::Discard);
}

#[test]
fn classify_matches_brute_force() {
    let mut state: u64 = 2024;
    let mut rng = move || {
        state = state
            .wrapping_mul(6364136223846793005)
            .wrapping_add(1442695040888963407);
        (state >> 33) as u32
    };
    for _ in 0..2000 {
        // Random context: each of 6 variables is unassigned, set, or negated.
        let mut ctx_lits = Vec::new();
        for v in 1..=6u32 {
            let r = rng() % 3;
            match r {
                0 => {}
                1 => ctx_lits.push(Literal::positive(v)),
                _ => ctx_lits.push(Literal::negative(v)),
            }
        }
        let ctx = ImportContext::from_assumptions(&ctx_lits);

        // Random assumption set over the same variables.
        let asmpts: Vec<Literal> = (0..(1 + rng() % 4))
            .map(|_| {
                let v = 1 + (rng() % 6);
                if rng() & 1 == 0 {
                    Literal::positive(v)
                } else {
                    Literal::negative(v)
                }
            })
            .collect();
        let obj = clause_obj(1, &[Literal::positive(9)], &asmpts, 0.5);

        // Brute force: subset, overlap, or disjoint.
        let subset = asmpts.iter().all(|l| ctx_lits.contains(l));
        let overlap = asmpts.iter().any(|l| ctx_lits.contains(l));
        let expected = if asmpts.is_empty() || subset {
            ImportAction::Apply
        } else if overlap {
            ImportAction::Buffer
        } else {
            ImportAction::Discard
        };
        assert_eq!(
            classify_import(&ctx, &obj),
            expected,
            "ctx={:?} asmpts={:?}",
            ctx.literals(),
            &asmpts
        );
    }
}

#[test]
fn gate_applies_buffers_and_discards() {
    let policy = ImportPolicy::default();
    let mut gate = ImportGate::new(policy);
    gate.set_context(&[Literal::positive(1)]);

    let unconditional = clause_obj(1, &[Literal::positive(2)], &[], 0.9);
    let subset = clause_obj(2, &[Literal::positive(3)], &[Literal::positive(1)], 0.9);
    let overlap = clause_obj(
        3,
        &[Literal::positive(3)],
        &[Literal::positive(1), Literal::negative(5)],
        0.8,
    );
    let disjoint = clause_obj(
        4,
        &[Literal::positive(3)],
        &[Literal::negative(2), Literal::negative(5)],
        0.7,
    );

    let decisions = gate.submit(&[unconditional.clone(), subset.clone(), overlap, disjoint]);
    assert_eq!(decisions[0], ImportDecision::Applied);
    assert_eq!(decisions[1], ImportDecision::Applied);
    assert_eq!(decisions[2], ImportDecision::Buffered);
    assert_eq!(decisions[3], ImportDecision::DiscardedNoOverlap);
    assert_eq!(gate.buffer_len(), 1);
}

#[test]
fn buffered_object_applies_after_context_growth() {
    let policy = ImportPolicy::default();
    let mut gate = ImportGate::new(policy);
    gate.set_context(&[Literal::positive(1)]);
    let obj = clause_obj(
        5,
        &[Literal::positive(4)],
        &[Literal::positive(1), Literal::negative(5)],
        0.9,
    );
    let decisions = gate.submit(std::slice::from_ref(&obj));
    assert_eq!(decisions[0], ImportDecision::Buffered);
    assert_eq!(gate.buffer_len(), 1);

    // Now the worker extends its context with ¬x5: the object becomes
    // applicable and is drained by set_context.
    let mut next_ctx = vec![Literal::positive(1), Literal::negative(5)];
    next_ctx.sort_unstable();
    let ok = gate.set_context(&next_ctx);
    assert_eq!(ok.len(), 1);
    assert_eq!(ok[0].id, obj.id);
    assert_eq!(gate.buffer_len(), 0);
}

#[test]
fn buffered_object_dropped_after_overlap_vanishes() {
    let policy = ImportPolicy::default();
    let mut gate = ImportGate::new(policy);
    gate.set_context(&[Literal::positive(1)]);
    let obj = clause_obj(
        5,
        &[Literal::positive(4)],
        &[Literal::positive(1), Literal::negative(5)],
        0.9,
    );
    let decisions = gate.submit(&[obj]);
    assert_eq!(decisions[0], ImportDecision::Buffered);

    // Context changes away entirely: no overlap → discarded.
    gate.set_context(&[Literal::negative(6)]);
    assert_eq!(gate.buffer_len(), 0);
}

#[test]
fn gate_deduplicates_applied_conclusions() {
    let policy = ImportPolicy::default();
    let mut gate = ImportGate::new(policy);
    gate.set_context(&[]);
    let a = clause_obj(9, &[Literal::positive(2)], &[], 0.9);
    let b = clause_obj(99, &[Literal::positive(2)], &[], 0.9);
    let decisions = gate.submit(&[a, b]);
    assert_eq!(decisions[0], ImportDecision::Applied);
    assert_eq!(decisions[1], ImportDecision::Duplicate);
}

#[test]
fn buffer_evicts_low_utility() {
    let policy = ImportPolicy {
        buffer_capacity: 2,
        ..ImportPolicy::default()
    };
    let mut gate = ImportGate::new(policy);
    gate.set_context(&[Literal::positive(1)]);
    let cond = |id: u64, util: f64, asmpt: Literal| {
        clause_obj(
            id,
            &[Literal::positive(4)],
            &[Literal::positive(1), asmpt],
            util,
        )
    };
    let high = cond(1, 0.9, Literal::negative(5));
    let mid = cond(2, 0.5, Literal::negative(6));
    let low = cond(3, 0.1, Literal::negative(7));
    gate.submit(&[high, mid, low]);
    assert_eq!(gate.buffer_len(), 2);
    // The evicted one must be the lowest utility.
    let ids: Vec<u64> = (0..gate.buffer().len())
        .map(|i| gate.buffer().get(i).id.0)
        .collect();
    assert!(!ids.contains(&3));
    assert!(ids.contains(&1) && ids.contains(&2));
}

#[test]
fn low_utility_is_rejected_by_policy() {
    let policy = ImportPolicy {
        min_utility: 500_000_000,
        ..ImportPolicy::default()
    };
    let mut gate = ImportGate::new(policy);
    gate.set_context(&[]);
    let obj = clause_obj(1, &[Literal::positive(2)], &[], 0.2);
    let d = gate.submit(&[obj]);
    assert_eq!(d[0], ImportDecision::DiscardedLowUtility);
}

#[test]
fn bloom_prefilter_never_changes_decisions() {
    // Property: with the Bloom pre-filter enabled, decisions are identical
    // to the exact predicate. Bloom has no false negatives, so it can only
    // skip objects that would be DiscardedNoOverlap anyway.
    let policy = ImportPolicy::default();
    let mut exact = ImportGate::new(policy);
    let mut bloom = ImportGate::with_bloom(policy, 16, 4);

    let mut state: u64 = 42;
    let mut rng = move || {
        state = state
            .wrapping_mul(6364136223846793005)
            .wrapping_add(1442695040888963407);
        (state >> 33) as u32
    };

    for round in 0..50 {
        let mut ctx_lits = Vec::new();
        for v in 1..=8u32 {
            if rng() % 3 == 0 {
                continue;
            }
            ctx_lits.push(if rng() & 1 == 0 {
                Literal::positive(v)
            } else {
                Literal::negative(v)
            });
        }
        let mut ctx_sorted = ctx_lits.clone();
        ctx_sorted.sort_unstable();
        let applied_exact = exact.set_context(&ctx_sorted);
        let applied_bloom = bloom.set_context(&ctx_sorted);
        assert_eq!(applied_exact.len(), applied_bloom.len());

        let batch: Vec<KnowledgeObject> = (0..20)
            .map(|i| {
                let asmpts: Vec<Literal> = (0..(1 + rng() % 4))
                    .map(|_| {
                        let v = 1 + (rng() % 8);
                        if rng() & 1 == 0 {
                            Literal::positive(v)
                        } else {
                            Literal::negative(v)
                        }
                    })
                    .collect();
                let util = (rng() % 10) as f64 / 10.0;
                clause_obj(
                    100 + round as u64 * 20 + i,
                    &[Literal::positive(9)],
                    &asmpts,
                    util,
                )
            })
            .collect();
        let d_exact = exact.submit(&batch);
        let d_bloom = bloom.submit(&batch);
        assert_eq!(d_exact, d_bloom, "round {round}");
        assert_eq!(exact.buffer_len(), bloom.buffer_len());
    }
}

#[test]
fn split_mix_known_values() {
    let mut rng = SplitMix64::new(0);
    assert_eq!(rng.next_u64(), 0xE220A8397B1DCDAF);
    assert_eq!(rng.next_u64(), 0x6E789E6AA1B965F4);
    assert_eq!(SplitMix64::hash64(0), SplitMix64::new(0).next_u64());
}

#[test]
fn zero_bit_filter_passes_everything() {
    let f = BloomFilter::new(0, 4);
    assert_eq!(f.num_bits(), 0);
    assert!(f.maybe_contains(Literal::positive(3)));
}

#[test]
fn zobrist_unknown_literals_do_not_count() {
    let mut z = ZobristContext::new(2, 9);
    let before = z.fingerprint();
    z.add(Literal::positive(50));
    assert_eq!(z.fingerprint(), before);
}

#[test]
fn context_push_and_remove() {
    let mut ctx = ImportContext::new();
    assert!(ctx.push(Literal::positive(4)));
    assert!(ctx.push(Literal::negative(2)));
    assert!(!ctx.push(Literal::positive(4)));
    assert_eq!(ctx.literals(), &[Literal::negative(2), Literal::positive(4)]);
    assert!(ctx.contains(Literal::positive(4)));
    assert!(ctx.remove(Literal::positive(4)));
    assert!(!ctx.remove(Literal::positive(4)));
    assert_eq!(ctx.literals(), &[Literal::negative(2)]);
}

#[test]
fn nothing_is_buffered_without_items() {
    let mut gate = ImportGate::new(ImportPolicy { max_items: 0, ..ImportPolicy::default() });
    gate.set_context(&[Literal::positive(1)]);
    let a = clause_obj(1, &[Literal::positive(2)], &[], 0.9);
    let b = clause_obj(
        2,
        &[Literal::positive(3)],
        &[Literal::positive(1), Literal::positive(4)],
        0.9,
    );
    let d = gate.submit(&[a, b]);
    assert_eq!(d[0], ImportDecision::Applied);
    assert_eq!(d[1], ImportDecision::DiscardedNoOverlap);
    assert_eq!(gate.buffer_len(), 0);
}

#[test]
fn word_hash_depends_on_every_word() {
    let a = hash_words(&[1, 2, 3]);
    assert_ne!(a, hash_words(&[1, 2, 4]));
    assert_ne!(a, hash_words(&[2, 1, 3]));
    assert_eq!(a, hash_words(&[1, 2, 3]));
    assert_ne!(hash_words(&[7]), 7);
}

#[test]
fn keys_tell_assumptions_and_kinds_apart() {
    let lits = [Literal::positive(2), Literal::negative(3)];
    let bare = clause_obj(1, &lits, &[], 0.9);
    let same = clause_obj(77, &lits, &[], 0.1);
    let under = clause_obj(1, &lits, &[Literal::positive(5)], 0.9);
    assert_eq!(canonical_key(&bare), canonical_key(&same));
    assert_ne!(canonical_key(&bare), canonical_key(&under));
    assert_eq!(conclusion_key(&bare), conclusion_key(&under));
    let bound = |kind: BoundKind| KnowledgeObject {
        kind: KnowledgeKind::Bound(BoundKnowledge { term_id: 4, kind, value_bytes: vec![1] }),
        ..clause_obj(1, &[], &[], 0.5)
    };
    assert_ne!(
        canonical_key(&bound(BoundKind::LessEq)),
        canonical_key(&bound(BoundKind::GreaterEq))
    );
    assert_eq!(bare.kind.tag(), KnowledgeKindTag::Clause);
}

#[test]
fn scopes_widen_one_step() {
    let mut o = clause_obj(1, &[Literal::positive(1)], &[], 0.5);
    o.scope = Scope::Local;
    assert_eq!(o.promoted_scope(), Some(Scope::Process));
    o.scope = Scope::Process;
    assert_eq!(o.promoted_scope(), Some(Scope::Node));
    o.scope = Scope::Node;
    assert_eq!(o.promoted_scope(), Some(Scope::Global));
    o.scope = Scope::Global;
    assert_eq!(o.promoted_scope(), None);
}

#[test]
fn literal_vectors_keep_their_literals() {
    let mut v = LitVec::from_slice(&[Literal::positive(1), Literal::negative(2)]);
    assert!(!v.is_empty());
    v.push(Literal::positive(3));
    assert_eq!(v.len(), 3);
    assert_eq!(v.at(2), Literal::positive(3));
    v.swap(0, 2);
    assert_eq!(
        v.as_slice(),
        &[Literal::positive(3), Literal::negative(2), Literal::positive(1)]
    );
    assert!(v.contains(Literal::negative(2)));
    assert!(!v.contains(Literal::positive(2)));
    let mut w = v.clone();
    w.push(Literal::positive(9));
    assert_eq!(v.len(), 3);
    assert_eq!(w.as_slice()[..3], v.as_slice()[..]);
    // More literals than fit inline.
    let many: Vec<Literal> = (1..40).map(Literal::positive).collect();
    assert_eq!(LitVec::from_slice(&many).as_slice(), &many[..]);
}

#[test]
fn kind_filters_admit_what_they_list() {
    let all = TagVec::from_slice(&[]);
    assert!(all.admits(KnowledgeKindTag::Clause));
    let some = TagVec::from_slice(&[KnowledgeKindTag::Bound, KnowledgeKindTag::Cube]);
    assert!(some.admits(KnowledgeKindTag::Cube));
    assert!(!some.admits(KnowledgeKindTag::Clause));
    assert_eq!(some.clone().as_slice(), &[KnowledgeKindTag::Bound, KnowledgeKindTag::Cube]);
}

#[test]
fn policy_defaults() {
    let e = ExportPolicy::default();
    assert_eq!(e.watermark, KnowledgeId(0));
    assert_eq!(e.max_items, 256);
    assert_eq!(e.min_utility, 0);
    assert_eq!(e.max_scope, Scope::Global);
    let i = ImportPolicy::default();
    assert_eq!((i.max_items, i.min_utility, i.buffer_capacity), (512, 0, 1024));
}

#[test]
fn work_unit_parts() {
    assert_eq!(WorkBudget::default(), WorkBudget { max_conflicts: 5_000, max_ms: 500 });
    assert_eq!((Priority::LOW, Priority::NORMAL, Priority::HIGH), (0, 100, 200));
    let root = CubePath::default();
    let child = root.extend(Literal::positive(4));
    assert_eq!((root.depth(), child.depth()), (0, 1));
    assert_eq!(child.steps.as_slice(), &[Literal::positive(4)]);
    let m = PartialModel {
        assignments: vec![Some(false), Some(true), None],
        work_unit_ancestry: child,
    };
    assert_eq!(m.get(1), Some(true));
    assert_eq!(m.get(2), None);
    assert_eq!(m.get(7), None);
    assert!(!m.is_complete());
}

#[test]
fn released_objects_are_not_applied_again() {
    let mut gate = ImportGate::new(ImportPolicy::default());
    gate.set_context(&[Literal::positive(1)]);
    let obj = clause_obj(
        5,
        &[Literal::positive(4)],
        &[Literal::positive(1), Literal::negative(5)],
        0.9,
    );
    assert_eq!(gate.submit(&[obj.clone()]), vec![ImportDecision::Buffered]);
    assert_eq!(gate.set_context(&[Literal::positive(1), Literal::negative(5)]).len(), 1);
    assert_eq!(gate.submit(&[obj]), vec![ImportDecision::Duplicate]);
}

#[test]
fn keys_tell_conclusions_from_assumptions() {
    let (x1, x2) = (Literal::positive(1), Literal::positive(2));
    let a = clause_obj(1, &[x1, x2], &[], 0.5);
    let b = clause_obj(1, &[x2], &[x1], 0.5);
    assert_ne!(canonical_key(&a), canonical_key(&b));
}

#[test]
fn what_would_be_applied_is_foreseen() {
    let (x1, x2) = (Literal::positive(1), Literal::positive(2));
    let mut gate = ImportGate::new(ImportPolicy {
        min_utility: utility(0.5),
        ..ImportPolicy::default()
    });
    gate.set_context(&[x1]);
    let batch = vec![
        clause_obj(1, &[x1, x2], &[], 0.5),
        clause_obj(2, &[x1, x2], &[], 0.5),
        clause_obj(3, &[x2], &[x1], 0.9),
        clause_obj(4, &[x2], &[x2], 0.9),
        clause_obj(5, &[x2], &[], 0.1),
    ];
    let foreseen = gate.foresee(&batch);
    assert_eq!(foreseen, vec![true, false, true, false, false]);
    let decisions = gate.submit(&batch);
    let applied: Vec<bool> = decisions.iter().map(|d| *d == ImportDecision::Applied).collect();
    assert_eq!(applied, foreseen);
    assert_eq!(gate.foresee(&batch), vec![false; 5]);
}
