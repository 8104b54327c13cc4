//! The in-process bus, the scope hierarchy and the frames of the network bus.

use reasonmesh::akx::knowledge::{
    ClauseKnowledge, KnowledgeId, KnowledgeKind, KnowledgeObject, Scope, TrustLevel,
};
use reasonmesh::akx::literal::Literal;
use reasonmesh::akx::litvec::LitVec;
use reasonmesh::bus::hierarchy::{Hierarchy, HierarchyConfig};
use reasonmesh::bus::inproc::InprocBus;
use reasonmesh::bus::interface::{BusError, KnowledgeBus, PollBudget};
use reasonmesh::bus::net::{
    encode_frame, judge_reply, negotiate, read_number, FrameReader, NetConfig, NetNode,
    DEFAULT_MAX_FRAME, SCHEMA_VERSION,
};
use reasonmesh::bus::policy::{BusConfig, EvictionPolicy};

fn clause_with(id: u64, lits: &[u32], assumptions: &[i32], utility: f64) -> KnowledgeObject {
    let literals: Vec<Literal> = lits.iter().map(|&v| Literal::positive(v)).collect();
    let under: Vec<Literal> = assumptions
        .iter()
        .map(|&l| {
            let v = l.unsigned_abs();
            if l > 0 {
                Literal::positive(v)
            } else {
                Literal::negative(v)
            }
        })
        .collect();
    KnowledgeObject {
        id: KnowledgeId(id),
        kind: KnowledgeKind::Clause(ClauseKnowledge {
            literals: LitVec::from_slice(&literals),
            lbd: 1,
        }),
        assumptions: LitVec::from_slice(&under),
        scope: Scope::Process,
        trust: TrustLevel::Trusted,
        utility: (utility * 1e9).round() as u32,
        proof_ref: None,
        source: 0,
    }
}

fn clause(id: u64, lits: &[u32], utility: f64) -> KnowledgeObject {
    clause_with(id, lits, &[], utility)
}

fn local_clause_with(id: u64, lits: &[u32], assumptions: &[i32], utility: f64) -> KnowledgeObject {
    KnowledgeObject {
        scope: Scope::Local,
        ..clause_with(id, lits, assumptions, utility)
    }
}

fn local_clause(id: u64, lits: &[u32], utility: f64) -> KnowledgeObject {
    local_clause_with(id, lits, &[], utility)
}

fn under_protocol(f: impl FnOnce(&mut InprocBus)) -> InprocBus {
    let mut bus = InprocBus::new(&BusConfig::default());
    f(&mut bus);
    bus
}

#[test]
fn publish_and_poll() {
    let mut bus = under_protocol(|bus| {
        bus.publish(Scope::Process, vec![clause(1, &[0, 1, 2], 0.5)])
            .unwrap();
    });
    let polled = bus.poll(PollBudget { max_items: 10 }).unwrap();
    assert_eq!(polled.len(), 1);
    assert_eq!(bus.metrics().published_total, 1);
}

#[test]
fn deduplication() {
    let mut bus = under_protocol(|bus| {
        bus.publish(Scope::Process, vec![clause(1, &[0, 1, 2], 0.5)])
            .unwrap();
        let h = bus
            .publish(Scope::Process, vec![clause(2, &[0, 1, 2], 0.5)])
            .unwrap();
        assert_eq!(h.enqueued, 0);
    });
    assert_eq!(bus.metrics().deduplicated, 1);
}

#[test]
fn unconditional_supersedes_conditional() {
    let mut bus = under_protocol(|bus| {
        // Conditional version of the conclusion (x1 ∨ x2) under {¬x3}.
        bus.publish(Scope::Process, vec![clause_with(1, &[1, 2], &[-3], 0.5)])
            .unwrap();
        // Unconditional (x1 ∨ x2) arrives: the conditional must be evicted.
        bus.publish(Scope::Process, vec![clause(2, &[1, 2], 0.4)])
            .unwrap();
    });
    assert_eq!(bus.metrics().superseded, 1);
    // Exactly one item remains: the unconditional one.
    let polled = bus.poll(PollBudget { max_items: 10 }).unwrap();
    assert_eq!(polled.len(), 1);
    assert!(polled[0].is_unconditional());
}

#[test]
fn conditional_redundant_while_unconditional_present() {
    let mut bus = under_protocol(|bus| {
        bus.publish(Scope::Process, vec![clause(1, &[1, 2], 0.5)])
            .unwrap();
        // Conditional of the same conclusion under {¬x3} is redundant.
        let h = bus
            .publish(Scope::Process, vec![clause_with(2, &[1, 2], &[-3], 0.9)])
            .unwrap();
        assert_eq!(h.enqueued, 0);
    });
    assert_eq!(bus.metrics().deduplicated, 1);
    let polled = bus.poll(PollBudget { max_items: 10 }).unwrap();
    assert_eq!(polled.len(), 1);
}

#[test]
fn evicts_lowest_utility_on_pressure() {
    let config = BusConfig {
        process_buffer: 2,
        eviction: EvictionPolicy::LowestUtility,
        ..Default::default()
    };
    let mut bus = InprocBus::new(&config);
    bus.publish(Scope::Process, vec![clause(1, &[1], 0.8)])
        .unwrap();
    bus.publish(Scope::Process, vec![clause(2, &[2], 0.2)])
        .unwrap();
    // Incoming (utility 0.9) exceeds the lowest (0.2): evict it.
    bus.publish(Scope::Process, vec![clause(3, &[3], 0.9)])
        .unwrap();
    assert_eq!(bus.metrics().evicted, 1);
    let mut polled = bus.poll(PollBudget { max_items: 10 }).unwrap();
    polled.sort_by_key(|o| o.utility as u32);
    // Buffer holds the two highest-utility items.
    assert_eq!(
        polled.iter().map(|o| o.id.0).collect::<Vec<_>>(),
        vec![1, 3]
    );
}

#[test]
fn back_pressure_when_incoming_below_lowest_utility() {
    let config = BusConfig {
        process_buffer: 1,
        eviction: EvictionPolicy::LowestUtility,
        ..Default::default()
    };
    let mut bus = InprocBus::new(&config);
    bus.publish(Scope::Process, vec![clause(1, &[1], 0.9)])
        .unwrap();
    // Incoming (0.1) does not beat the buffered item (0.9): reject.
    let result = bus.publish(Scope::Process, vec![clause(2, &[2], 0.1)]);
    assert!(matches!(result, Err(BusError::BufferFull)));
    assert_eq!(bus.metrics().backpressure, 1);
}

#[test]
fn oldest_policy_evicts_front() {
    let config = BusConfig {
        process_buffer: 2,
        eviction: EvictionPolicy::Oldest,
        ..Default::default()
    };
    let mut bus = InprocBus::new(&config);
    bus.publish(Scope::Process, vec![clause(1, &[1], 0.1)])
        .unwrap();
    bus.publish(Scope::Process, vec![clause(2, &[2], 0.9)])
        .unwrap();
    bus.publish(Scope::Process, vec![clause(3, &[3], 0.5)])
        .unwrap();
    assert_eq!(bus.metrics().evicted, 1);
    let polled = bus.poll(PollBudget { max_items: 10 }).unwrap();
    assert_eq!(
        polled.iter().map(|o| o.id.0).collect::<Vec<_>>(),
        vec![2, 3]
    );
}

#[test]
fn reject_incoming_policy_always_back_pressures() {
    let config = BusConfig {
        process_buffer: 1,
        eviction: EvictionPolicy::RejectIncoming,
        ..Default::default()
    };
    let mut bus = InprocBus::new(&config);
    bus.publish(Scope::Process, vec![clause(1, &[1], 0.1)])
        .unwrap();
    let result = bus.publish(Scope::Process, vec![clause(2, &[2], 0.9)]);
    assert!(matches!(result, Err(BusError::BufferFull)));
}

#[test]
fn poll_drains_whole_queue_respecting_budget() {
    let mut bus = under_protocol(|bus| {
        for i in 0..5 {
            bus.publish(Scope::Process, vec![clause(i, &[i as u32], 0.5)])
                .unwrap();
        }
    });
    let first = bus.poll(PollBudget { max_items: 2 }).unwrap();
    assert_eq!(first.len(), 2);
    let rest = bus.poll(PollBudget { max_items: 10 }).unwrap();
    assert_eq!(rest.len(), 3);
}

#[test]
fn eviction_removes_from_unconditional_index() {
    let config = BusConfig {
        process_buffer: 1,
        eviction: EvictionPolicy::Oldest,
        ..Default::default()
    };
    let mut bus = InprocBus::new(&config);
    bus.publish(Scope::Process, vec![clause(1, &[1], 0.5)])
        .unwrap();
    // Evicts the unconditional (x1), freeing the conclusion for reuse by a
    // conditional.
    bus.publish(Scope::Process, vec![clause(2, &[2], 0.5)])
        .unwrap();
    let h = bus
        .publish(Scope::Process, vec![clause_with(3, &[1], &[-3], 0.5)])
        .unwrap();
    assert_eq!(
        h.enqueued, 1,
        "conditional accepted after unconditional evicted"
    );
}

fn in_hierarchy(f: impl FnOnce(&mut Hierarchy)) -> Hierarchy {
    let mut h = Hierarchy::new(&HierarchyConfig::default());
    f(&mut h);
    h
}

#[test]
fn publish_buffers_at_scope_level() {
    let mut h = in_hierarchy(|h| {
        h.publish(Scope::Local, vec![local_clause(1, &[0, 1], 0.5)])
            .unwrap();
        h.publish(Scope::Node, vec![local_clause(2, &[2, 3], 0.5)])
            .unwrap();
    });
    assert_eq!(h.metrics().levels[0].buffered, 1);
    assert_eq!(h.metrics().levels[2].buffered, 1);
    assert_eq!(h.metrics().levels[1].buffered, 0);
    assert_eq!(h.metrics().levels[3].buffered, 0);
}

#[test]
fn poll_drains_from_requested_level_only() {
    let mut h = in_hierarchy(|h| {
        h.publish(Scope::Local, vec![local_clause(1, &[0], 0.5)]).unwrap();
    });
    // Global has nothing; Local has one.
    let global = h.poll(Scope::Global, PollBudget { max_items: 10 }).unwrap();
    assert!(global.is_empty());
    let local = h.poll(Scope::Local, PollBudget { max_items: 10 }).unwrap();
    assert_eq!(local.len(), 1);
}

#[test]
fn promotes_high_utility_up_one_level() {
    let mut h = in_hierarchy(|h| {
        h.publish(Scope::Local, vec![local_clause(1, &[0], 0.9)]).unwrap();
    });
    let n = h.promote_from(0);
    assert_eq!(n, 1);
    assert_eq!(h.metrics().promoted, 1);
    // Node level now holds a copy; Local still holds the original.
    assert_eq!(h.metrics().levels[1].buffered, 1);
    assert_eq!(h.metrics().levels[0].buffered, 1);
}

#[test]
fn skips_below_threshold_utility() {
    let mut h = in_hierarchy(|h| {
        h.publish(Scope::Local, vec![local_clause(1, &[0], 0.2)]).unwrap();
    });
    let n = h.promote_from(0);
    assert_eq!(n, 0);
    assert_eq!(h.metrics().promotion_below_threshold, 1);
    assert_eq!(h.metrics().levels[1].buffered, 0);
    // Object is preserved in the source buffer.
    assert_eq!(h.metrics().levels[0].buffered, 1);
}

#[test]
fn global_objects_never_promote() {
    let mut h = in_hierarchy(|h| {
        let mut obj = local_clause(1, &[0], 0.9);
        obj.scope = Scope::Global;
        h.publish(Scope::Global, vec![obj]).unwrap();
    });
    let n = h.promote_from(3);
    assert_eq!(n, 0);
    assert_eq!(h.metrics().promotion_at_cap, 0);
}

#[test]
fn promotion_requires_single_step_up() {
    let mut h = in_hierarchy(|h| {
        // A Local object can only go to Node in one step.
        h.publish(Scope::Local, vec![local_clause(1, &[0], 0.9)]).unwrap();
    });
    h.promote_from(0);
    assert_eq!(h.metrics().levels[1].buffered, 1);
    assert_eq!(h.metrics().levels[2].buffered, 0);
    h.promote_from(1);
    assert_eq!(h.metrics().levels[2].buffered, 1);
}

#[test]
fn full_hierarchy_promotion_chain() {
    let mut h = in_hierarchy(|h| {
        h.publish(Scope::Local, vec![local_clause(1, &[0], 0.9)]).unwrap();
    });
    h.promote_all();
    // Local→Node→Cluster→Global.
    assert_eq!(h.metrics().levels[3].buffered, 1);
    assert_eq!(h.metrics().promoted, 3);
}

#[test]
fn re_promotion_is_idempotent() {
    let mut h = in_hierarchy(|h| {
        h.publish(Scope::Local, vec![local_clause(1, &[0], 0.9)]).unwrap();
    });
    h.promote_from(0);
    // Promoting again finds a duplicate at Node: nothing new inserted.
    let n = h.promote_from(0);
    assert_eq!(n, 0);
    assert_eq!(h.metrics().promotion_deduplicated, 1);
    assert_eq!(h.metrics().levels[1].buffered, 1);
}

#[test]
fn promotion_supersedes_conditional_at_target() {
    let mut h = in_hierarchy(|h| {
        // Process holds a conditional (x1) under {¬x2}.
        h.publish(Scope::Process, vec![local_clause_with(1, &[1], &[-2], 0.5)])
            .unwrap();
        // Local derives the unconditional (x1); promote it to Process.
        h.publish(Scope::Local, vec![local_clause(2, &[1], 0.9)]).unwrap();
    });
    h.promote_from(0);
    assert_eq!(h.metrics().superseded, 1);
    let node = h
        .poll(Scope::Process, PollBudget { max_items: 10 })
        .unwrap();
    assert_eq!(node.len(), 1);
    assert!(node[0].is_unconditional());
}

#[test]
fn frame_reader_roundtrip() {
    // Split the frame across multiple small reads to exercise accumulation.
    let obj = clause(7, &[0, 1], 0.5);
    let batch = vec![obj.id.0];
    let bytes = postcard::to_allocvec(&batch).unwrap();
    let mut frame = Vec::new();
    frame.extend_from_slice(&SCHEMA_VERSION.to_le_bytes());
    frame.extend_from_slice(&(bytes.len() as u32).to_le_bytes());
    frame.extend_from_slice(&bytes);

    let mut reader = FrameReader::new();
    let mut seen = 0;
    for chunk in frame.chunks(3) {
        let (frame, used) = reader.next_frame(chunk, DEFAULT_MAX_FRAME);
        assert_eq!(used, chunk.len());
        if let Some(frame) = frame.unwrap() {
            assert_eq!(frame.version, SCHEMA_VERSION);
            let decoded: Vec<u64> = postcard::from_bytes(&frame.payload).unwrap();
            assert_eq!(decoded.len(), 1);
            assert_eq!(decoded[0], obj.id.0);
            seen += 1;
        }
    }
    assert_eq!(seen, 1);
}

#[test]
fn reject_oversized_frame() {
    let mut reader = FrameReader::new();
    let mut frame = Vec::new();
    frame.extend_from_slice(&SCHEMA_VERSION.to_le_bytes());
    frame.extend_from_slice(&u32::MAX.to_le_bytes());
    let err = reader.next_frame(&frame, 1024).0.unwrap_err();
    assert_eq!((err.len, err.max_frame), (u32::MAX as usize, 1024));
}

#[test]
fn frames_carry_version_and_length() {
    let frame = encode_frame(&[9, 8, 7]);
    assert_eq!(frame, vec![1, 0, 0, 0, 3, 0, 0, 0, 9, 8, 7]);
    assert_eq!(read_number(&frame[4..]), 3);
    let mut two = frame.clone();
    two.extend_from_slice(&frame);
    let mut reader = FrameReader::new();
    let (first, used) = reader.next_frame(&two, 1024);
    assert_eq!(first.unwrap().unwrap().payload, vec![9, 8, 7]);
    let (second, _) = reader.next_frame(&two[used..], 1024);
    assert_eq!(second.unwrap().unwrap().payload, vec![9, 8, 7]);
}

#[test]
fn versions_are_negotiated() {
    let cfg = NetConfig::default();
    assert_eq!(negotiate(&cfg, SCHEMA_VERSION), (SCHEMA_VERSION, Ok(())));
    let (reply, verdict) = negotiate(&cfg, 999);
    assert_eq!(verdict, Err(BusError::SchemaRejected));
    assert_eq!(judge_reply(reply), Err(BusError::SchemaRejected));
    assert_eq!(judge_reply(SCHEMA_VERSION), Ok(()));
}

#[test]
fn a_node_counts_what_passes() {
    let mut node = NetNode::new();
    node.on_rejected_peer();
    let frame = FrameReader::new()
        .next_frame(&encode_frame(&[1, 2]), 1024)
        .0
        .unwrap()
        .unwrap();
    assert!(node.on_frame(&frame));
    node.on_decoded(Some(vec![clause(1, &[1], 0.5), clause(2, &[2], 0.5)]));
    assert_eq!(node.poll(1).len(), 1);
    assert_eq!(node.poll(10).len(), 1);
    let m = node.metrics();
    assert_eq!(m.schema_rejected, 1);
    assert!(m.bytes_received > 0);
}

#[test]
fn promotion_can_be_switched_off() {
    let mut h = Hierarchy::new(&HierarchyConfig {
        promotion_threshold: 1_000_000_000,
        ..HierarchyConfig::default()
    });
    h.publish(Scope::Local, vec![local_clause(1, &[0], 1.0)]).unwrap();
    assert_eq!(h.promote_all(), 0);
    assert_eq!(h.metrics().levels[1].buffered, 0);
}

#[test]
fn default_poll_budget() {
    assert_eq!(PollBudget::default().max_items, 256);
}

#[test]
fn hierarchy_totals() {
    let mut h = Hierarchy::new(&HierarchyConfig::default());
    h.publish(Scope::Local, vec![local_clause(1, &[0], 0.9)]).unwrap();
    h.promote_all();
    h.poll(Scope::Global, PollBudget { max_items: 10 }).unwrap();
    let m = h.bus_metrics();
    assert_eq!((m.published_total, m.polled_total), (1, 1));
    // A duplicate counts as published too.
    h.publish(Scope::Local, vec![local_clause(2, &[0], 0.9)]).unwrap();
    let m = h.metrics();
    assert_eq!((m.published_total, m.deduplicated), (2, 1));
}

#[test]
fn a_frame_too_large_stays_so() {
    let frame = encode_frame(&[0; 2000]);
    let mut reader = FrameReader::new();
    let (first, used) = reader.next_frame(&frame, 1024);
    assert!(first.is_err());
    let (second, more) = reader.next_frame(&frame[used..], 1024);
    assert_eq!(second.unwrap_err().len, 2000);
    assert_eq!(more, 0);
}
