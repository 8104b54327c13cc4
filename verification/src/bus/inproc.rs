//! In-process bounded knowledge bus:
//! - objects deduplicate by canonical key;
//! - an unconditional version of a conclusion evicts buffered conditional
//!   versions of the same conclusion;
//! - under memory pressure the incoming item is compared against the
//!   lowest-utility buffered item and either replaces it or is rejected with
//!   `BusError::BufferFull` back-pressure.

use vstd::prelude::*;

use crate::akx::knowledge::Scope;
use crate::akx::reasoner::KnowledgeBatch;
use crate::akx::stats::BusMetrics;
use crate::bus::flow::{drain, feed, Tally};
use crate::bus::interface::{BusError, KnowledgeBus, PollBudget, PublishHandle};
use crate::bus::policy::BusConfig;
use crate::bus::queue::Queue;
#[allow(unused_imports)]
use crate::akx::import;
#[allow(unused_imports)]
use crate::akx::knowledge::ObjectView;
#[allow(unused_imports)]
use crate::bus::flow;
#[allow(unused_imports)]
use crate::bus::queue::QueueView;

verus! {

/// In-process bus over a single bounded buffer.
///
/// All scope levels (Local, Process, Node, Global) are collapsed into one
/// buffer for the in-process case: scope is only meaningful for network
/// transport where it controls routing.
pub struct InprocBus {
    state: Queue,
    tally: Tally,
}

impl InprocBus {
    /// The buffered objects.
    pub closed spec fn queue(&self) -> QueueView {
        self.state@
    }

    pub closed spec fn tally(&self) -> Tally {
        self.tally
    }

    pub closed spec fn well_formed(&self) -> bool {
        self.state.well_formed()
    }

    pub fn new(config: &BusConfig) -> (b: Self)
        ensures
            b.well_formed(),
            b.queue() == (QueueView {
                objs: Seq::empty(),
                cap: if config.process_buffer == 0 {
                    1
                } else {
                    config.process_buffer
                },
                eviction: config.eviction,
            }),
            b.tally() == (Tally {
                published: 0,
                polled: 0,
                deduplicated: 0,
                evicted: 0,
                superseded: 0,
                backpressure: 0,
            }),
    {
        InprocBus {
            state: Queue::new(config.process_buffer, config.eviction),
            tally: Tally::default(),
        }
    }
}

impl KnowledgeBus for InprocBus {
    open spec fn ready(&self) -> bool {
        self.well_formed()
    }

    fn publish(&mut self, _scope: Scope, batch: KnowledgeBatch) -> (r: Result<
        PublishHandle,
        BusError,
    >)
        ensures
            ({
                let end = flow::fed(
                    old(self).queue(),
                    old(self).tally(),
                    import::object_views(batch@),
                    batch@.len() as int,
                );
                &&& final(self).queue() == end.queue
                &&& final(self).tally() == end.tally
                &&& match r {
                    Ok(h) => !end.rejected && h.enqueued == end.enqueued,
                    Err(e) => end.rejected && e == BusError::BufferFull,
                }
            }),
    {
        feed(&mut self.state, &mut self.tally, batch)
    }

    fn poll(&mut self, budget: PollBudget) -> (r: Result<KnowledgeBatch, BusError>)
        ensures
            r is Ok,
            ({
                let n = flow::share(old(self).queue(), budget.max_items);
                &&& import::object_views(r->Ok_0@) == old(self).queue().objs.take(n)
                &&& final(self).queue() == (QueueView {
                    objs: old(self).queue().objs.skip(n),
                    ..old(self).queue()
                })
                &&& final(self).tally() == (Tally {
                    polled: old(self).tally().polled.wrapping_add(n as u64),
                    ..old(self).tally()
                })
            }),
    {
        Ok(drain(&mut self.state, &mut self.tally, budget.max_items))
    }

    fn metrics(&self) -> (m: BusMetrics)
        ensures
            m == (BusMetrics {
                published_total: self.tally().published,
                polled_total: self.tally().polled,
                deduplicated: self.tally().deduplicated,
                evicted: self.tally().evicted,
                superseded: self.tally().superseded,
                backpressure: self.tally().backpressure,
                schema_rejected: 0,
                bytes_serialized: 0,
                bytes_received: 0,
                buffer_used: self.queue().objs.len() as u64,
                buffer_capacity: self.queue().cap as u64,
            }),
    {
        BusMetrics {
            published_total: self.tally.published,
            polled_total: self.tally.polled,
            deduplicated: self.tally.deduplicated,
            evicted: self.tally.evicted,
            superseded: self.tally.superseded,
            backpressure: self.tally.backpressure,
            schema_rejected: 0,
            bytes_serialized: 0,
            bytes_received: 0,
            buffer_used: self.state.len() as u64,
            buffer_capacity: self.state.cap() as u64,
        }
    }
}

} // verus!
