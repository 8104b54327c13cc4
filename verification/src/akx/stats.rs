use vstd::prelude::*;

verus! {

/// Snapshot of a knowledge bus's operational metrics.
#[derive(Clone, Copy, Debug, PartialEq, Eq, Structural)]
pub struct BusMetrics {
    pub published_total: u64,
    pub polled_total: u64,
    pub deduplicated: u64,
    pub evicted: u64,
    /// Conditional objects removed because an unconditional version of the
    /// same conclusion entered the buffer.
    pub superseded: u64,
    /// Publish calls that were rejected with `BufferFull` back-pressure.
    pub backpressure: u64,
    /// Connections dropped because the peer's schema version fell outside the
    /// negotiated range (network transport only).
    pub schema_rejected: u64,
    pub bytes_serialized: u64,
    pub bytes_received: u64,
    /// Objects buffered; with `buffer_capacity` this gives the utilization.
    pub buffer_used: u64,
    pub buffer_capacity: u64,
}

impl Default for BusMetrics {
    fn default() -> (m: Self)
        ensures
            m == (BusMetrics {
                published_total: 0,
                polled_total: 0,
                deduplicated: 0,
                evicted: 0,
                superseded: 0,
                backpressure: 0,
                schema_rejected: 0,
                bytes_serialized: 0,
                bytes_received: 0,
                buffer_used: 0,
                buffer_capacity: 0,
            }),
    {
        BusMetrics {
            published_total: 0,
            polled_total: 0,
            deduplicated: 0,
            evicted: 0,
            superseded: 0,
            backpressure: 0,
            schema_rejected: 0,
            bytes_serialized: 0,
            bytes_received: 0,
            buffer_used: 0,
            buffer_capacity: 0,
        }
    }
}

} // verus!
