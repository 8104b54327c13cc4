use vstd::prelude::*;

verus! {

/// Eviction strategy when a scope-level buffer is full.
#[derive(Clone, Copy, Debug, PartialEq, Eq, Structural)]
pub enum EvictionPolicy {
    /// Evict the item with the lowest utility score; ties broken by age
    /// (oldest first).
    LowestUtility,
    /// Evict the lowest-utility item, and if utilities tie, the oldest one.
    LowestUtilityThenOldest,
    /// Evict the oldest item regardless of utility.
    Oldest,
    /// Reject the incoming item (back-pressure to the producer).
    RejectIncoming,
}

/// Configuration for a bus instance.
#[derive(Clone, Copy, Debug, PartialEq, Eq, Structural)]
pub struct BusConfig {
    /// Maximum number of objects held in the local-scope buffer.
    pub local_buffer: usize,
    /// Maximum number of objects held in the process-scope buffer.
    pub process_buffer: usize,
    pub eviction: EvictionPolicy,
}

impl Default for BusConfig {
    fn default() -> (c: Self)
        ensures
            c == (BusConfig {
                local_buffer: 8_192,
                process_buffer: 65_536,
                eviction: EvictionPolicy::LowestUtility,
            }),
    {
        BusConfig {
            local_buffer: 8_192,
            process_buffer: 65_536,
            eviction: EvictionPolicy::LowestUtility,
        }
    }
}

} // verus!
