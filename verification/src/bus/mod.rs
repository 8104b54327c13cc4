//! Knowledge buses: bounded queues with deduplication, superseding and
//! eviction, a scope hierarchy with promotion, and network framing.

pub mod flow;
pub mod hierarchy;
pub mod inproc;
pub mod interface;
pub mod laws;
pub mod net;
pub mod policy;
pub mod queue;
