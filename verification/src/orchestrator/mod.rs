//! Orchestrator: worker lifecycle, failure recovery, and primary/hot-standby
//! high availability.
//!
//! - **Worker registry:** workers must be admitted and then send heartbeats. A
//!   worker that misses the heartbeat timeout is declared dead; its leases are
//!   reaped so other workers can take over.
//! - **Write-ahead log (WAL):** every mutation is appended as an entry. The
//!   primary persists it after each mutation.
//! - **Hot-standby:** a standby receives and replays the log. On primary
//!   failure it promotes itself to a live orchestrator. Lease timers reset on
//!   reconnect.

pub mod laws;
pub mod primary;
pub mod standby;
pub mod wal;
