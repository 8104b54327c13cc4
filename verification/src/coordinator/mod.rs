//! The work queue of the distributed coordinator.
//!
//! - **Proof farm:** an array of independent scripts; each is one task.
//! - **Cube-and-conquer:** one hard problem split into a tree of cubes; each
//!   leaf cube is one task. Workers may split their leaf further by reporting
//!   a list of new assertions, one per branch.

pub mod ids;
pub mod job;
pub mod laws;
pub mod reply;
pub mod state;
