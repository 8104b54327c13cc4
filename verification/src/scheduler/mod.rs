//! Distributed work units, leases, dynamic cube splitting, and partition trees
//! with coverage certificates.

pub mod coverage;
pub mod dispatch;
pub mod error;
pub mod laws;
pub mod lease;
pub mod tree;
