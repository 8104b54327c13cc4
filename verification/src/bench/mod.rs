//! Benchmark manifests and the rules of a run.
//!
//! A benchmark is fully described by a versioned manifest; the runner executes
//! it against the production solver and reports results with PAR-2/PAR-10
//! scoring and independent model validation.

pub mod laws;
pub mod manifest;
pub mod result;

pub mod run;
