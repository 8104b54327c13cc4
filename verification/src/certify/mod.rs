//! Independent validation and proof tooling.
//!
//! This module is deliberately decoupled from solver internals so that SAT
//! models and UNSAT certificates can be validated by code that shares no logic
//! with the solver itself.

pub mod drup;
pub mod laws;
pub mod model;
pub mod proof_file;
pub mod proof_text;
