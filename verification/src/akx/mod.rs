//! The Assumption-based Knowledge eXchange model.

pub mod filter;
pub mod fingerprints;
pub mod fx;
pub mod import;
pub mod knowledge;
pub mod laws;
pub mod literal;
pub mod litvec;
pub mod logic;
pub mod policy;
pub mod reasoner;
pub mod stats;
pub mod stop;
pub mod tagvec;
pub mod work;
