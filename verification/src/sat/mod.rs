//! A CDCL SAT solver with incremental solving, clause import and proof logging.

pub mod analyze;
pub mod assignment;
pub mod bcp;
pub mod cdcl;
pub mod certificate;
pub mod clause;
pub mod dimacs;
pub mod dimacs_text;
pub mod instance;
pub mod laws;
pub mod luby;
pub mod model;
pub mod reasoner;
pub mod state;
pub mod trace;
pub mod vsids;
pub mod watched;
