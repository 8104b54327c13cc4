//! ReasonMesh: a verified reasoning fabric.
//!
//! The library holds the knowledge-exchange model, a CDCL solver with proof
//! logging, a proof verifier, the term and circuit representations, the
//! partition scheduler, the exchange bus, the job coordinator, and the
//! modelling API. Every function carries a contract that Verus proves.

pub mod akx;
pub mod api;
pub mod bench;
pub mod bus;
pub mod certify;
pub mod cli;
pub mod cli_text;
pub mod clock;
pub mod coordinator;
pub mod ir;
pub mod node;
pub mod orchestrator;
pub mod sat;
pub mod scheduler;
pub mod shared;
pub mod text;
