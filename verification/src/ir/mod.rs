//! Interned term DAG and Boolean circuit intermediate representation. The
//! front end lowers a term into the word-level DAG; the circuit path works on
//! bit-level Boolean gates.

pub mod bitvec;
pub mod builder;
pub mod circuit;
pub mod dag;
pub mod laws;
pub mod meaning;
