//! High-level solver API: expressions, scripts, models, solver sessions and
//! the pool for independent proof obligations.

pub mod answers;
pub mod context;
pub mod emit;
pub mod expr;
pub mod ffi;
pub mod meaning;
pub mod model;
pub mod pool;
pub mod script;
pub mod solver;
pub mod sort;
