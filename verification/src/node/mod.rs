//! The distributed solver node: choosing cube splits and reporting results.

pub mod laws;
pub mod lookahead;
pub mod solve;
