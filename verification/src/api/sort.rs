//! Sort (type) system for the programmatic API.

use vstd::prelude::*;

use crate::text;

verus! {

#[derive(Clone, Copy, Debug, PartialEq, Eq, Hash, PartialOrd, Ord, Structural)]
pub enum Sort {
    Bool,
    Int,
    BitVec(u32),
}

/// A sort as SMT-LIB writes it.
pub open spec fn sort_text(s: Sort) -> text::Text {
    match s {
        Sort::Bool => "Bool"@,
        Sort::Int => "Int"@,
        Sort::BitVec(w) => "(_ BitVec "@ + text::decimal(w as nat) + ")"@,
    }
}

impl Sort {
    pub fn smtlib(&self) -> (s: String)
        ensures
            s@ == sort_text(*self),
    {
        match self {
            Sort::Bool => text::copy_str("Bool"),
            Sort::Int => text::copy_str("Int"),
            Sort::BitVec(w) => {
                let mut s = text::copy_str("(_ BitVec ");
                text::push_decimal(&mut s, *w as u64);
                s.append(")");
                s
            },
        }
    }
}

} // verus!
