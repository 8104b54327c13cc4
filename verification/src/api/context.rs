//! [`Context`] — the root factory for sorts, constants, and literals.

use vstd::prelude::*;

use crate::api::expr::{Expr, ExprNode};
use crate::api::sort::Sort;
use crate::text;

verus! {

/// Root factory for expressions and solver sessions.
///
/// A `Context` carries no mutable state; all methods take `&self`. Several
/// solver sessions may share the same context.
#[derive(Debug, Default)]
pub struct Context;

/// An expression is a constant of the given name and sort.
pub open spec fn is_const(e: Expr, name: text::Text, sort: Sort) -> bool {
    match *e.0 {
        ExprNode::Const(n, s) => n@ == name && s == sort,
        _ => false,
    }
}

impl Context {
    pub fn new() -> Self {
        Context
    }

    pub fn bool_const(&self, name: &str) -> (e: Expr)
        ensures
            is_const(e, name@, Sort::Bool),
    {
        Expr::new(ExprNode::Const(text::copy_str(name), Sort::Bool))
    }

    pub fn int_const(&self, name: &str) -> (e: Expr)
        ensures
            is_const(e, name@, Sort::Int),
    {
        Expr::new(ExprNode::Const(text::copy_str(name), Sort::Int))
    }

    pub fn bitvec_const(&self, name: &str, width: u32) -> (e: Expr)
        ensures
            is_const(e, name@, Sort::BitVec(width)),
    {
        Expr::new(ExprNode::Const(text::copy_str(name), Sort::BitVec(width)))
    }

    pub fn bool_val(&self, b: bool) -> (e: Expr)
        ensures
            *e.0 == ExprNode::BoolLit(b),
    {
        Expr::new(ExprNode::BoolLit(b))
    }

    pub fn int_val(&self, n: i64) -> (e: Expr)
        ensures
            *e.0 == ExprNode::IntLit(n),
    {
        Expr::new(ExprNode::IntLit(n))
    }

    pub fn bitvec_val(&self, value: u64, width: u32) -> (e: Expr)
        ensures
            *e.0 == ExprNode::BitVecLit(value, width),
    {
        Expr::new(ExprNode::BitVecLit(value, width))
    }

    pub fn and(&self, a: &Expr, b: &Expr) -> (e: Expr)
        ensures
            *e.0 == (ExprNode::And(*a, *b)),
    {
        a.and(b)
    }

    pub fn or(&self, a: &Expr, b: &Expr) -> (e: Expr)
        ensures
            *e.0 == (ExprNode::Or(*a, *b)),
    {
        a.or(b)
    }

    pub fn implies(&self, a: &Expr, b: &Expr) -> (e: Expr)
        ensures
            *e.0 == (ExprNode::Implies(*a, *b)),
    {
        a.implies(b)
    }

    pub fn eq(&self, a: &Expr, b: &Expr) -> (e: Expr)
        ensures
            *e.0 == (ExprNode::Eq(*a, *b)),
    {
        a.eq(b)
    }

    pub fn distinct(&self, a: &Expr, b: &Expr) -> (e: Expr)
        ensures
            *e.0 == (ExprNode::Distinct(*a, *b)),
    {
        a.distinct(b)
    }

    pub fn not(&self, a: &Expr) -> (e: Expr)
        ensures
            *e.0 == (ExprNode::Not(*a)),
    {
        a.not()
    }

    pub fn ite(&self, cond: &Expr, then_: &Expr, else_: &Expr) -> (e: Expr)
        ensures
            *e.0 == (ExprNode::Ite(*cond, *then_, *else_)),
    {
        cond.ite(then_, else_)
    }
}

} // verus!
