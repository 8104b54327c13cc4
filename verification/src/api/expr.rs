//! Expression AST for the programmatic solver API.
//!
//! [`Expr`] wraps an `Arc<ExprNode>` so cloning is O(1) and expression sharing
//! is safe across threads.

use vstd::prelude::*;

use crate::api::sort::Sort;
use crate::shared::share;
use std::sync::Arc;

verus! {

/// A solver expression: an arc-wrapped node that can be cheaply cloned and
/// shared across threads.
#[derive(Debug)]
pub struct Expr(pub Arc<ExprNode>);

/// The concrete expression node. All child references are [`Expr`] (arc-wrapped)
/// so the tree is DAG-safe and clone-cheap.
#[derive(Debug)]
pub enum ExprNode {
    // Leaves
    Const(String, Sort),
    BoolLit(bool),
    IntLit(i64),
    BitVecLit(u64, u32),
    // Boolean connectives
    Not(Expr),
    And(Expr, Expr),
    Or(Expr, Expr),
    Implies(Expr, Expr),
    Iff(Expr, Expr),
    Ite(Expr, Expr, Expr),
    // Polymorphic equality
    Eq(Expr, Expr),
    Distinct(Expr, Expr),
    // Integer arithmetic
    Add(Expr, Expr),
    Sub(Expr, Expr),
    Mul(Expr, Expr),
    Neg(Expr),
    Lt(Expr, Expr),
    Le(Expr, Expr),
    Gt(Expr, Expr),
    Ge(Expr, Expr),
    // Bit-vector arithmetic and bitwise ops
    BvAdd(Expr, Expr),
    BvSub(Expr, Expr),
    BvMul(Expr, Expr),
    BvNeg(Expr),
    BvAnd(Expr, Expr),
    BvOr(Expr, Expr),
    BvXor(Expr, Expr),
    BvNot(Expr),
    // Bit-vector comparisons
    BvUlt(Expr, Expr),
    BvUle(Expr, Expr),
    BvSlt(Expr, Expr),
    BvSle(Expr, Expr),
    // Bit-vector shifts and structural ops
    BvShl(Expr, Expr),
    BvLshr(Expr, Expr),
    BvAshr(Expr, Expr),
    BvConcat(Expr, Expr),
    BvExtract(u32, u32, Expr),
    BvZeroExt(u32, Expr),
    BvSignExt(u32, Expr),
}

impl Clone for Expr {
    fn clone(&self) -> (r: Self)
        ensures
            r == *self,
    {
        Expr(share(&self.0))
    }
}

impl Expr {
    pub(crate) fn new(node: ExprNode) -> (r: Self)
        ensures
            *r.0 == node,
    {
        Expr(Arc::new(node))
    }

    pub fn node(&self) -> (n: &ExprNode)
        ensures
            *n == *self.0,
    {
        &self.0
    }

    pub fn not(&self) -> (r: Self)
        ensures
            *r.0 == (ExprNode::Not(*self)),
    {
        Expr::new(ExprNode::Not(self.clone()))
    }

    pub fn and(&self, other: &Self) -> (r: Self)
        ensures
            *r.0 == (ExprNode::And(*self, *other)),
    {
        Expr::new(ExprNode::And(self.clone(), other.clone()))
    }

    pub fn or(&self, other: &Self) -> (r: Self)
        ensures
            *r.0 == (ExprNode::Or(*self, *other)),
    {
        Expr::new(ExprNode::Or(self.clone(), other.clone()))
    }

    pub fn implies(&self, other: &Self) -> (r: Self)
        ensures
            *r.0 == (ExprNode::Implies(*self, *other)),
    {
        Expr::new(ExprNode::Implies(self.clone(), other.clone()))
    }

    pub fn iff(&self, other: &Self) -> (r: Self)
        ensures
            *r.0 == (ExprNode::Iff(*self, *other)),
    {
        Expr::new(ExprNode::Iff(self.clone(), other.clone()))
    }

    pub fn eq(&self, other: &Self) -> (r: Self)
        ensures
            *r.0 == (ExprNode::Eq(*self, *other)),
    {
        Expr::new(ExprNode::Eq(self.clone(), other.clone()))
    }

    pub fn distinct(&self, other: &Self) -> (r: Self)
        ensures
            *r.0 == (ExprNode::Distinct(*self, *other)),
    {
        Expr::new(ExprNode::Distinct(self.clone(), other.clone()))
    }

    pub fn ite(&self, then_: &Self, else_: &Self) -> (r: Self)
        ensures
            *r.0 == (ExprNode::Ite(*self, *then_, *else_)),
    {
        Expr::new(ExprNode::Ite(self.clone(), then_.clone(), else_.clone()))
    }

    pub fn lt(&self, other: &Self) -> (r: Self)
        ensures
            *r.0 == (ExprNode::Lt(*self, *other)),
    {
        Expr::new(ExprNode::Lt(self.clone(), other.clone()))
    }

    pub fn le(&self, other: &Self) -> (r: Self)
        ensures
            *r.0 == (ExprNode::Le(*self, *other)),
    {
        Expr::new(ExprNode::Le(self.clone(), other.clone()))
    }

    pub fn gt(&self, other: &Self) -> (r: Self)
        ensures
            *r.0 == (ExprNode::Gt(*self, *other)),
    {
        Expr::new(ExprNode::Gt(self.clone(), other.clone()))
    }

    pub fn ge(&self, other: &Self) -> (r: Self)
        ensures
            *r.0 == (ExprNode::Ge(*self, *other)),
    {
        Expr::new(ExprNode::Ge(self.clone(), other.clone()))
    }

    pub fn add(&self, other: &Self) -> (r: Self)
        ensures
            *r.0 == (ExprNode::Add(*self, *other)),
    {
        Expr::new(ExprNode::Add(self.clone(), other.clone()))
    }

    pub fn sub(&self, other: &Self) -> (r: Self)
        ensures
            *r.0 == (ExprNode::Sub(*self, *other)),
    {
        Expr::new(ExprNode::Sub(self.clone(), other.clone()))
    }

    pub fn mul(&self, other: &Self) -> (r: Self)
        ensures
            *r.0 == (ExprNode::Mul(*self, *other)),
    {
        Expr::new(ExprNode::Mul(self.clone(), other.clone()))
    }

    pub fn neg(&self) -> (r: Self)
        ensures
            *r.0 == (ExprNode::Neg(*self)),
    {
        Expr::new(ExprNode::Neg(self.clone()))
    }

    pub fn bvadd(&self, other: &Self) -> (r: Self)
        ensures
            *r.0 == (ExprNode::BvAdd(*self, *other)),
    {
        Expr::new(ExprNode::BvAdd(self.clone(), other.clone()))
    }

    pub fn bvsub(&self, other: &Self) -> (r: Self)
        ensures
            *r.0 == (ExprNode::BvSub(*self, *other)),
    {
        Expr::new(ExprNode::BvSub(self.clone(), other.clone()))
    }

    pub fn bvmul(&self, other: &Self) -> (r: Self)
        ensures
            *r.0 == (ExprNode::BvMul(*self, *other)),
    {
        Expr::new(ExprNode::BvMul(self.clone(), other.clone()))
    }

    pub fn bvneg(&self) -> (r: Self)
        ensures
            *r.0 == (ExprNode::BvNeg(*self)),
    {
        Expr::new(ExprNode::BvNeg(self.clone()))
    }

    pub fn bvand(&self, other: &Self) -> (r: Self)
        ensures
            *r.0 == (ExprNode::BvAnd(*self, *other)),
    {
        Expr::new(ExprNode::BvAnd(self.clone(), other.clone()))
    }

    pub fn bvor(&self, other: &Self) -> (r: Self)
        ensures
            *r.0 == (ExprNode::BvOr(*self, *other)),
    {
        Expr::new(ExprNode::BvOr(self.clone(), other.clone()))
    }

    pub fn bvxor(&self, other: &Self) -> (r: Self)
        ensures
            *r.0 == (ExprNode::BvXor(*self, *other)),
    {
        Expr::new(ExprNode::BvXor(self.clone(), other.clone()))
    }

    pub fn bvnot(&self) -> (r: Self)
        ensures
            *r.0 == (ExprNode::BvNot(*self)),
    {
        Expr::new(ExprNode::BvNot(self.clone()))
    }

    pub fn bvult(&self, other: &Self) -> (r: Self)
        ensures
            *r.0 == (ExprNode::BvUlt(*self, *other)),
    {
        Expr::new(ExprNode::BvUlt(self.clone(), other.clone()))
    }

    pub fn bvule(&self, other: &Self) -> (r: Self)
        ensures
            *r.0 == (ExprNode::BvUle(*self, *other)),
    {
        Expr::new(ExprNode::BvUle(self.clone(), other.clone()))
    }

    pub fn bvslt(&self, other: &Self) -> (r: Self)
        ensures
            *r.0 == (ExprNode::BvSlt(*self, *other)),
    {
        Expr::new(ExprNode::BvSlt(self.clone(), other.clone()))
    }

    pub fn bvsle(&self, other: &Self) -> (r: Self)
        ensures
            *r.0 == (ExprNode::BvSle(*self, *other)),
    {
        Expr::new(ExprNode::BvSle(self.clone(), other.clone()))
    }

    pub fn bvshl(&self, other: &Self) -> (r: Self)
        ensures
            *r.0 == (ExprNode::BvShl(*self, *other)),
    {
        Expr::new(ExprNode::BvShl(self.clone(), other.clone()))
    }

    pub fn bvlshr(&self, other: &Self) -> (r: Self)
        ensures
            *r.0 == (ExprNode::BvLshr(*self, *other)),
    {
        Expr::new(ExprNode::BvLshr(self.clone(), other.clone()))
    }

    pub fn bvashr(&self, other: &Self) -> (r: Self)
        ensures
            *r.0 == (ExprNode::BvAshr(*self, *other)),
    {
        Expr::new(ExprNode::BvAshr(self.clone(), other.clone()))
    }

    pub fn concat(&self, other: &Self) -> (r: Self)
        ensures
            *r.0 == (ExprNode::BvConcat(*self, *other)),
    {
        Expr::new(ExprNode::BvConcat(self.clone(), other.clone()))
    }

    pub fn extract(&self, hi: u32, lo: u32) -> (r: Self)
        ensures
            *r.0 == (ExprNode::BvExtract(hi, lo, *self)),
    {
        Expr::new(ExprNode::BvExtract(hi, lo, self.clone()))
    }

    pub fn zero_extend(&self, extra_bits: u32) -> (r: Self)
        ensures
            *r.0 == (ExprNode::BvZeroExt(extra_bits, *self)),
    {
        Expr::new(ExprNode::BvZeroExt(extra_bits, self.clone()))
    }

    pub fn sign_extend(&self, extra_bits: u32) -> (r: Self)
        ensures
            *r.0 == (ExprNode::BvSignExt(extra_bits, *self)),
    {
        Expr::new(ExprNode::BvSignExt(extra_bits, self.clone()))
    }
}

/// The direct subexpressions of a node.
pub open spec fn parts(node: ExprNode) -> Seq<Expr> {
    match node {
        ExprNode::Const(..) => seq![],
        ExprNode::BoolLit(..) => seq![],
        ExprNode::IntLit(..) => seq![],
        ExprNode::BitVecLit(..) => seq![],
        ExprNode::Ite(c, t, e) => seq![c, t, e],
        ExprNode::BvExtract(_, _, e) => seq![e],
        ExprNode::BvZeroExt(_, e) => seq![e],
        ExprNode::BvSignExt(_, e) => seq![e],
        ExprNode::Not(e) => seq![e],
        ExprNode::Neg(e) => seq![e],
        ExprNode::BvNeg(e) => seq![e],
        ExprNode::BvNot(e) => seq![e],
        ExprNode::And(a, b) => seq![a, b],
        ExprNode::Or(a, b) => seq![a, b],
        ExprNode::Implies(a, b) => seq![a, b],
        ExprNode::Iff(a, b) => seq![a, b],
        ExprNode::Eq(a, b) => seq![a, b],
        ExprNode::Distinct(a, b) => seq![a, b],
        ExprNode::Lt(a, b) => seq![a, b],
        ExprNode::Le(a, b) => seq![a, b],
        ExprNode::Gt(a, b) => seq![a, b],
        ExprNode::Ge(a, b) => seq![a, b],
        ExprNode::Add(a, b) => seq![a, b],
        ExprNode::Sub(a, b) => seq![a, b],
        ExprNode::Mul(a, b) => seq![a, b],
        ExprNode::BvAdd(a, b) => seq![a, b],
        ExprNode::BvSub(a, b) => seq![a, b],
        ExprNode::BvMul(a, b) => seq![a, b],
        ExprNode::BvAnd(a, b) => seq![a, b],
        ExprNode::BvOr(a, b) => seq![a, b],
        ExprNode::BvXor(a, b) => seq![a, b],
        ExprNode::BvUlt(a, b) => seq![a, b],
        ExprNode::BvUle(a, b) => seq![a, b],
        ExprNode::BvSlt(a, b) => seq![a, b],
        ExprNode::BvSle(a, b) => seq![a, b],
        ExprNode::BvShl(a, b) => seq![a, b],
        ExprNode::BvLshr(a, b) => seq![a, b],
        ExprNode::BvAshr(a, b) => seq![a, b],
        ExprNode::BvConcat(a, b) => seq![a, b],
    }
}

/// Subexpressions are smaller than what they are part of.
pub proof fn parts_are_smaller(e: Expr, i: int)
    requires
        0 <= i < parts(*e.0).len(),
    ensures
        decreases_to!(e => parts(*e.0)[i]),
{
}

/// Expressions behind references.
pub open spec fn pointed(v: Seq<&Expr>) -> Seq<Expr> {
    v.map_values(|e: &Expr| *e)
}

/// Returns the direct child [`Expr`]s of a node.
pub fn children(node: &ExprNode) -> (v: Vec<&Expr>)
    ensures
        pointed(v@) == parts(*node),
{
    let mut v: Vec<&Expr> = Vec::new();
    match node {
        ExprNode::Const(..) | ExprNode::BoolLit(..) | ExprNode::IntLit(..)
        | ExprNode::BitVecLit(..) => {},
        ExprNode::Not(e)
        | ExprNode::Neg(e)
        | ExprNode::BvNeg(e)
        | ExprNode::BvNot(e)
        | ExprNode::BvZeroExt(_, e)
        | ExprNode::BvSignExt(_, e)
        | ExprNode::BvExtract(_, _, e) => {
            v.push(e);
        },
        ExprNode::And(a, b)
        | ExprNode::Or(a, b)
        | ExprNode::Implies(a, b)
        | ExprNode::Iff(a, b)
        | ExprNode::Eq(a, b)
        | ExprNode::Distinct(a, b)
        | ExprNode::Lt(a, b)
        | ExprNode::Le(a, b)
        | ExprNode::Gt(a, b)
        | ExprNode::Ge(a, b)
        | ExprNode::Add(a, b)
        | ExprNode::Sub(a, b)
        | ExprNode::Mul(a, b)
        | ExprNode::BvAdd(a, b)
        | ExprNode::BvSub(a, b)
        | ExprNode::BvMul(a, b)
        | ExprNode::BvAnd(a, b)
        | ExprNode::BvOr(a, b)
        | ExprNode::BvXor(a, b)
        | ExprNode::BvUlt(a, b)
        | ExprNode::BvUle(a, b)
        | ExprNode::BvSlt(a, b)
        | ExprNode::BvSle(a, b)
        | ExprNode::BvShl(a, b)
        | ExprNode::BvLshr(a, b)
        | ExprNode::BvAshr(a, b)
        | ExprNode::BvConcat(a, b) => {
            v.push(a);
            v.push(b);
        },
        ExprNode::Ite(c, t, e) => {
            v.push(c);
            v.push(t);
            v.push(e);
        },
    }
    assert(pointed(v@) =~= parts(*node));
    v
}

} // verus!
