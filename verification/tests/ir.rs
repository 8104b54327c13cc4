//! Bit-vectors, circuits, the term DAG and its builder.

use reasonmesh::ir::bitvec::Bv;
use reasonmesh::ir::builder::{Builder, BvOp, Term, TermInner};
use reasonmesh::ir::circuit::{Circuit, Gate};
use reasonmesh::ir::dag::{Node, Op, TermDag};

fn bool_term(inner: TermInner) -> Term {
    Term { inner, width: None }
}

fn bv_var(name: &str, width: u32) -> Term {
    Term { inner: TermInner::Variable(name.into()), width: Some(width) }
}

fn bv_lit(value: u32, width: u32) -> Term {
    let bits = (0..width).map(|i| (value >> i) & 1 == 1).collect();
    Term { inner: TermInner::BvLiteral { bits, width }, width: Some(width) }
}

fn bv_add(a: Term, b: Term, width: u32) -> Term {
    Term { inner: TermInner::BvOp(BvOp::BvAdd, vec![a, b]), width: Some(width) }
}

#[test]
fn from_u64_reverses_with_to_u64() {
    let b = Bv::from_u64(0b1011, 4);
    assert_eq!(b.bits(), &[true, true, false, true]);
    assert_eq!(b.to_u64(), 0b1011);
    assert_eq!(b.to_text(), "#b1011");
}

#[test]
fn signed_interpretation() {
    assert_eq!(Bv::zero(8).as_signed_i64(), 0);
    assert_eq!(Bv::from_u64(0xFF, 8).as_signed_i64(), -1);
    assert_eq!(Bv::from_u64(0x7F, 8).as_signed_i64(), 127);
    assert_eq!(Bv::from_u64(0x80, 8).as_signed_i64(), -128);
}

#[test]
fn constants() {
    assert!(Bv::zero(8).is_zero());
    assert_eq!(Bv::one(8).to_u64(), 1);
    assert_eq!(Bv::one(1).to_u64(), 1);
    assert_eq!(Bv::from_u64(0, 0).width(), 0);
}

#[test]
fn netlist_evaluation() {
    let mut c = Circuit::default();
    let x = c.input(0);
    let y = c.input(1);
    let n = c.not(x);
    let both = c.and(x, y);
    let out = c.or(n, both);
    assert!(c.evaluate(&[false, false])[out.0 as usize]);
    assert!(!c.evaluate(&[true, false])[out.0 as usize]);
    assert!(c.evaluate(&[true, true])[out.0 as usize]);
}

#[test]
fn constant_folding() {
    let mut c = Circuit::default();
    let t = c.const_gate(true);
    let f = c.const_gate(false);
    let x = c.input(0);
    let axf = c.and(x, f);
    assert!(matches!(c.get(axf), Gate::Const(false)));
    let axt = c.and(x, t);
    assert_eq!(axt, x);
    let oxf = c.or(x, t);
    assert!(matches!(c.get(oxf), Gate::Const(true)));
    let xxf = c.xor(x, f);
    assert_eq!(xxf, x);
}

#[test]
fn mux_behavior() {
    let mut c = Circuit::default();
    let sel = c.input(0);
    let a = c.input(1);
    let b = c.input(2);
    let out = c.mux(sel, a, b);
    assert!(c.evaluate(&[true, true, false])[out.0 as usize]);
    assert!(!c.evaluate(&[true, false, true])[out.0 as usize]);
    assert!(c.evaluate(&[false, false, true])[out.0 as usize]);
    assert!(!c.evaluate(&[false, true, false])[out.0 as usize]);
}

#[test]
fn interning_shares_bool_consts() {
    let mut dag = TermDag::default();
    let a = dag.intern_bool_const(true);
    let b = dag.intern_bool_const(true);
    let c = dag.intern_bool_const(false);
    assert_eq!(a, b);
    assert_ne!(a, c);
    assert_eq!(dag.len(), 2);
}

#[test]
fn interning_shares_apply() {
    let mut dag = TermDag::default();
    let x = dag.intern_bool_var(1);
    let y = dag.intern_bool_var(2);
    let n1 = dag.intern_apply(Op::And, vec![x, y]);
    let n2 = dag.intern_apply(Op::And, vec![x, y]);
    let n3 = dag.intern_apply(Op::Or, vec![x, y]);
    assert_eq!(n1, n2);
    assert_ne!(n1, n3);
}

#[test]
fn bv_var_and_const() {
    let mut dag = TermDag::default();
    let v = dag.intern_bv_var(7, 4);
    assert!(matches!(dag.get(v), Node::BvVar { id: 7, width: 4 }));
    let c = dag.intern_bv_const(4, Bv::from_u64(10, 4));
    assert!(matches!(dag.get(c), Node::BvConst { width: 4, .. }));
}

#[test]
fn lowers_boolean_constants() {
    // (assert true)
    let mut b = Builder::new();
    let root = b.lower(&bool_term(TermInner::True));
    assert!(matches!(b.dag.get(root), Node::BoolConst(true)));
}

#[test]
fn lower_bv_arithmetic() {
    // (assert (bvult (bvadd a b) #x05))
    let mut b = Builder::new();
    let sum = bv_add(bv_var("a", 8), bv_var("b", 8), 8);
    let root = b.lower(&bool_term(TermInner::BvOp(BvOp::BvUlt, vec![sum, bv_lit(5, 8)])));
    match b.dag.get(root) {
        Node::Apply { op: Op::BvUlt, .. } => {}
        other => panic!("expected bvult, got {other:?}"),
    }
}

#[test]
fn variables_are_interned() {
    // (assert (= a #x00))
    let mut b = Builder::new();
    b.lower(&bool_term(TermInner::Eq(Box::new(bv_var("a", 8)), Box::new(bv_lit(0, 8)))));
    assert!(b.var_id("a").is_some());
    assert!(b.var_id("missing").is_none());
}

#[test]
fn structural_sharing_through_builder() {
    // (assert (= (bvadd a b) (bvadd a b)))
    let mut b = Builder::new();
    let sum = || bv_add(bv_var("a", 4), bv_var("b", 4), 4);
    let root = b.lower(&bool_term(TermInner::Eq(Box::new(sum()), Box::new(sum()))));
    if let Node::Apply {
        op: Op::Eq,
        children,
    } = b.dag.get(root)
    {
        assert_eq!(children[0], children[1]);
    } else {
        panic!("expected Eq");
    }
}

#[test]
fn lowering_again_adds_nothing() {
    let mut b = Builder::default();
    let term = bool_term(TermInner::Ite(
        Box::new(bool_term(TermInner::Variable("c".into()))),
        Box::new(bool_term(TermInner::Not(Box::new(bool_term(TermInner::False))))),
        Box::new(bool_term(TermInner::And(vec![
            bool_term(TermInner::Variable("d".into())),
            bool_term(TermInner::FunCall("f".into(), vec![bv_var("x", 4)])),
        ]))),
    ));
    let first = b.lower(&term);
    let size = b.dag.len();
    assert_eq!(b.lower(&term), first);
    assert_eq!(b.dag.len(), size);
    assert_eq!(b.all_var_ids(), vec![0, 1, 2, 3]);
    assert_eq!(b.var_id("x"), Some(2));
    assert_eq!(b.var_id("f"), Some(3));
    assert!(b.dag.assert_canonical(first, first));
    assert_eq!(b.dag.nodes().len(), size);
}

#[test]
fn operators_are_mapped() {
    let mut b = Builder::new();
    let op = BvOp::Extract { high: 3, low: 1 };
    let root = b.lower(&Term { inner: TermInner::BvOp(op, vec![bv_var("a", 8)]), width: Some(3) });
    assert!(matches!(b.dag.get(root), Node::Apply { op: Op::BvExtract { hi: 3, lo: 1 }, .. }));
}

#[test]
fn wide_signed_values() {
    assert_eq!(Bv::from_u64(u64::MAX, 64).as_signed_i64(), -1);
    assert_eq!(Bv::from_u64(1 << 63, 64).as_signed_i64(), i64::MIN);
    assert_eq!(Bv::from_bits(2, vec![false, true]).to_u64(), 2);
}

#[test]
fn gate_laws() {
    let mut c = Circuit::new();
    let x = c.input(0);
    let y = c.input(1);
    let z = c.input(2);
    let n = c.not(x);
    let nn = c.not(n);
    let x_or = c.xor(x, y);
    let any = c.or_n(vec![x, y, z]);
    for mask in 0..8u32 {
        let v = [mask & 1 == 1, mask & 2 == 2, mask & 4 == 4];
        let vals = c.evaluate(&v);
        assert_eq!(vals[n.0 as usize], !v[0]);
        assert_eq!(vals[nn.0 as usize], v[0]);
        assert_eq!(vals[x_or.0 as usize], v[0] != v[1]);
        assert_eq!(vals[any.0 as usize], v[0] || v[1] || v[2]);
    }
}
