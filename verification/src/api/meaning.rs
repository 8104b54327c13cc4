//! What the emitted scripts are for: the text of an expression means what the
//! expression means, every constant is declared, and every assertion is made.

use vstd::prelude::*;

use crate::api::expr::{Expr, ExprNode};
#[allow(unused_imports)]
use crate::api::emit;
#[allow(unused_imports)]
use crate::api::expr;
#[allow(unused_imports)]
use crate::api::sort;
#[allow(unused_imports)]
use crate::api::sort::Sort;
#[allow(unused_imports)]
use crate::certify::proof_text;
#[allow(unused_imports)]
use crate::ir::meaning as vectors;
#[allow(unused_imports)]
use crate::text;
use crate::text::Text;

verus! {

// ---------------------------------------------------------------------------
// Values
// ---------------------------------------------------------------------------

/// A Boolean, an integer or a vector of bits, the lowest first.
#[verifier::ext_equal]
pub enum Value {
    Truth(bool),
    Int(int),
    Bits(Seq<bool>),
}

pub open spec fn truth(v: Value) -> bool {
    v == Value::Truth(true)
}

pub open spec fn whole(v: Value) -> int {
    match v {
        Value::Int(n) => n,
        _ => 0,
    }
}

pub open spec fn bits(v: Value) -> Seq<bool> {
    match v {
        Value::Bits(b) => b,
        _ => seq![],
    }
}

pub open spec fn negation(x: Value) -> Value {
    Value::Truth(!truth(x))
}

pub open spec fn minus(x: Value) -> Value {
    Value::Int(-whole(x))
}

pub open spec fn vector_minus(x: Value) -> Value {
    Value::Bits(vectors::low_bits(-(vectors::number(bits(x)) as int), bits(x).len()))
}

pub open spec fn vector_not(x: Value) -> Value {
    Value::Bits(Seq::new(bits(x).len(), |i: int| !bits(x)[i]))
}

pub open spec fn conjunction(x: Value, y: Value) -> Value {
    Value::Truth(truth(x) && truth(y))
}

pub open spec fn disjunction(x: Value, y: Value) -> Value {
    Value::Truth(truth(x) || truth(y))
}

pub open spec fn implication(x: Value, y: Value) -> Value {
    Value::Truth(truth(x) ==> truth(y))
}

pub open spec fn equality(x: Value, y: Value) -> Value {
    Value::Truth(x == y)
}

pub open spec fn difference(x: Value, y: Value) -> Value {
    Value::Truth(x != y)
}

pub open spec fn sum(x: Value, y: Value) -> Value {
    Value::Int(whole(x) + whole(y))
}

pub open spec fn differing_by(x: Value, y: Value) -> Value {
    Value::Int(whole(x) - whole(y))
}

pub open spec fn product(x: Value, y: Value) -> Value {
    Value::Int(whole(x) * whole(y))
}

pub open spec fn less(x: Value, y: Value) -> Value {
    Value::Truth(whole(x) < whole(y))
}

pub open spec fn at_most(x: Value, y: Value) -> Value {
    Value::Truth(whole(x) <= whole(y))
}

pub open spec fn greater(x: Value, y: Value) -> Value {
    Value::Truth(whole(x) > whole(y))
}

pub open spec fn at_least(x: Value, y: Value) -> Value {
    Value::Truth(whole(x) >= whole(y))
}

pub open spec fn vector_sum(x: Value, y: Value) -> Value {
    let n = vectors::number(bits(x)) as int + vectors::number(bits(y)) as int;
    Value::Bits(vectors::low_bits(n, bits(x).len()))
}

pub open spec fn vector_difference(x: Value, y: Value) -> Value {
    let n = vectors::number(bits(x)) as int - vectors::number(bits(y)) as int;
    Value::Bits(vectors::low_bits(n, bits(x).len()))
}

pub open spec fn vector_product(x: Value, y: Value) -> Value {
    let n = vectors::number(bits(x)) as int * vectors::number(bits(y)) as int;
    Value::Bits(vectors::low_bits(n, bits(x).len()))
}

pub open spec fn vector_and(x: Value, y: Value) -> Value {
    Value::Bits(Seq::new(bits(x).len(), |i: int| bits(x)[i] && bits(y)[i]))
}

pub open spec fn vector_or(x: Value, y: Value) -> Value {
    Value::Bits(Seq::new(bits(x).len(), |i: int| bits(x)[i] || bits(y)[i]))
}

pub open spec fn vector_xor(x: Value, y: Value) -> Value {
    Value::Bits(Seq::new(bits(x).len(), |i: int| bits(x)[i] != bits(y)[i]))
}

pub open spec fn unsigned_less(x: Value, y: Value) -> Value {
    Value::Truth(vectors::number(bits(x)) < vectors::number(bits(y)))
}

pub open spec fn unsigned_at_most(x: Value, y: Value) -> Value {
    Value::Truth(vectors::number(bits(x)) <= vectors::number(bits(y)))
}

pub open spec fn signed_less(x: Value, y: Value) -> Value {
    Value::Truth(vectors::signed(bits(x)) < vectors::signed(bits(y)))
}

pub open spec fn signed_at_most(x: Value, y: Value) -> Value {
    Value::Truth(vectors::signed(bits(x)) <= vectors::signed(bits(y)))
}

pub open spec fn shifted_up(x: Value, y: Value) -> Value {
    let b = bits(x);
    let k = vectors::number(bits(y)) as int;
    Value::Bits(Seq::new(b.len(), |i: int| i >= k && b[i - k]))
}

pub open spec fn shifted_down(x: Value, y: Value) -> Value {
    let b = bits(x);
    let k = vectors::number(bits(y)) as int;
    Value::Bits(Seq::new(b.len(), |i: int| i + k < b.len() && b[i + k]))
}

pub open spec fn shifted_down_signed(x: Value, y: Value) -> Value {
    let b = bits(x);
    let k = vectors::number(bits(y)) as int;
    Value::Bits(
        Seq::new(
            b.len(),
            |i: int| if i + k < b.len() { b[i + k] } else { b.last() },
        ),
    )
}

pub open spec fn joined(x: Value, y: Value) -> Value {
    Value::Bits(bits(y) + bits(x))
}

pub open spec fn choice(c: Value, x: Value, y: Value) -> Value {
    if truth(c) {
        x
    } else {
        y
    }
}

/// The bits from a low to a high place.
pub open spec fn slice(hi: u32, lo: u32, x: Value) -> Value {
    Value::Bits(bits(x).subrange(lo as int, hi + 1))
}

pub open spec fn padded(n: u32, x: Value) -> Value {
    Value::Bits(bits(x) + Seq::new(n as nat, |i: int| false))
}

pub open spec fn sign_padded(n: u32, x: Value) -> Value {
    Value::Bits(bits(x) + Seq::new(n as nat, |i: int| bits(x).last()))
}

/// What an operator is applied to, in order.
pub open spec fn operands(node: ExprNode) -> Seq<Expr> {
    match node {
        ExprNode::Not(a) => seq![a],
        ExprNode::Neg(a) => seq![a],
        ExprNode::BvNeg(a) => seq![a],
        ExprNode::BvNot(a) => seq![a],
        ExprNode::And(a, b) => seq![a, b],
        ExprNode::Or(a, b) => seq![a, b],
        ExprNode::Implies(a, b) => seq![a, b],
        ExprNode::Iff(a, b) => seq![a, b],
        ExprNode::Eq(a, b) => seq![a, b],
        ExprNode::Distinct(a, b) => seq![a, b],
        ExprNode::Add(a, b) => seq![a, b],
        ExprNode::Sub(a, b) => seq![a, b],
        ExprNode::Mul(a, b) => seq![a, b],
        ExprNode::Lt(a, b) => seq![a, b],
        ExprNode::Le(a, b) => seq![a, b],
        ExprNode::Gt(a, b) => seq![a, b],
        ExprNode::Ge(a, b) => seq![a, b],
        ExprNode::BvAdd(a, b) => seq![a, b],
        ExprNode::BvSub(a, b) => seq![a, b],
        ExprNode::BvMul(a, b) => seq![a, b],
        ExprNode::BvAnd(a, b) => seq![a, b],
        ExprNode::BvOr(a, b) => seq![a, b],
        ExprNode::BvXor(a, b) => seq![a, b],
        ExprNode::BvUlt(a, b) => seq![a, b],
        ExprNode::BvUle(a, b) => seq![a, b],
        ExprNode::BvSlt(a, b) => seq![a, b],
        ExprNode::BvSle(a, b) => seq![a, b],
        ExprNode::BvShl(a, b) => seq![a, b],
        ExprNode::BvLshr(a, b) => seq![a, b],
        ExprNode::BvAshr(a, b) => seq![a, b],
        ExprNode::BvConcat(a, b) => seq![a, b],
        ExprNode::Ite(c, a, b) => seq![c, a, b],
        ExprNode::BvExtract(_, _, a) => seq![a],
        ExprNode::BvZeroExt(_, a) => seq![a],
        ExprNode::BvSignExt(_, a) => seq![a],
        _ => seq![],
    }
}

/// What an operator gives for the values of its operands.
#[verifier::opaque]
pub open spec fn operation(node: ExprNode, env: spec_fn(Text) -> Value, v: Seq<Value>) -> Value {
    match node {
        ExprNode::Const(name, _) => env(name@),
        ExprNode::BoolLit(b) => Value::Truth(b),
        ExprNode::IntLit(n) => Value::Int(n as int),
        ExprNode::BitVecLit(k, w) => Value::Bits(vectors::low_bits(k as int, w as nat)),
        ExprNode::Not(..) => negation(v[0]),
        ExprNode::Neg(..) => minus(v[0]),
        ExprNode::BvNeg(..) => vector_minus(v[0]),
        ExprNode::BvNot(..) => vector_not(v[0]),
        ExprNode::And(..) => conjunction(v[0], v[1]),
        ExprNode::Or(..) => disjunction(v[0], v[1]),
        ExprNode::Implies(..) => implication(v[0], v[1]),
        ExprNode::Iff(..) => equality(v[0], v[1]),
        ExprNode::Eq(..) => equality(v[0], v[1]),
        ExprNode::Distinct(..) => difference(v[0], v[1]),
        ExprNode::Add(..) => sum(v[0], v[1]),
        ExprNode::Sub(..) => differing_by(v[0], v[1]),
        ExprNode::Mul(..) => product(v[0], v[1]),
        ExprNode::Lt(..) => less(v[0], v[1]),
        ExprNode::Le(..) => at_most(v[0], v[1]),
        ExprNode::Gt(..) => greater(v[0], v[1]),
        ExprNode::Ge(..) => at_least(v[0], v[1]),
        ExprNode::BvAdd(..) => vector_sum(v[0], v[1]),
        ExprNode::BvSub(..) => vector_difference(v[0], v[1]),
        ExprNode::BvMul(..) => vector_product(v[0], v[1]),
        ExprNode::BvAnd(..) => vector_and(v[0], v[1]),
        ExprNode::BvOr(..) => vector_or(v[0], v[1]),
        ExprNode::BvXor(..) => vector_xor(v[0], v[1]),
        ExprNode::BvUlt(..) => unsigned_less(v[0], v[1]),
        ExprNode::BvUle(..) => unsigned_at_most(v[0], v[1]),
        ExprNode::BvSlt(..) => signed_less(v[0], v[1]),
        ExprNode::BvSle(..) => signed_at_most(v[0], v[1]),
        ExprNode::BvShl(..) => shifted_up(v[0], v[1]),
        ExprNode::BvLshr(..) => shifted_down(v[0], v[1]),
        ExprNode::BvAshr(..) => shifted_down_signed(v[0], v[1]),
        ExprNode::BvConcat(..) => joined(v[0], v[1]),
        ExprNode::Ite(..) => choice(v[0], v[1], v[2]),
        ExprNode::BvExtract(hi, lo, _) => slice(hi, lo, v[0]),
        ExprNode::BvZeroExt(n, _) => padded(n, v[0]),
        ExprNode::BvSignExt(n, _) => sign_padded(n, v[0]),
    }
}

/// The value of an expression, for given values of its constants.
pub open spec fn value(e: Expr, env: spec_fn(Text) -> Value) -> Value
    decreases e, operands(*e.0).len() + 1,
{
    operation(*e.0, env, values(e, env, operands(*e.0).len()))
}

/// The values of the first `n` operands of an expression.
pub open spec fn values(e: Expr, env: spec_fn(Text) -> Value, n: nat) -> Seq<Value>
    decreases e, n,
{
    if 0 < n <= operands(*e.0).len() {
        values(e, env, (n - 1) as nat).push(value(operands(*e.0)[n - 1], env))
    } else {
        seq![]
    }
}

// ---------------------------------------------------------------------------
// Forms
// ---------------------------------------------------------------------------

/// How many brackets are open at the end of a text.
pub open spec fn depth(t: Text) -> int
    decreases t.len(),
{
    if t.len() == 0 {
        0
    } else {
        depth(t.drop_last()) + (if t.last() == '(' {
            1int
        } else if t.last() == ')' {
            -1
        } else {
            0
        })
    }
}

/// A word: neither blanks nor brackets.
pub open spec fn is_word(t: Text) -> bool {
    &&& t.len() > 0
    &&& forall|i: int|
        0 <= i < t.len() ==> #[trigger] t[i] != '(' && t[i] != ')' && t[i] != ' ' && t[i] != '\n'
}

/// A text in brackets that match.
pub open spec fn in_brackets(t: Text) -> bool {
    &&& t.len() > 1
    &&& depth(t) == 0
    &&& forall|i: int| 0 < i < t.len() ==> depth(#[trigger] t.take(i)) > 0
}

/// A form: a word, or a text in brackets.
pub open spec fn form(t: Text) -> bool {
    is_word(t) || in_brackets(t)
}

/// A text whose brackets match.
spec fn level(t: Text) -> bool {
    &&& depth(t) == 0
    &&& forall|i: int| 0 <= i <= t.len() ==> depth(#[trigger] t.take(i)) >= 0
}

proof fn depth_add(a: Text, b: Text)
    ensures
        depth(a + b) == depth(a) + depth(b),
    decreases b.len(),
{
    if b.len() == 0 {
        assert(a + b =~= a);
    } else {
        depth_add(a, b.drop_last());
        assert((a + b).drop_last() =~= a + b.drop_last());
    }
}

proof fn level_add(a: Text, b: Text)
    requires
        level(a),
        level(b),
    ensures
        level(a + b),
{
    depth_add(a, b);
    let t = a + b;
    assert forall|i: int| 0 <= i <= t.len() implies depth(#[trigger] t.take(i)) >= 0 by {
        if i <= a.len() {
            assert(t.take(i) =~= a.take(i));
        } else {
            assert(t.take(i) =~= a + b.take(i - a.len()));
            depth_add(a, b.take(i - a.len()));
        }
    }
}

proof fn flat_is_level(t: Text)
    requires
        forall|i: int| 0 <= i < t.len() ==> #[trigger] t[i] != '(' && t[i] != ')',
    ensures
        level(t),
    decreases t.len(),
{
    if t.len() > 0 {
        let s = t.drop_last();
        assert forall|i: int| 0 <= i < s.len() implies #[trigger] s[i] != '(' && s[i] != ')' by {
            assert(s[i] == t[i]);
        }
        flat_is_level(s);
        assert(t.last() == t[t.len() - 1]);
        assert forall|i: int| 0 <= i <= t.len() implies depth(#[trigger] t.take(i)) >= 0 by {
            if i < t.len() {
                assert(t.take(i) =~= s.take(i));
            } else {
                assert(t.take(i) =~= t);
            }
        }
    } else {
        assert forall|i: int| 0 <= i <= t.len() implies depth(#[trigger] t.take(i)) >= 0 by {
            assert(t.take(i) =~= t);
        }
    }
}

proof fn form_is_level(t: Text)
    requires
        form(t),
    ensures
        level(t),
{
    if is_word(t) {
        flat_is_level(t);
    } else {
        assert forall|i: int| 0 <= i <= t.len() implies depth(#[trigger] t.take(i)) >= 0 by {
            if i == t.len() {
                assert(t.take(i) =~= t);
            } else if i == 0 {
                assert(t.take(0).len() == 0);
            }
        }
    }
}

/// A level text in brackets is a form.
proof fn wrapped(s: Text)
    requires
        level(s),
    ensures
        in_brackets("("@ + s + ")"@),
{
    reveal_strlit("(");
    reveal_strlit(")");
    let t = "("@ + s + ")"@;
    let open = "("@ + s;
    assert("("@.drop_last() =~= Seq::<char>::empty());
    assert(")"@.drop_last() =~= Seq::<char>::empty());
    assert("("@.last() == '(' && ")"@.last() == ')');
    assert(depth(Seq::<char>::empty()) == 0);
    assert(depth("("@) == 1);
    assert(depth(")"@) == -1);
    depth_add("("@, s);
    depth_add(open, ")"@);
    assert forall|i: int| 0 < i < t.len() implies depth(#[trigger] t.take(i)) > 0 by {
        assert(t.take(i) =~= "("@ + s.take(i - 1));
        depth_add("("@, s.take(i - 1));
    }
}

// ---------------------------------------------------------------------------
// Readings
// ---------------------------------------------------------------------------

/// An operator applied to forms.
#[verifier::opaque]
pub open spec fn applied1(head: Text, a: Text) -> Text {
    "("@ + head + " "@ + a + ")"@
}

#[verifier::opaque]
pub open spec fn applied2(head: Text, a: Text, b: Text) -> Text {
    "("@ + head + " "@ + a + " "@ + b + ")"@
}

#[verifier::opaque]
pub open spec fn applied3(head: Text, a: Text, b: Text, c: Text) -> Text {
    "("@ + head + " "@ + a + " "@ + b + " "@ + c + ")"@
}

/// An operator with indices.
pub open spec fn indexed1(head: Text, n: nat) -> Text {
    "(_ "@ + head + " "@ + text::decimal(n) + ")"@
}

pub open spec fn indexed2(head: Text, n: nat, k: nat) -> Text {
    "(_ "@ + head + " "@ + text::decimal(n) + " "@ + text::decimal(k) + ")"@
}

/// A name that can stand for a constant: a word that neither is a literal nor
/// starts like one.
pub open spec fn is_name(t: Text) -> bool {
    is_word(t) && !text::is_digit(t[0]) && t != "true"@ && t != "false"@
}

/// Names and literals.
#[verifier::opaque]
pub open spec fn reads_words(r: spec_fn(Text) -> Value, env: spec_fn(Text) -> Value) -> bool {
    &&& forall|name: Text| is_name(name) ==> #[trigger] r(name) == env(name)
    &&& r("true"@) == Value::Truth(true)
    &&& r("false"@) == Value::Truth(false)
    &&& forall|n: nat| r(#[trigger] text::decimal(n)) == Value::Int(n as int)
    &&& forall|v: nat, w: nat|
        r("(_ bv"@ + #[trigger] text::decimal(v) + " "@ + #[trigger] text::decimal(w) + ")"@)
            == Value::Bits(vectors::low_bits(v as int, w))
}

/// The connectives.
#[verifier::opaque]
pub open spec fn reads_logic(r: spec_fn(Text) -> Value) -> bool {
    &&& forall|a: Text|
        form(a) ==> r(#[trigger] applied1("not"@, a)) == negation(r(a))
    &&& forall|a: Text, b: Text|
        form(a) && form(b) ==> r(#[trigger] applied2("and"@, a, b)) == conjunction(r(a), r(b))
    &&& forall|a: Text, b: Text|
        form(a) && form(b) ==> r(#[trigger] applied2("or"@, a, b)) == disjunction(r(a), r(b))
    &&& forall|a: Text, b: Text|
        form(a) && form(b) ==> r(#[trigger] applied2("=>"@, a, b)) == implication(r(a), r(b))
    &&& forall|a: Text, b: Text|
        form(a) && form(b) ==> r(#[trigger] applied2("="@, a, b)) == equality(r(a), r(b))
    &&& forall|a: Text, b: Text|
        form(a) && form(b) ==> r(#[trigger] applied2("distinct"@, a, b)) == difference(r(a), r(b))
    &&& forall|a: Text, b: Text, c: Text|
        form(a) && form(b) && form(c) ==> r(#[trigger] applied3("ite"@, a, b, c)) == choice(
            r(a),
            r(b),
            r(c),
        )
}

/// The operators on integers.
#[verifier::opaque]
pub open spec fn reads_integers(r: spec_fn(Text) -> Value) -> bool {
    &&& forall|a: Text|
        form(a) ==> r(#[trigger] applied1("-"@, a)) == minus(r(a))
    &&& forall|a: Text, b: Text|
        form(a) && form(b) ==> r(#[trigger] applied2("-"@, a, b)) == differing_by(r(a), r(b))
    &&& forall|a: Text, b: Text|
        form(a) && form(b) ==> r(#[trigger] applied2("+"@, a, b)) == sum(r(a), r(b))
    &&& forall|a: Text, b: Text|
        form(a) && form(b) ==> r(#[trigger] applied2("*"@, a, b)) == product(r(a), r(b))
    &&& forall|a: Text, b: Text|
        form(a) && form(b) ==> r(#[trigger] applied2("<"@, a, b)) == less(r(a), r(b))
    &&& forall|a: Text, b: Text|
        form(a) && form(b) ==> r(#[trigger] applied2("<="@, a, b)) == at_most(r(a), r(b))
    &&& forall|a: Text, b: Text|
        form(a) && form(b) ==> r(#[trigger] applied2(">"@, a, b)) == greater(r(a), r(b))
    &&& forall|a: Text, b: Text|
        form(a) && form(b) ==> r(#[trigger] applied2(">="@, a, b)) == at_least(r(a), r(b))
}

/// The arithmetic of vectors.
#[verifier::opaque]
pub open spec fn reads_sums(r: spec_fn(Text) -> Value) -> bool {
    &&& forall|a: Text|
        form(a) ==> r(#[trigger] applied1("bvneg"@, a)) == vector_minus(r(a))
    &&& forall|a: Text, b: Text|
        form(a) && form(b) ==> r(#[trigger] applied2("bvadd"@, a, b)) == vector_sum(r(a), r(b))
    &&& forall|a: Text, b: Text|
        form(a) && form(b) ==> r(#[trigger] applied2("bvsub"@, a, b)) == vector_difference(
            r(a),
            r(b),
        )
    &&& forall|a: Text, b: Text|
        form(a) && form(b) ==> r(#[trigger] applied2("bvmul"@, a, b)) == vector_product(r(a), r(b))
}

/// The operators on the bits of vectors.
#[verifier::opaque]
pub open spec fn reads_bits(r: spec_fn(Text) -> Value) -> bool {
    &&& forall|a: Text|
        form(a) ==> r(#[trigger] applied1("bvnot"@, a)) == vector_not(r(a))
    &&& forall|a: Text, b: Text|
        form(a) && form(b) ==> r(#[trigger] applied2("bvand"@, a, b)) == vector_and(r(a), r(b))
    &&& forall|a: Text, b: Text|
        form(a) && form(b) ==> r(#[trigger] applied2("bvor"@, a, b)) == vector_or(r(a), r(b))
    &&& forall|a: Text, b: Text|
        form(a) && form(b) ==> r(#[trigger] applied2("bvxor"@, a, b)) == vector_xor(r(a), r(b))
}

/// The comparisons of vectors.
#[verifier::opaque]
pub open spec fn reads_comparisons(r: spec_fn(Text) -> Value) -> bool {
    &&& forall|a: Text, b: Text|
        form(a) && form(b) ==> r(#[trigger] applied2("bvult"@, a, b)) == unsigned_less(r(a), r(b))
    &&& forall|a: Text, b: Text|
        form(a) && form(b) ==> r(#[trigger] applied2("bvule"@, a, b)) == unsigned_at_most(
            r(a),
            r(b),
        )
    &&& forall|a: Text, b: Text|
        form(a) && form(b) ==> r(#[trigger] applied2("bvslt"@, a, b)) == signed_less(r(a), r(b))
    &&& forall|a: Text, b: Text|
        form(a) && form(b) ==> r(#[trigger] applied2("bvsle"@, a, b)) == signed_at_most(r(a), r(b))
}

/// The operators that move bits.
#[verifier::opaque]
pub open spec fn reads_shifts(r: spec_fn(Text) -> Value) -> bool {
    &&& forall|a: Text, b: Text|
        form(a) && form(b) ==> r(#[trigger] applied2("bvshl"@, a, b)) == shifted_up(r(a), r(b))
    &&& forall|a: Text, b: Text|
        form(a) && form(b) ==> r(#[trigger] applied2("bvlshr"@, a, b)) == shifted_down(r(a), r(b))
    &&& forall|a: Text, b: Text|
        form(a) && form(b) ==> r(#[trigger] applied2("bvashr"@, a, b)) == shifted_down_signed(
            r(a),
            r(b),
        )
    &&& forall|a: Text, b: Text|
        form(a) && form(b) ==> r(#[trigger] applied2("concat"@, a, b)) == joined(r(a), r(b))
}

/// The operators with indices.
#[verifier::opaque]
pub open spec fn reads_indices(r: spec_fn(Text) -> Value) -> bool {
    &&& forall|hi: u32, lo: u32, a: Text|
        form(a) ==> r(
            #[trigger] applied1(indexed2("extract"@, hi as nat, lo as nat), a),
        ) == slice(hi, lo, r(a))
    &&& forall|n: u32, a: Text|
        form(a) ==> r(#[trigger] applied1(indexed1("zero_extend"@, n as nat), a)) == padded(
            n,
            r(a),
        )
    &&& forall|n: u32, a: Text|
        form(a) ==> r(#[trigger] applied1(indexed1("sign_extend"@, n as nat), a)) == sign_padded(
            n,
            r(a),
        )
}

/// A reading of forms as SMT-LIB has it, for given values of the constants.
pub open spec fn reads(r: spec_fn(Text) -> Value, env: spec_fn(Text) -> Value) -> bool {
    &&& reads_words(r, env)
    &&& reads_logic(r)
    &&& reads_integers(r)
    &&& reads_sums(r)
    &&& reads_bits(r)
    &&& reads_comparisons(r)
    &&& reads_shifts(r)
    &&& reads_indices(r)
}

/// Every constant of an expression has a proper name.
pub open spec fn well_named(e: Expr) -> bool
    decreases e, expr::parts(*e.0).len() + 1,
{
    &&& match *e.0 {
        ExprNode::Const(name, _) => is_name(name@),
        _ => true,
    }
    &&& parts_well_named(e, expr::parts(*e.0).len())
}

pub open spec fn parts_well_named(e: Expr, n: nat) -> bool
    decreases e, n,
{
    0 < n <= expr::parts(*e.0).len() ==> well_named(expr::parts(*e.0)[n - 1]) && parts_well_named(
        e,
        (n - 1) as nat,
    )
}

proof fn part_well_named(e: Expr, n: nat, i: int)
    requires
        parts_well_named(e, n),
        0 <= i < n <= expr::parts(*e.0).len(),
    ensures
        well_named(expr::parts(*e.0)[i]),
    decreases n,
{
    if i < n - 1 {
        part_well_named(e, (n - 1) as nat, i);
    }
}

spec fn parts_of(e: Expr) -> Seq<Expr> {
    expr::parts(*e.0)
}

spec fn head_of(e: Expr) -> Text {
    emit::head_text(*e.0)
}

/// The text of an application.
proof fn application_text(e: Expr)
    ensures
        ({
            let p = expr::parts(*e.0);
            let h = emit::head_text(*e.0);
            &&& p.len() <= 3
            &&& p.len() == 1 ==> emit::expr_text(e) == applied1(h, emit::expr_text(p[0]))
            &&& p.len() == 2 ==> emit::expr_text(e) == applied2(
                h,
                emit::expr_text(p[0]),
                emit::expr_text(p[1]),
            )
            &&& p.len() == 3 ==> emit::expr_text(e) == applied3(
                h,
                emit::expr_text(p[0]),
                emit::expr_text(p[1]),
                emit::expr_text(p[2]),
            )
        }),
{
    let p = parts_of(e);
    let h = head_of(e);
    reveal(applied1);
    reveal(applied2);
    reveal(applied3);
    let t0 = emit::parts_text(e, 0);
    let t1 = emit::parts_text(e, 1);
    let t2 = emit::parts_text(e, 2);
    let t3 = emit::parts_text(e, 3);
    assert(t0 =~= Seq::<char>::empty());
    if p.len() >= 1 {
        assert(t1 == t0 + " "@ + emit::expr_text(p[0]));
    }
    if p.len() >= 2 {
        assert(t2 == t1 + " "@ + emit::expr_text(p[1]));
    }
    if p.len() >= 3 {
        assert(t3 == t2 + " "@ + emit::expr_text(p[2]));
    }
    if p.len() == 1 {
        assert(emit::expr_text(e) =~= applied1(h, emit::expr_text(p[0])));
    } else if p.len() == 2 {
        assert(emit::expr_text(e) =~= applied2(h, emit::expr_text(p[0]), emit::expr_text(p[1])));
    } else if p.len() == 3 {
        assert(emit::expr_text(e) =~= applied3(
            h,
            emit::expr_text(p[0]),
            emit::expr_text(p[1]),
            emit::expr_text(p[2]),
        ));
    }
}

proof fn decimal_is_word(n: nat)
    ensures
        is_word(text::decimal(n)),
{
    proof_text::decimal_int_solid(n as int);
    text::decimal_round_trip(n);
    assert forall|i: int| 0 <= i < text::decimal(n).len() implies #[trigger] text::decimal(n)[i]
        != '(' && text::decimal(n)[i] != ')' && text::decimal(n)[i] != ' ' && text::decimal(n)[i]
        != '\n' by {
        assert(text::is_digit(text::decimal(n)[i]));
    }
}

/// The brackets of an operator match.
#[verifier::rlimit(60)]
proof fn head_is_level(e: Expr)
    ensures
        level(head_of(e)),
{
    reveal_strlit("*");
    reveal_strlit("+");
    reveal_strlit("-");
    reveal_strlit("<");
    reveal_strlit("<=");
    reveal_strlit("=");
    reveal_strlit("=>");
    reveal_strlit(">");
    reveal_strlit(">=");
    reveal_strlit("and");
    reveal_strlit("bvadd");
    reveal_strlit("bvand");
    reveal_strlit("bvashr");
    reveal_strlit("bvlshr");
    reveal_strlit("bvmul");
    reveal_strlit("bvneg");
    reveal_strlit("bvnot");
    reveal_strlit("bvor");
    reveal_strlit("bvshl");
    reveal_strlit("bvsle");
    reveal_strlit("bvslt");
    reveal_strlit("bvsub");
    reveal_strlit("bvule");
    reveal_strlit("bvult");
    reveal_strlit("bvxor");
    reveal_strlit("concat");
    reveal_strlit("distinct");
    reveal_strlit("ite");
    reveal_strlit("not");
    reveal_strlit("or");
    reveal_strlit("");
    let h = head_of(e);
    match *e.0 {
        ExprNode::BvExtract(hi, lo, _) => {
            extract_head(hi, lo);
        },
        ExprNode::BvZeroExt(n, _) => {
            extend_heads(n);
        },
        ExprNode::BvSignExt(n, _) => {
            extend_heads(n);
        },
        _ => {
            assert forall|i: int| 0 <= i < h.len() implies #[trigger] h[i] != '(' && h[i]
                != ')' by {}
            flat_is_level(h);
        },
    }
}

proof fn extract_head(hi: u32, lo: u32)
    ensures
        "(_ extract "@ + text::decimal(hi as nat) + " "@ + text::decimal(lo as nat) + ")"@
            == indexed2("extract"@, hi as nat, lo as nat),
        in_brackets(indexed2("extract"@, hi as nat, lo as nat)),
        level(indexed2("extract"@, hi as nat, lo as nat)),
{
    reveal_strlit("(_ extract ");
    reveal_strlit("(_ ");
    reveal_strlit("extract");
    reveal_strlit(" ");
    reveal_strlit("(");
    reveal_strlit("_ extract ");
    decimal_is_word(hi as nat);
    decimal_is_word(lo as nat);
    let t = indexed2("extract"@, hi as nat, lo as nat);
    let inner = "_ extract "@ + text::decimal(hi as nat) + " "@ + text::decimal(lo as nat);
    assert(t =~= "(_ extract "@ + text::decimal(hi as nat) + " "@ + text::decimal(lo as nat)
        + ")"@);
    assert("(_ extract "@ =~= "("@ + "_ extract "@);
    assert(t =~= "("@ + inner + ")"@);
    flat_is_level("_ extract "@);
    flat_is_level(text::decimal(hi as nat));
    flat_is_level(" "@);
    flat_is_level(text::decimal(lo as nat));
    level_add("_ extract "@, text::decimal(hi as nat));
    level_add("_ extract "@ + text::decimal(hi as nat), " "@);
    level_add("_ extract "@ + text::decimal(hi as nat) + " "@, text::decimal(lo as nat));
    wrapped(inner);
    form_is_level(t);
}

proof fn extend_heads(n: u32)
    ensures
        "(_ zero_extend "@ + text::decimal(n as nat) + ")"@ == indexed1(
            "zero_extend"@,
            n as nat,
        ),
        "(_ sign_extend "@ + text::decimal(n as nat) + ")"@ == indexed1(
            "sign_extend"@,
            n as nat,
        ),
        level(indexed1("zero_extend"@, n as nat)),
        level(indexed1("sign_extend"@, n as nat)),
{
    reveal_strlit("(_ zero_extend ");
    reveal_strlit("(_ sign_extend ");
    reveal_strlit("(_ ");
    reveal_strlit("zero_extend");
    reveal_strlit("sign_extend");
    reveal_strlit("_ zero_extend ");
    reveal_strlit("_ sign_extend ");
    reveal_strlit(" ");
    reveal_strlit("(");
    decimal_is_word(n as nat);
    let d = text::decimal(n as nat);
    flat_is_level(d);
    let z = indexed1("zero_extend"@, n as nat);
    assert(z =~= "(_ zero_extend "@ + d + ")"@);
    assert(z =~= "("@ + ("_ zero_extend "@ + d) + ")"@);
    flat_is_level("_ zero_extend "@);
    level_add("_ zero_extend "@, d);
    wrapped("_ zero_extend "@ + d);
    form_is_level(z);
    let s = indexed1("sign_extend"@, n as nat);
    assert(s =~= "(_ sign_extend "@ + d + ")"@);
    assert(s =~= "("@ + ("_ sign_extend "@ + d) + ")"@);
    flat_is_level("_ sign_extend "@);
    level_add("_ sign_extend "@, d);
    wrapped("_ sign_extend "@ + d);
    form_is_level(s);
}

pub(crate) proof fn bv_is_form(v: nat, w: nat)
    ensures
        form(emit::bv_text(v, w)),
{
    reveal_strlit("(_ bv");
    reveal_strlit("_ bv");
    reveal_strlit(" ");
    reveal_strlit("(");
    decimal_is_word(v);
    decimal_is_word(w);
    let inner = "_ bv"@ + text::decimal(v) + " "@ + text::decimal(w);
    assert("(_ bv"@ =~= "("@ + "_ bv"@);
    assert(emit::bv_text(v, w) =~= "("@ + inner + ")"@);
    flat_is_level("_ bv"@);
    flat_is_level(text::decimal(v));
    flat_is_level(" "@);
    flat_is_level(text::decimal(w));
    level_add("_ bv"@, text::decimal(v));
    level_add("_ bv"@ + text::decimal(v), " "@);
    level_add("_ bv"@ + text::decimal(v) + " "@, text::decimal(w));
    wrapped(inner);
}

proof fn applied_is_form(h: Text, a: Text, b: Text, c: Text)
    requires
        level(h),
        level(a),
        level(b),
        level(c),
    ensures
        form(applied1(h, a)),
        form(applied2(h, a, b)),
        form(applied3(h, a, b, c)),
{
    reveal_strlit(" ");
    flat_is_level(" "@);
    reveal(applied1);
    reveal(applied2);
    reveal(applied3);
    let s1 = h + " "@ + a;
    level_add(h, " "@);
    level_add(h + " "@, a);
    wrapped(s1);
    assert("("@ + s1 + ")"@ =~= applied1(h, a));
    let s2 = s1 + " "@ + b;
    level_add(s1, " "@);
    level_add(s1 + " "@, b);
    wrapped(s2);
    assert("("@ + s2 + ")"@ =~= applied2(h, a, b));
    let s3 = s2 + " "@ + c;
    level_add(s2, " "@);
    level_add(s2 + " "@, c);
    wrapped(s3);
    assert("("@ + s3 + ")"@ =~= applied3(h, a, b, c));
}

/// The text of an expression is a form.
pub proof fn expressions_are_forms(e: Expr)
    requires
        well_named(e),
    ensures
        form(emit::expr_text(e)),
    decreases e,
{
    let p = parts_of(e);
    let n = p.len();
    application_text(e);
    head_is_level(e);
    let empty = Seq::<char>::empty();
    flat_is_level(empty);
    if n == 0 {
        reveal_strlit("true");
        reveal_strlit("false");
        match *e.0 {
            ExprNode::IntLit(k) => {
                negative_text(k as int);
            },
            ExprNode::BitVecLit(v, w) => {
                bv_is_form(v as nat, w as nat);
            },
            _ => {},
        }
    } else {
        expr::parts_are_smaller(e, 0);
        part_well_named(e, n, 0);
        expressions_are_forms(p[0]);
        form_is_level(emit::expr_text(p[0]));
        let a = emit::expr_text(p[0]);
        if n == 1 {
            applied_is_form(head_of(e), a, empty, empty);
        } else {
            expr::parts_are_smaller(e, 1);
            part_well_named(e, n, 1);
            expressions_are_forms(p[1]);
            form_is_level(emit::expr_text(p[1]));
            let b = emit::expr_text(p[1]);
            if n == 2 {
                applied_is_form(head_of(e), a, b, empty);
            } else {
                expr::parts_are_smaller(e, 2);
                part_well_named(e, n, 2);
                expressions_are_forms(p[2]);
                form_is_level(emit::expr_text(p[2]));
                applied_is_form(head_of(e), a, b, emit::expr_text(p[2]));
            }
        }
    }
}

/// The text of an integer.
proof fn negative_text(k: int)
    ensures
        k < 0 ==> emit::int_text(k) == applied1("-"@, text::decimal((-k) as nat)),
        k >= 0 ==> emit::int_text(k) == text::decimal(k as nat),
        form(emit::int_text(k)),
{
    reveal_strlit("-");
    reveal_strlit(" ");
    reveal_strlit("(");
    reveal_strlit("(- ");
    reveal(applied1);
    let empty = Seq::<char>::empty();
    flat_is_level(empty);
    flat_is_level("-"@);
    if k < 0 {
        let d = text::decimal((-k) as nat);
        assert(emit::int_text(k) =~= applied1("-"@, d));
        decimal_is_word((-k) as nat);
        form_is_level(d);
        applied_is_form("-"@, d, empty, empty);
    } else {
        decimal_is_word(k as nat);
    }
}

/// The values of operands, one by one.
proof fn values_are(e: Expr, env: spec_fn(Text) -> Value, n: nat)
    requires
        n <= operands(*e.0).len(),
    ensures
        values(e, env, n).len() == n,
        forall|i: int|
            0 <= i < n ==> #[trigger] values(e, env, n)[i] == value(operands(*e.0)[i], env),
    decreases n,
{
    if n > 0 {
        values_are(e, env, (n - 1) as nat);
    }
}

spec fn operands_of(e: Expr) -> Seq<Expr> {
    operands(*e.0)
}

/// The negation of a form.
pub(crate) proof fn not_is_read(a: Text, r: spec_fn(Text) -> Value)
    requires
        form(a),
        reads_logic(r),
    ensures
        r(applied1("not"@, a)) == negation(r(a)),
        form(applied1("not"@, a)),
{
    reveal(reads_logic);
    reveal_strlit("not");
    flat_is_level("not"@);
    form_is_level(a);
    applied_is_form("not"@, a, a, a);
}

/// The comparison of vectors.
pub(crate) proof fn bvult_is_read(a: Text, b: Text, r: spec_fn(Text) -> Value)
    requires
        form(a),
        form(b),
        reads_comparisons(r),
    ensures
        r(applied2("bvult"@, a, b)) == unsigned_less(r(a), r(b)),
        form(applied2("bvult"@, a, b)),
{
    reveal(reads_comparisons);
    reveal_strlit("bvult");
    flat_is_level("bvult"@);
    form_is_level(a);
    form_is_level(b);
    applied_is_form("bvult"@, a, b, b);
}

/// The comparisons of an integer with zero.
pub(crate) proof fn zero_is_read(a: Text, r: spec_fn(Text) -> Value, env: spec_fn(Text) -> Value)
    requires
        form(a),
        reads(r, env),
    ensures
        r(applied2(">="@, a, "0"@)) == Value::Truth(whole(r(a)) >= 0),
        r(applied2("<"@, a, "0"@)) == Value::Truth(whole(r(a)) < 0),
        form(applied2(">="@, a, "0"@)),
        form(applied2("<"@, a, "0"@)),
{
    reveal(reads_words);
    reveal(reads_integers);
    reveal_strlit(">=");
    reveal_strlit("<");
    reveal_strlit("0");
    assert("0"@ =~= text::decimal(0));
    decimal_is_word(0);
    form_is_level("0"@);
    flat_is_level(">="@);
    flat_is_level("<"@);
    form_is_level(a);
    applied_is_form(">="@, a, "0"@, a);
    applied_is_form("<"@, a, "0"@, a);
}

/// The parts of an expression mean what they should.
spec fn parts_mean(e: Expr, r: spec_fn(Text) -> Value, env: spec_fn(Text) -> Value) -> bool {
    let p = operands(*e.0);
    &&& p.len() >= 1 ==> form(emit::expr_text(p[0])) && r(emit::expr_text(p[0])) == value(
        p[0],
        env,
    )
    &&& p.len() >= 2 ==> form(emit::expr_text(p[1])) && r(emit::expr_text(p[1])) == value(
        p[1],
        env,
    )
    &&& p.len() >= 3 ==> form(emit::expr_text(p[2])) && r(emit::expr_text(p[2])) == value(
        p[2],
        env,
    )
}

#[verifier::rlimit(60)]
proof fn logic_mean(e: Expr, r: spec_fn(Text) -> Value, env: spec_fn(Text) -> Value)
    requires
        *e.0 is Not
            || *e.0 is And
            || *e.0 is Or
            || *e.0 is Implies
            || *e.0 is Iff
            || *e.0 is Eq
            || *e.0 is Distinct
            || *e.0 is Ite,
        parts_mean(e, r, env),
        reads_logic(r),
    ensures
        r(emit::expr_text(e)) == value(e, env),
{
    reveal(operation);
    values_are(e, env, operands_of(e).len());
    reveal(reads_logic);
    application_text(e);
    match *e.0 {
        ExprNode::Not(..) => {
            assert(r(emit::expr_text(e)) == value(e, env));
        },
        ExprNode::And(..) => {
            assert(r(emit::expr_text(e)) == value(e, env));
        },
        ExprNode::Or(..) => {
            assert(r(emit::expr_text(e)) == value(e, env));
        },
        ExprNode::Implies(..) => {
            assert(r(emit::expr_text(e)) == value(e, env));
        },
        ExprNode::Iff(..) => {
            assert(r(emit::expr_text(e)) == value(e, env));
        },
        ExprNode::Eq(..) => {
            assert(r(emit::expr_text(e)) == value(e, env));
        },
        ExprNode::Distinct(..) => {
            assert(r(emit::expr_text(e)) == value(e, env));
        },
        ExprNode::Ite(..) => {
            assert(r(emit::expr_text(e)) == value(e, env));
        },
        _ => {},
    }
}

#[verifier::rlimit(60)]
proof fn integers_mean(e: Expr, r: spec_fn(Text) -> Value, env: spec_fn(Text) -> Value)
    requires
        *e.0 is Neg
            || *e.0 is Add
            || *e.0 is Sub
            || *e.0 is Mul
            || *e.0 is Lt
            || *e.0 is Le
            || *e.0 is Gt
            || *e.0 is Ge,
        parts_mean(e, r, env),
        reads_integers(r),
    ensures
        r(emit::expr_text(e)) == value(e, env),
{
    reveal(operation);
    values_are(e, env, operands_of(e).len());
    reveal(reads_integers);
    application_text(e);
    match *e.0 {
        ExprNode::Neg(..) => {
            assert(r(emit::expr_text(e)) == value(e, env));
        },
        ExprNode::Add(..) => {
            assert(r(emit::expr_text(e)) == value(e, env));
        },
        ExprNode::Sub(..) => {
            assert(r(emit::expr_text(e)) == value(e, env));
        },
        ExprNode::Mul(..) => {
            assert(r(emit::expr_text(e)) == value(e, env));
        },
        ExprNode::Lt(..) => {
            assert(r(emit::expr_text(e)) == value(e, env));
        },
        ExprNode::Le(..) => {
            assert(r(emit::expr_text(e)) == value(e, env));
        },
        ExprNode::Gt(..) => {
            assert(r(emit::expr_text(e)) == value(e, env));
        },
        ExprNode::Ge(..) => {
            assert(r(emit::expr_text(e)) == value(e, env));
        },
        _ => {},
    }
}

#[verifier::rlimit(60)]
proof fn sums_mean(e: Expr, r: spec_fn(Text) -> Value, env: spec_fn(Text) -> Value)
    requires
        *e.0 is BvNeg
            || *e.0 is BvAdd
            || *e.0 is BvSub
            || *e.0 is BvMul,
        parts_mean(e, r, env),
        reads_sums(r),
    ensures
        r(emit::expr_text(e)) == value(e, env),
{
    reveal(operation);
    values_are(e, env, operands_of(e).len());
    reveal(reads_sums);
    application_text(e);
    match *e.0 {
        ExprNode::BvNeg(..) => {
            assert(r(emit::expr_text(e)) == value(e, env));
        },
        ExprNode::BvAdd(..) => {
            assert(r(emit::expr_text(e)) == value(e, env));
        },
        ExprNode::BvSub(..) => {
            assert(r(emit::expr_text(e)) == value(e, env));
        },
        ExprNode::BvMul(..) => {
            assert(r(emit::expr_text(e)) == value(e, env));
        },
        _ => {},
    }
}

#[verifier::rlimit(60)]
proof fn bits_mean(e: Expr, r: spec_fn(Text) -> Value, env: spec_fn(Text) -> Value)
    requires
        *e.0 is BvNot
            || *e.0 is BvAnd
            || *e.0 is BvOr
            || *e.0 is BvXor,
        parts_mean(e, r, env),
        reads_bits(r),
    ensures
        r(emit::expr_text(e)) == value(e, env),
{
    reveal(operation);
    values_are(e, env, operands_of(e).len());
    reveal(reads_bits);
    application_text(e);
    match *e.0 {
        ExprNode::BvNot(..) => {
            assert(r(emit::expr_text(e)) == value(e, env));
        },
        ExprNode::BvAnd(..) => {
            assert(r(emit::expr_text(e)) == value(e, env));
        },
        ExprNode::BvOr(..) => {
            assert(r(emit::expr_text(e)) == value(e, env));
        },
        ExprNode::BvXor(..) => {
            assert(r(emit::expr_text(e)) == value(e, env));
        },
        _ => {},
    }
}

#[verifier::rlimit(60)]
proof fn comparisons_mean(e: Expr, r: spec_fn(Text) -> Value, env: spec_fn(Text) -> Value)
    requires
        *e.0 is BvUlt
            || *e.0 is BvUle
            || *e.0 is BvSlt
            || *e.0 is BvSle,
        parts_mean(e, r, env),
        reads_comparisons(r),
    ensures
        r(emit::expr_text(e)) == value(e, env),
{
    reveal(operation);
    values_are(e, env, operands_of(e).len());
    reveal(reads_comparisons);
    application_text(e);
    match *e.0 {
        ExprNode::BvUlt(..) => {
            assert(r(emit::expr_text(e)) == value(e, env));
        },
        ExprNode::BvUle(..) => {
            assert(r(emit::expr_text(e)) == value(e, env));
        },
        ExprNode::BvSlt(..) => {
            assert(r(emit::expr_text(e)) == value(e, env));
        },
        ExprNode::BvSle(..) => {
            assert(r(emit::expr_text(e)) == value(e, env));
        },
        _ => {},
    }
}

#[verifier::rlimit(60)]
proof fn shifts_mean(e: Expr, r: spec_fn(Text) -> Value, env: spec_fn(Text) -> Value)
    requires
        *e.0 is BvShl
            || *e.0 is BvLshr
            || *e.0 is BvAshr
            || *e.0 is BvConcat,
        parts_mean(e, r, env),
        reads_shifts(r),
    ensures
        r(emit::expr_text(e)) == value(e, env),
{
    reveal(operation);
    values_are(e, env, operands_of(e).len());
    reveal(reads_shifts);
    application_text(e);
    match *e.0 {
        ExprNode::BvShl(..) => {
            assert(r(emit::expr_text(e)) == value(e, env));
        },
        ExprNode::BvLshr(..) => {
            assert(r(emit::expr_text(e)) == value(e, env));
        },
        ExprNode::BvAshr(..) => {
            assert(r(emit::expr_text(e)) == value(e, env));
        },
        ExprNode::BvConcat(..) => {
            assert(r(emit::expr_text(e)) == value(e, env));
        },
        _ => {},
    }
}

#[verifier::rlimit(60)]
proof fn indices_mean(e: Expr, r: spec_fn(Text) -> Value, env: spec_fn(Text) -> Value)
    requires
        *e.0 is BvExtract || *e.0 is BvZeroExt || *e.0 is BvSignExt,
        parts_mean(e, r, env),
        reads_indices(r),
    ensures
        r(emit::expr_text(e)) == value(e, env),
{
    reveal(operation);
    values_are(e, env, operands_of(e).len());
    reveal(reads_indices);
    application_text(e);
    match *e.0 {
        ExprNode::BvExtract(hi, lo, _) => {
            extract_head(hi, lo);
        },
        ExprNode::BvZeroExt(k, _) => {
            extend_heads(k);
        },
        ExprNode::BvSignExt(k, _) => {
            extend_heads(k);
        },
        _ => {},
    }
}

#[verifier::rlimit(60)]
proof fn words_mean(e: Expr, r: spec_fn(Text) -> Value, env: spec_fn(Text) -> Value)
    requires
        *e.0 is Const || *e.0 is BoolLit || *e.0 is IntLit || *e.0 is BitVecLit,
        well_named(e),
        reads_words(r, env),
        reads_integers(r),
    ensures
        r(emit::expr_text(e)) == value(e, env),
{
    reveal(operation);
    reveal(reads_words);
    match *e.0 {
        ExprNode::IntLit(k) => {
            negative_text(k as int);
            if k < 0 {
                reveal(reads_integers);
                decimal_is_word((-(k as int)) as nat);
                let d = text::decimal((-(k as int)) as nat);
                assert(r(applied1("-"@, d)) == minus(r(d)));
            }
        },
        ExprNode::BitVecLit(v, w) => {
            let a = text::decimal(v as nat);
            let b = text::decimal(w as nat);
            assert(r("(_ bv"@ + a + " "@ + b + ")"@) == Value::Bits(
                vectors::low_bits(v as int, w as nat),
            ));
        },
        _ => {},
    }
}

/// The text of an expression means what the expression means: every reading of
/// forms as SMT-LIB has it gives the text the value of the expression.
pub proof fn texts_mean_their_expressions(
    e: Expr,
    r: spec_fn(Text) -> Value,
    env: spec_fn(Text) -> Value,
)
    requires
        well_named(e),
        reads(r, env),
    ensures
        r(emit::expr_text(e)) == value(e, env),
    decreases e,
{
    let p = parts_of(e);
    let n = p.len();
    application_text(e);
    if n >= 1 {
        expr::parts_are_smaller(e, 0);
        part_well_named(e, n, 0);
        expressions_are_forms(p[0]);
        texts_mean_their_expressions(p[0], r, env);
    }
    if n >= 2 {
        expr::parts_are_smaller(e, 1);
        part_well_named(e, n, 1);
        expressions_are_forms(p[1]);
        texts_mean_their_expressions(p[1], r, env);
    }
    if n >= 3 {
        expr::parts_are_smaller(e, 2);
        part_well_named(e, n, 2);
        expressions_are_forms(p[2]);
        texts_mean_their_expressions(p[2], r, env);
    }
    match *e.0 {
        ExprNode::Not(..)
        | ExprNode::And(..)
        | ExprNode::Or(..)
        | ExprNode::Implies(..)
        | ExprNode::Iff(..)
        | ExprNode::Eq(..)
        | ExprNode::Distinct(..)
        | ExprNode::Ite(..) => {
            logic_mean(e, r, env);
        },
        ExprNode::Neg(..)
        | ExprNode::Add(..)
        | ExprNode::Sub(..)
        | ExprNode::Mul(..)
        | ExprNode::Lt(..)
        | ExprNode::Le(..)
        | ExprNode::Gt(..)
        | ExprNode::Ge(..) => {
            integers_mean(e, r, env);
        },
        ExprNode::BvNeg(..)
        | ExprNode::BvAdd(..)
        | ExprNode::BvSub(..)
        | ExprNode::BvMul(..) => {
            sums_mean(e, r, env);
        },
        ExprNode::BvNot(..)
        | ExprNode::BvAnd(..)
        | ExprNode::BvOr(..)
        | ExprNode::BvXor(..) => {
            bits_mean(e, r, env);
        },
        ExprNode::BvUlt(..)
        | ExprNode::BvUle(..)
        | ExprNode::BvSlt(..)
        | ExprNode::BvSle(..) => {
            comparisons_mean(e, r, env);
        },
        ExprNode::BvShl(..)
        | ExprNode::BvLshr(..)
        | ExprNode::BvAshr(..)
        | ExprNode::BvConcat(..) => {
            shifts_mean(e, r, env);
        },
        ExprNode::BvExtract(..) | ExprNode::BvZeroExt(..) | ExprNode::BvSignExt(..) => {
            indices_mean(e, r, env);
        },
        _ => {
            words_mean(e, r, env);
        },
    }
}

} // verus!
