//! What gates compute and what bits denote.

use vstd::prelude::*;

#[allow(unused_imports)]
use crate::api::answers;
#[allow(unused_imports)]
use crate::api::model;
#[allow(unused_imports)]
use crate::api::model::Value;
#[allow(unused_imports)]
use crate::ir::bitvec;
#[allow(unused_imports)]
use crate::ir::circuit;
#[allow(unused_imports)]
use crate::ir::circuit::{GateId, GateView};
#[allow(unused_imports)]
use crate::ir::meaning;
#[allow(unused_imports)]
use vstd::arithmetic::power2::{lemma2_to64, lemma_pow2_unfold, pow2};

verus! {

/// Every gate has the value that its kind gives to the values of its operands.
pub proof fn gates_compute(gates: Seq<GateView>, inputs: Seq<bool>, id: GateId)
    requires
        circuit::ordered(gates),
        id.0 < gates.len(),
    ensures
        match gates[id.0 as int] {
            GateView::Const(b) => circuit::gate_value(gates, inputs, id) == b,
            GateView::Input(k) => circuit::gate_value(gates, inputs, id) == inputs[k as int],
            GateView::Not(a) => circuit::gate_value(gates, inputs, id) != circuit::gate_value(
                gates,
                inputs,
                a,
            ),
            GateView::And(a, b) => circuit::gate_value(gates, inputs, id) <==> (
            circuit::gate_value(gates, inputs, a) && circuit::gate_value(gates, inputs, b)),
            GateView::Or(a, b) => circuit::gate_value(gates, inputs, id) <==> (
            circuit::gate_value(gates, inputs, a) || circuit::gate_value(gates, inputs, b)),
            GateView::Xor(a, b) => circuit::gate_value(gates, inputs, id) <==> (
            circuit::gate_value(gates, inputs, a) != circuit::gate_value(gates, inputs, b)),
            GateView::Mux(s, a, b) => circuit::gate_value(gates, inputs, id) == (
            if circuit::gate_value(gates, inputs, s) {
                circuit::gate_value(gates, inputs, a)
            } else {
                circuit::gate_value(gates, inputs, b)
            }),
            GateView::OrN(c) => circuit::gate_value(gates, inputs, id) <==> exists|k: int|
                0 <= k < c.len() && circuit::gate_value(gates, inputs, #[trigger] c[k]),
        },
{
    circuit::value_at(gates, inputs, id);
    let n = id.0 as int;
    assert(circuit::operands_below(gates[n], n));
    assert forall|a: GateId| a.0 < n implies #[trigger] circuit::gate_value(gates, inputs, a)
        == circuit::values(gates, inputs, n)[a.0 as int] by {
        earlier_value(gates, inputs, n, a);
    }
    if let GateView::OrN(c) = gates[n] {
        let vals = circuit::values(gates, inputs, n);
        if circuit::some_set(c, vals) {
            let k = choose|k: int| 0 <= k < c.len() && vals[(#[trigger] c[k]).0 as int];
            assert(circuit::gate_value(gates, inputs, c[k]));
        }
        if exists|k: int|
            0 <= k < c.len() && circuit::gate_value(gates, inputs, #[trigger] c[k]) {
            let k = choose|k: int|
                0 <= k < c.len() && circuit::gate_value(gates, inputs, #[trigger] c[k]);
            assert(c[k].0 < n);
            assert(vals[c[k].0 as int]);
        }
    }
}

/// The value of a gate among the first ones.
proof fn earlier_value(gates: Seq<GateView>, inputs: Seq<bool>, n: int, a: GateId)
    requires
        a.0 < n <= gates.len(),
    ensures
        circuit::gate_value(gates, inputs, a) == circuit::values(gates, inputs, n)[a.0 as int],
{
    let first = gates.take(n);
    same_values(first, gates, inputs, n);
    assert(first.is_prefix_of(gates));
    circuit::growth_keeps_values(first, gates, inputs, a);
}

proof fn same_values(a: Seq<GateView>, b: Seq<GateView>, inputs: Seq<bool>, n: int)
    requires
        n <= a.len(),
        n <= b.len(),
        forall|i: int| 0 <= i < n ==> #[trigger] a[i] == b[i],
    ensures
        circuit::values(a, inputs, n) == circuit::values(b, inputs, n),
    decreases n,
{
    if n > 0 {
        same_values(a, b, inputs, n - 1);
    }
}

/// The value of bits is the number that they denote: the lowest bit counts one,
/// and each further bit twice the one before.
pub proof fn values_are_numbers(bits: Seq<bool>)
    ensures
        bitvec::value(bits) == meaning::number(bits),
        bits.len() > 0 ==> bitvec::value(bits) == (if bits[0] {
            1int
        } else {
            0
        }) + 2 * bitvec::value(bits.drop_first()),
    decreases bits.len(),
{
    lemma2_to64();
    if bits.len() > 0 {
        let low = bits.drop_first();
        let high = bits.drop_last();
        let n = bits.len();
        values_are_numbers(low);
        if n > 1 {
            values_are_numbers(high);
            assert(high.drop_first() =~= low.drop_last());
            lemma_pow2_unfold((n - 1) as nat);
            assert(low.last() == bits.last());
            assert(high[0] == bits[0]);
            let top = if bits.last() {
                pow2((n - 2) as nat) as int
            } else {
                0
            };
            assert(bitvec::value(low) == bitvec::value(low.drop_last()) + top);
            assert(bitvec::value(bits) == bitvec::value(high) + 2 * top);
        } else {
            assert(bitvec::value(low) == 0);
            assert(bitvec::value(high) == 0);
            assert(bits.last() == bits[0]);
            assert(pow2((n - 1) as nat) == 1);
        }
    }
}

/// The digits of a vector, the highest first, are read back as the number that
/// its bits denote.
pub proof fn digits_are_read_back(bits: Seq<bool>)
    ensures
        bitvec::bit_text(bits).len() == bits.len(),
        forall|i: int|
            0 <= i < bits.len() ==> #[trigger] bitvec::bit_text(bits)[i] == (
            if bits[bits.len() - 1 - i] {
                '1'
            } else {
                '0'
            }),
        0 < bits.len() <= 64 ==> model::value_of("#b"@ + bitvec::bit_text(bits)) == Some(
            Value::BitVec { bits: bitvec::value(bits) as u64, width: bits.len() as u32 },
        ),
{
    bit_text_is(bits);
    values_are_numbers(bits);
    if 0 < bits.len() <= 64 {
        answers::binary_literals(bits);
    }
}

proof fn bit_text_is(bits: Seq<bool>)
    ensures
        bitvec::bit_text(bits) == answers::binary(bits),
    decreases bits.len(),
{
    if bits.len() > 0 {
        let high = bits.drop_last();
        bit_text_is(high);
        let s = bitvec::bit_text(bits);
        let t = answers::binary(bits);
        assert forall|i: int| 0 <= i < t.len() implies s[i] == t[i] by {
            if i > 0 {
                assert(answers::binary(high)[i - 1] == t[i]);
            }
        }
        assert(s =~= t);
    } else {
        assert(bitvec::bit_text(bits) =~= answers::binary(bits));
    }
}

} // verus!
