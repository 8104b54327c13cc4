//! Bit-level Boolean circuit: a gate netlist with constant-folding
//! combinators plus evaluation.

use vstd::prelude::*;

verus! {

#[derive(Clone, Copy, PartialEq, Eq, Hash, Debug, Structural)]
pub struct GateId(pub u32);

/// A single gate in the netlist. Its operands are earlier gates.
#[derive(Debug, Clone, PartialEq, Eq, Hash)]
pub enum Gate {
    Const(bool),
    /// Primary input; the index into the evaluation input vector.
    Input(u32),
    Not(GateId),
    And(GateId, GateId),
    Or(GateId, GateId),
    Xor(GateId, GateId),
    /// Multiplexer: `(sel ? a : b)`.
    Mux(GateId, GateId, GateId),
    /// True when any child is true (variadic or).
    OrN(Vec<GateId>),
}

/// A circuit netlist. Gates are added in topological order, so evaluation is
/// a single forward pass.
#[derive(Debug, Clone)]
pub struct Circuit {
    gates: Vec<Gate>,
}

/// The contents of a gate.
#[verifier::ext_equal]
pub enum GateView {
    Const(bool),
    Input(u32),
    Not(GateId),
    And(GateId, GateId),
    Or(GateId, GateId),
    Xor(GateId, GateId),
    Mux(GateId, GateId, GateId),
    OrN(Seq<GateId>),
}

impl View for Gate {
    type V = GateView;

    open spec fn view(&self) -> GateView {
        match *self {
            Gate::Const(v) => GateView::Const(v),
            Gate::Input(i) => GateView::Input(i),
            Gate::Not(a) => GateView::Not(a),
            Gate::And(a, b) => GateView::And(a, b),
            Gate::Or(a, b) => GateView::Or(a, b),
            Gate::Xor(a, b) => GateView::Xor(a, b),
            Gate::Mux(s, a, b) => GateView::Mux(s, a, b),
            Gate::OrN(c) => GateView::OrN(c@),
        }
    }
}

/// Every operand of a gate is below a position.
pub open spec fn operands_below(g: GateView, n: int) -> bool {
    match g {
        GateView::Const(_) => true,
        GateView::Input(_) => true,
        GateView::Not(a) => a.0 < n,
        GateView::And(a, b) => a.0 < n && b.0 < n,
        GateView::Or(a, b) => a.0 < n && b.0 < n,
        GateView::Xor(a, b) => a.0 < n && b.0 < n,
        GateView::Mux(s, a, b) => s.0 < n && a.0 < n && b.0 < n,
        GateView::OrN(c) => all_below(c, n),
    }
}

/// Every gate is below a position.
pub open spec fn all_below(c: Seq<GateId>, n: int) -> bool {
    forall|k: int| 0 <= k < c.len() ==> (#[trigger] c[k]).0 < n
}

/// Some of the gates has the value true.
pub open spec fn some_set(c: Seq<GateId>, vals: Seq<bool>) -> bool {
    exists|k: int| 0 <= k < c.len() && vals[(#[trigger] c[k]).0 as int]
}

/// Gates refer to earlier gates only.
pub open spec fn ordered(gates: Seq<GateView>) -> bool {
    forall|i: int| 0 <= i < gates.len() ==> operands_below(#[trigger] gates[i], i)
}

/// The inputs cover every input gate.
pub open spec fn inputs_cover(gates: Seq<GateView>, n: int) -> bool {
    forall|i: int|
        0 <= i < gates.len() ==> ((#[trigger] gates[i]) matches GateView::Input(k) ==> k < n)
}

/// What a gate computes from the values of earlier gates.
pub open spec fn computes(g: GateView, vals: Seq<bool>, inputs: Seq<bool>) -> bool {
    match g {
        GateView::Const(v) => v,
        GateView::Input(k) => inputs[k as int],
        GateView::Not(a) => !vals[a.0 as int],
        GateView::And(a, b) => vals[a.0 as int] && vals[b.0 as int],
        GateView::Or(a, b) => vals[a.0 as int] || vals[b.0 as int],
        GateView::Xor(a, b) => vals[a.0 as int] != vals[b.0 as int],
        GateView::Mux(s, a, b) => if vals[s.0 as int] {
            vals[a.0 as int]
        } else {
            vals[b.0 as int]
        },
        GateView::OrN(c) => some_set(c, vals),
    }
}

/// The values of the first `n` gates.
pub open spec fn values(gates: Seq<GateView>, inputs: Seq<bool>, n: int) -> Seq<bool>
    decreases n,
{
    if n <= 0 {
        Seq::empty()
    } else {
        let before = values(gates, inputs, n - 1);
        before.push(computes(gates[n - 1], before, inputs))
    }
}

/// The value of a gate.
pub open spec fn gate_value(gates: Seq<GateView>, inputs: Seq<bool>, id: GateId) -> bool {
    values(gates, inputs, gates.len() as int)[id.0 as int]
}

pub proof fn values_len(gates: Seq<GateView>, inputs: Seq<bool>, n: int)
    requires
        n >= 0,
    ensures
        values(gates, inputs, n).len() == n,
    decreases n,
{
    if n > 0 {
        values_len(gates, inputs, n - 1);
    }
}

/// More gates do not change the values of those before.
proof fn values_extend(gates: Seq<GateView>, more: Seq<GateView>, inputs: Seq<bool>, n: int, m: int)
    requires
        0 <= n <= m,
        m <= more.len(),
        n <= gates.len(),
        gates.is_prefix_of(more),
    ensures
        values(gates, inputs, n) == values(more, inputs, n),
        forall|i: int|
            0 <= i < n ==> #[trigger] values(more, inputs, m)[i] == values(gates, inputs, n)[i],
    decreases m,
{
    values_len(more, inputs, m);
    values_len(gates, inputs, n);
    assert(forall|i: int| 0 <= i < gates.len() ==> gates[i] == more[i]);
    if m > n {
        values_extend(gates, more, inputs, n, m - 1);
        values_len(more, inputs, m - 1);
    } else if n > 0 {
        values_extend(gates, more, inputs, n - 1, n - 1);
    }
}

/// Adding gates keeps the value of every gate that was there.
pub proof fn growth_keeps_values(
    gates: Seq<GateView>,
    more: Seq<GateView>,
    inputs: Seq<bool>,
    id: GateId,
)
    requires
        gates.is_prefix_of(more),
        id.0 < gates.len(),
    ensures
        gate_value(more, inputs, id) == gate_value(gates, inputs, id),
{
    values_extend(gates, more, inputs, gates.len() as int, more.len() as int);
}

/// What the newest gate computes.
proof fn newest_value(gates: Seq<GateView>, g: GateView, inputs: Seq<bool>)
    requires
        gates.len() <= u32::MAX,
    ensures
        gate_value(gates.push(g), inputs, GateId(gates.len() as u32)) == computes(
            g,
            values(gates, inputs, gates.len() as int),
            inputs,
        ),
{
    let more = gates.push(g);
    let n = gates.len() as int;
    assert(gates.is_prefix_of(more)) by {
        assert(more.take(n) =~= gates);
    }
    values_extend(gates, more, inputs, n, n);
    values_len(gates, inputs, n);
    values_len(more, inputs, n + 1);
}

pub open spec fn gate_views(gates: Seq<Gate>) -> Seq<GateView> {
    gates.map_values(|g: Gate| g@)
}

/// A gate is a given constant.
pub open spec fn is_const(gates: Seq<GateView>, id: GateId, v: bool) -> bool {
    gates[id.0 as int] == GateView::Const(v)
}

/// One gate added at the end.
pub open spec fn added(gates: Seq<GateView>, g: GateView) -> (Seq<GateView>, GateId) {
    (gates.push(g), GateId(gates.len() as u32))
}

/// The negation of a gate.
pub open spec fn with_not(gates: Seq<GateView>, a: GateId) -> (Seq<GateView>, GateId) {
    match gates[a.0 as int] {
        GateView::Const(v) => added(gates, GateView::Const(!v)),
        _ => added(gates, GateView::Not(a)),
    }
}

/// The conjunction of two gates.
pub open spec fn with_and(gates: Seq<GateView>, a: GateId, b: GateId) -> (Seq<GateView>, GateId) {
    if is_const(gates, a, false) || is_const(gates, b, false) {
        added(gates, GateView::Const(false))
    } else if is_const(gates, a, true) {
        (gates, b)
    } else if is_const(gates, b, true) {
        (gates, a)
    } else {
        added(gates, GateView::And(a, b))
    }
}

/// The disjunction of two gates.
pub open spec fn with_or(gates: Seq<GateView>, a: GateId, b: GateId) -> (Seq<GateView>, GateId) {
    if is_const(gates, a, true) || is_const(gates, b, true) {
        added(gates, GateView::Const(true))
    } else if is_const(gates, a, false) {
        (gates, b)
    } else if is_const(gates, b, false) {
        (gates, a)
    } else {
        added(gates, GateView::Or(a, b))
    }
}

/// The exclusive disjunction of two gates.
pub open spec fn with_xor(gates: Seq<GateView>, a: GateId, b: GateId) -> (Seq<GateView>, GateId) {
    if is_const(gates, a, false) {
        (gates, b)
    } else if is_const(gates, b, false) {
        (gates, a)
    } else if is_const(gates, a, true) {
        with_not(gates, b)
    } else if is_const(gates, b, true) {
        with_not(gates, a)
    } else {
        added(gates, GateView::Xor(a, b))
    }
}

/// The gates that are not the constant false.
pub open spec fn not_false(gates: Seq<GateView>, c: Seq<GateId>) -> Seq<GateId> {
    c.filter(|id: GateId| !is_const(gates, id, false))
}

/// Some gate is the constant true.
pub open spec fn some_true(gates: Seq<GateView>, c: Seq<GateId>) -> bool {
    exists|k: int| 0 <= k < c.len() && is_const(gates, #[trigger] c[k], true)
}

/// The disjunction of several gates.
pub open spec fn with_or_n(gates: Seq<GateView>, c: Seq<GateId>) -> (Seq<GateView>, GateId) {
    let rest = not_false(gates, c);
    if some_true(gates, c) {
        added(gates, GateView::Const(true))
    } else if rest.len() == 0 {
        added(gates, GateView::Const(false))
    } else if rest.len() == 1 {
        (gates, rest[0])
    } else {
        added(gates, GateView::OrN(rest))
    }
}

/// The choice between two gates.
pub open spec fn with_mux(gates: Seq<GateView>, sel: GateId, a: GateId, b: GateId) -> (
    Seq<GateView>,
    GateId,
) {
    let (g1, sel_a) = with_and(gates, sel, a);
    let (g2, nsel) = with_not(g1, sel);
    let (g3, nsel_b) = with_and(g2, nsel, b);
    with_or(g3, sel_a, nsel_b)
}

/// A gate has a function's value under every assignment of the inputs, and
/// everything built before has kept its value.
pub open spec fn denotes(
    before: Seq<GateView>,
    after: Seq<GateView>,
    id: GateId,
    f: spec_fn(Seq<bool>) -> bool,
) -> bool {
    &&& before.is_prefix_of(after)
    &&& ordered(after)
    &&& id.0 < after.len()
    &&& forall|inputs: Seq<bool>| #[trigger] gate_value(after, inputs, id) == f(inputs)
}

/// The value of a constant gate.
proof fn const_value(gates: Seq<GateView>, id: GateId, v: bool, inputs: Seq<bool>)
    requires
        id.0 < gates.len(),
        is_const(gates, id, v),
    ensures
        gate_value(gates, inputs, id) == v,
{
    value_at(gates, inputs, id);
}

/// The value of a gate is what it computes from the gates before it.
pub proof fn value_at(gates: Seq<GateView>, inputs: Seq<bool>, id: GateId)
    requires
        id.0 < gates.len(),
    ensures
        gate_value(gates, inputs, id) == computes(
            gates[id.0 as int],
            values(gates, inputs, id.0 as int),
            inputs,
        ),
{
    let i = id.0 as int;
    values_extend(gates, gates, inputs, i + 1, gates.len() as int);
    values_len(gates, inputs, i);
    values_len(gates, inputs, i + 1);
    assert(values(gates, inputs, gates.len() as int)[i] == values(gates, inputs, i + 1)[i]);
}

/// A gate added at the end computes what it says of the gates before.
proof fn added_denotes(gates: Seq<GateView>, g: GateView, f: spec_fn(Seq<bool>) -> bool)
    requires
        ordered(gates),
        gates.len() <= u32::MAX,
        operands_below(g, gates.len() as int),
        forall|inputs: Seq<bool>| #[trigger]
            computes(g, values(gates, inputs, gates.len() as int), inputs) == f(inputs),
    ensures
        denotes(gates, added(gates, g).0, added(gates, g).1, f),
{
    let more = gates.push(g);
    assert(more.take(gates.len() as int) =~= gates);
    assert forall|i: int| 0 <= i < more.len() implies operands_below(#[trigger] more[i], i) by {
        if i < gates.len() {
            assert(more[i] == gates[i]);
        }
    }
    assert forall|inputs: Seq<bool>| #[trigger] gate_value(
        more,
        inputs,
        GateId(gates.len() as u32),
    ) == f(inputs) by {
        newest_value(gates, g, inputs);
    }
}

/// Negation computes the negation.
pub proof fn not_is_not(gates: Seq<GateView>, a: GateId)
    requires
        ordered(gates),
        gates.len() <= u32::MAX,
        a.0 < gates.len(),
    ensures
        denotes(
            gates,
            with_not(gates, a).0,
            with_not(gates, a).1,
            |inputs: Seq<bool>| !gate_value(gates, inputs, a),
        ),
{
    let f = |inputs: Seq<bool>| !gate_value(gates, inputs, a);
    match gates[a.0 as int] {
        GateView::Const(v) => {
            let g = GateView::Const(!v);
            assert forall|inputs: Seq<bool>| #[trigger] computes(
                g,
                values(gates, inputs, gates.len() as int),
                inputs,
            ) == f(inputs) by {
                const_value(gates, a, v, inputs);
            }
            added_denotes(gates, g, f);
        },
        _ => {
            added_denotes(gates, GateView::Not(a), f);
        },
    }
}

/// Conjunction computes the conjunction, folded or not.
pub proof fn and_is_and(gates: Seq<GateView>, a: GateId, b: GateId)
    requires
        ordered(gates),
        gates.len() <= u32::MAX,
        a.0 < gates.len(),
        b.0 < gates.len(),
    ensures
        denotes(
            gates,
            with_and(gates, a, b).0,
            with_and(gates, a, b).1,
            |inputs: Seq<bool>| gate_value(gates, inputs, a) && gate_value(gates, inputs, b),
        ),
{
    let f = |inputs: Seq<bool>| gate_value(gates, inputs, a) && gate_value(gates, inputs, b);
    fold_values(gates, a);
    fold_values(gates, b);
    if is_const(gates, a, false) || is_const(gates, b, false) {
        added_denotes(gates, GateView::Const(false), f);
    } else if is_const(gates, a, true) || is_const(gates, b, true) {
    } else {
        added_denotes(gates, GateView::And(a, b), f);
    }
}

/// Disjunction computes the disjunction, folded or not.
pub proof fn or_is_or(gates: Seq<GateView>, a: GateId, b: GateId)
    requires
        ordered(gates),
        gates.len() <= u32::MAX,
        a.0 < gates.len(),
        b.0 < gates.len(),
    ensures
        denotes(
            gates,
            with_or(gates, a, b).0,
            with_or(gates, a, b).1,
            |inputs: Seq<bool>| gate_value(gates, inputs, a) || gate_value(gates, inputs, b),
        ),
{
    let f = |inputs: Seq<bool>| gate_value(gates, inputs, a) || gate_value(gates, inputs, b);
    fold_values(gates, a);
    fold_values(gates, b);
    if is_const(gates, a, true) || is_const(gates, b, true) {
        added_denotes(gates, GateView::Const(true), f);
    } else if is_const(gates, a, false) || is_const(gates, b, false) {
    } else {
        added_denotes(gates, GateView::Or(a, b), f);
    }
}

/// Exclusive disjunction computes inequality, folded or not.
pub proof fn xor_is_xor(gates: Seq<GateView>, a: GateId, b: GateId)
    requires
        ordered(gates),
        gates.len() <= u32::MAX,
        a.0 < gates.len(),
        b.0 < gates.len(),
    ensures
        denotes(
            gates,
            with_xor(gates, a, b).0,
            with_xor(gates, a, b).1,
            |inputs: Seq<bool>| gate_value(gates, inputs, a) != gate_value(gates, inputs, b),
        ),
{
    let f = |inputs: Seq<bool>| gate_value(gates, inputs, a) != gate_value(gates, inputs, b);
    fold_values(gates, a);
    fold_values(gates, b);
    not_is_not(gates, a);
    not_is_not(gates, b);
    if is_const(gates, a, false) || is_const(gates, b, false) {
    } else if is_const(gates, a, true) {
        let (g, id) = with_not(gates, b);
        let nb = |inputs: Seq<bool>| !gate_value(gates, inputs, b);
        assert(denotes(gates, g, id, nb));
        assert forall|inputs: Seq<bool>| #[trigger] gate_value(g, inputs, id) == f(inputs) by {
            assert(gate_value(g, inputs, id) == nb(inputs));
            const_value(gates, a, true, inputs);
        }
    } else if is_const(gates, b, true) {
        let (g, id) = with_not(gates, a);
        let na = |inputs: Seq<bool>| !gate_value(gates, inputs, a);
        assert(denotes(gates, g, id, na));
        assert forall|inputs: Seq<bool>| #[trigger] gate_value(g, inputs, id) == f(inputs) by {
            assert(gate_value(g, inputs, id) == na(inputs));
            const_value(gates, b, true, inputs);
        }
    } else {
        added_denotes(gates, GateView::Xor(a, b), f);
    }
}

/// A constant gate has its value under every assignment.
proof fn fold_values(gates: Seq<GateView>, a: GateId)
    requires
        a.0 < gates.len(),
    ensures
        is_const(gates, a, true) ==> forall|inputs: Seq<bool>| #[trigger]
            gate_value(gates, inputs, a),
        is_const(gates, a, false) ==> forall|inputs: Seq<bool>|
            !#[trigger] gate_value(gates, inputs, a),
{
    assert forall|inputs: Seq<bool>| is_const(gates, a, true) implies #[trigger] gate_value(
        gates,
        inputs,
        a,
    ) by {
        const_value(gates, a, true, inputs);
    }
    assert forall|inputs: Seq<bool>| is_const(gates, a, false) implies !#[trigger] gate_value(
        gates,
        inputs,
        a,
    ) by {
        const_value(gates, a, false, inputs);
    }
}

/// Some of several gates is true.
pub open spec fn any_value(gates: Seq<GateView>, inputs: Seq<bool>, c: Seq<GateId>) -> bool {
    exists|k: int| 0 <= k < c.len() && gate_value(gates, inputs, #[trigger] c[k])
}

/// Leaving out constants that are false does not change a disjunction.
proof fn not_false_keeps_any(gates: Seq<GateView>, inputs: Seq<bool>, c: Seq<GateId>)
    requires
        forall|k: int| 0 <= k < c.len() ==> (#[trigger] c[k]).0 < gates.len(),
    ensures
        any_value(gates, inputs, not_false(gates, c)) == any_value(gates, inputs, c),
        forall|k: int|
            0 <= k < not_false(gates, c).len() ==> (#[trigger] not_false(gates, c)[k]).0
                < gates.len(),
{
    let p = |id: GateId| !is_const(gates, id, false);
    let rest = not_false(gates, c);
    assert forall|k: int| 0 <= k < rest.len() implies c.contains(#[trigger] rest[k]) by {
        assert(c.filter(p).contains(rest[k]));
        c.lemma_filter_contains_rev(p, rest[k]);
    }
    assert forall|k: int| 0 <= k < rest.len() implies (#[trigger] rest[k]).0 < gates.len() by {
        assert(c.contains(rest[k]));
        let j = choose|j: int| 0 <= j < c.len() && c[j] == rest[k];
        assert(c[j].0 < gates.len());
    }
    if any_value(gates, inputs, rest) {
        let k = choose|k: int| 0 <= k < rest.len() && gate_value(gates, inputs, #[trigger] rest[k]);
        assert(c.contains(rest[k]));
        let j = choose|j: int| 0 <= j < c.len() && c[j] == rest[k];
        assert(gate_value(gates, inputs, c[j]));
    }
    if any_value(gates, inputs, c) {
        let j = choose|j: int| 0 <= j < c.len() && gate_value(gates, inputs, #[trigger] c[j]);
        if is_const(gates, c[j], false) {
            const_value(gates, c[j], false, inputs);
        }
        assert(p(c[j]));
        c.lemma_filter_contains(p, j);
        assert(rest.contains(c[j]));
        let k = choose|k: int| 0 <= k < rest.len() && rest[k] == c[j];
        assert(gate_value(gates, inputs, rest[k]));
    }
}

/// Variadic disjunction computes whether some operand is true, folded or not.
pub proof fn or_n_is_any(gates: Seq<GateView>, c: Seq<GateId>)
    requires
        ordered(gates),
        gates.len() <= u32::MAX,
        forall|k: int| 0 <= k < c.len() ==> (#[trigger] c[k]).0 < gates.len(),
    ensures
        denotes(
            gates,
            with_or_n(gates, c).0,
            with_or_n(gates, c).1,
            |inputs: Seq<bool>| any_value(gates, inputs, c),
        ),
{
    let f = |inputs: Seq<bool>| any_value(gates, inputs, c);
    let rest = not_false(gates, c);
    let n = gates.len() as int;
    let t = GateView::Const(true);
    let z = GateView::Const(false);
    let o = GateView::OrN(rest);
    not_false_keeps_any(gates, Seq::empty(), c);
    if some_true(gates, c) {
        let k = choose|k: int| 0 <= k < c.len() && is_const(gates, #[trigger] c[k], true);
        assert forall|inputs: Seq<bool>| #[trigger] computes(
            t,
            values(gates, inputs, n),
            inputs,
        ) == f(inputs) by {
            const_value(gates, c[k], true, inputs);
        }
        added_denotes(gates, t, f);
    } else if rest.len() == 0 {
        assert forall|inputs: Seq<bool>| #[trigger] computes(
            z,
            values(gates, inputs, n),
            inputs,
        ) == f(inputs) by {
            not_false_keeps_any(gates, inputs, c);
        }
        added_denotes(gates, z, f);
    } else if rest.len() == 1 {
        assert(rest[0].0 < gates.len());
        assert forall|inputs: Seq<bool>| #[trigger] gate_value(gates, inputs, rest[0]) == f(
            inputs,
        ) by {
            not_false_keeps_any(gates, inputs, c);
            if any_value(gates, inputs, rest) {
                let k = choose|k: int|
                    0 <= k < rest.len() && gate_value(gates, inputs, #[trigger] rest[k]);
                assert(k == 0);
            }
        }
        assert(gates.take(n) =~= gates);
    } else {
        assert forall|inputs: Seq<bool>| #[trigger] computes(
            o,
            values(gates, inputs, n),
            inputs,
        ) == f(inputs) by {
            not_false_keeps_any(gates, inputs, c);
            let vals = values(gates, inputs, n);
            if some_set(rest, vals) {
                let k = choose|k: int|
                    0 <= k < rest.len() && vals[(#[trigger] rest[k]).0 as int];
                assert(gate_value(gates, inputs, rest[k]));
            }
            if any_value(gates, inputs, rest) {
                let k = choose|k: int|
                    0 <= k < rest.len() && gate_value(gates, inputs, #[trigger] rest[k]);
                assert(vals[rest[k].0 as int]);
            }
        }
        added_denotes(gates, o, f);
    }
}

proof fn prefix_chain(a: Seq<GateView>, b: Seq<GateView>, c: Seq<GateView>)
    requires
        a.is_prefix_of(b),
        b.is_prefix_of(c),
    ensures
        a.is_prefix_of(c),
{
    assert(c.take(a.len() as int) =~= a) by {
        assert forall|i: int| 0 <= i < a.len() implies #[trigger] c[i] == a[i] by {
            assert(b.take(a.len() as int)[i] == b[i]);
            assert(c.take(b.len() as int)[i] == c[i]);
        }
    }
}

/// The multiplexer computes the choice, folded or not.
pub proof fn mux_is_choice(gates: Seq<GateView>, sel: GateId, a: GateId, b: GateId)
    requires
        ordered(gates),
        gates.len() + 3 <= u32::MAX,
        sel.0 < gates.len(),
        a.0 < gates.len(),
        b.0 < gates.len(),
    ensures
        denotes(
            gates,
            with_mux(gates, sel, a, b).0,
            with_mux(gates, sel, a, b).1,
            |inputs: Seq<bool>|
                if gate_value(gates, inputs, sel) {
                    gate_value(gates, inputs, a)
                } else {
                    gate_value(gates, inputs, b)
                },
        ),
        with_mux(gates, sel, a, b).0.len() <= gates.len() + 4,
{
    let f = |inputs: Seq<bool>|
        if gate_value(gates, inputs, sel) {
            gate_value(gates, inputs, a)
        } else {
            gate_value(gates, inputs, b)
        };
    let (g1, sel_a) = with_and(gates, sel, a);
    and_is_and(gates, sel, a);
    let f1 = |inputs: Seq<bool>| gate_value(gates, inputs, sel) && gate_value(gates, inputs, a);
    assert(denotes(gates, g1, sel_a, f1));
    let (g2, nsel) = with_not(g1, sel);
    not_is_not(g1, sel);
    let f2 = |inputs: Seq<bool>| !gate_value(g1, inputs, sel);
    assert(denotes(g1, g2, nsel, f2));
    let (g3, nsel_b) = with_and(g2, nsel, b);
    and_is_and(g2, nsel, b);
    let f3 = |inputs: Seq<bool>| gate_value(g2, inputs, nsel) && gate_value(g2, inputs, b);
    assert(denotes(g2, g3, nsel_b, f3));
    let (g4, out) = with_or(g3, sel_a, nsel_b);
    or_is_or(g3, sel_a, nsel_b);
    let f4 = |inputs: Seq<bool>| gate_value(g3, inputs, sel_a) || gate_value(g3, inputs, nsel_b);
    assert(denotes(g3, g4, out, f4));
    prefix_chain(gates, g1, g2);
    prefix_chain(gates, g2, g3);
    prefix_chain(gates, g3, g4);
    prefix_chain(g1, g2, g3);
    assert forall|inputs: Seq<bool>| #[trigger] gate_value(g4, inputs, out) == f(inputs) by {
        assert(gate_value(g4, inputs, out) == f4(inputs));
        assert(gate_value(g3, inputs, nsel_b) == f3(inputs));
        assert(gate_value(g2, inputs, nsel) == f2(inputs));
        assert(gate_value(g1, inputs, sel_a) == f1(inputs));
        growth_keeps_values(gates, g1, inputs, sel);
        growth_keeps_values(gates, g2, inputs, b);
        growth_keeps_values(g1, g3, inputs, sel_a);
    }
}

impl Circuit {
    pub closed spec fn view(&self) -> Seq<GateView> {
        gate_views(self.gates@)
    }

    pub open spec fn well_formed(&self) -> bool {
        ordered(self@)
    }

    pub fn new() -> (c: Self)
        ensures
            c.well_formed(),
            c@.len() == 0,
    {
        Circuit { gates: Vec::new() }
    }

    pub fn len(&self) -> (n: usize)
        ensures
            n == self@.len(),
    {
        self.gates.len()
    }

    pub fn is_empty(&self) -> (b: bool)
        ensures
            b == (self@.len() == 0),
    {
        self.gates.len() == 0
    }

    pub fn get(&self, id: GateId) -> (g: &Gate)
        requires
            id.0 < self@.len(),
        ensures
            g@ == self@[id.0 as int],
    {
        &self.gates[id.0 as usize]
    }

    pub fn gates(&self) -> (g: &[Gate])
        ensures
            gate_views(g@) == self@,
    {
        self.gates.as_slice()
    }

    fn push_gate(&mut self, gate: Gate) -> (id: GateId)
        requires
            old(self).well_formed(),
            old(self)@.len() <= u32::MAX,
            operands_below(gate@, old(self)@.len() as int),
        ensures
            final(self).well_formed(),
            (final(self)@, id) == added(old(self)@, gate@),
    {
        let ghost before = self@;
        let ghost g = gate@;
        let id = GateId(self.gates.len() as u32);
        self.gates.push(gate);
        proof {
            assert(self@ =~= before.push(g));
            assert forall|i: int| 0 <= i < self@.len() implies operands_below(
                #[trigger] self@[i],
                i,
            ) by {
                if i < before.len() {
                    assert(self@[i] == before[i]);
                }
            }
        }
        id
    }

    fn is(&self, id: GateId, v: bool) -> (b: bool)
        requires
            id.0 < self@.len(),
        ensures
            b == is_const(self@, id, v),
    {
        match self.get(id) {
            Gate::Const(x) => *x == v,
            _ => false,
        }
    }

    pub fn const_gate(&mut self, v: bool) -> (id: GateId)
        requires
            old(self).well_formed(),
            old(self)@.len() <= u32::MAX,
        ensures
            final(self).well_formed(),
            (final(self)@, id) == added(old(self)@, GateView::Const(v)),
    {
        self.push_gate(Gate::Const(v))
    }

    pub fn input(&mut self, idx: u32) -> (id: GateId)
        requires
            old(self).well_formed(),
            old(self)@.len() <= u32::MAX,
        ensures
            final(self).well_formed(),
            (final(self)@, id) == added(old(self)@, GateView::Input(idx)),
    {
        self.push_gate(Gate::Input(idx))
    }

    pub fn not(&mut self, a: GateId) -> (id: GateId)
        requires
            old(self).well_formed(),
            old(self)@.len() <= u32::MAX,
            a.0 < old(self)@.len(),
        ensures
            final(self).well_formed(),
            (final(self)@, id) == with_not(old(self)@, a),
    {
        if self.is(a, true) {
            return self.const_gate(false);
        }
        if self.is(a, false) {
            return self.const_gate(true);
        }
        assert(!(self@[a.0 as int] is Const));
        self.push_gate(Gate::Not(a))
    }

    pub fn and(&mut self, a: GateId, b: GateId) -> (id: GateId)
        requires
            old(self).well_formed(),
            old(self)@.len() <= u32::MAX,
            a.0 < old(self)@.len(),
            b.0 < old(self)@.len(),
        ensures
            final(self).well_formed(),
            (final(self)@, id) == with_and(old(self)@, a, b),
    {
        if self.is(a, false) || self.is(b, false) {
            return self.const_gate(false);
        }
        if self.is(a, true) {
            return b;
        }
        if self.is(b, true) {
            return a;
        }
        self.push_gate(Gate::And(a, b))
    }

    pub fn or(&mut self, a: GateId, b: GateId) -> (id: GateId)
        requires
            old(self).well_formed(),
            old(self)@.len() <= u32::MAX,
            a.0 < old(self)@.len(),
            b.0 < old(self)@.len(),
        ensures
            final(self).well_formed(),
            (final(self)@, id) == with_or(old(self)@, a, b),
    {
        if self.is(a, true) || self.is(b, true) {
            return self.const_gate(true);
        }
        if self.is(a, false) {
            return b;
        }
        if self.is(b, false) {
            return a;
        }
        self.push_gate(Gate::Or(a, b))
    }

    pub fn or_n(&mut self, children: Vec<GateId>) -> (id: GateId)
        requires
            old(self).well_formed(),
            old(self)@.len() <= u32::MAX,
            forall|k: int|
                0 <= k < children@.len() ==> (#[trigger] children@[k]).0 < old(self)@.len(),
        ensures
            final(self).well_formed(),
            (final(self)@, id) == with_or_n(old(self)@, children@),
    {
        let ghost gates = self@;
        let ghost c = children@;
        let ghost p = |id: GateId| !is_const(gates, id, false);
        let mut rest: Vec<GateId> = Vec::new();
        let mut i: usize = 0;
        proof {
            reveal(Seq::filter);
            assert(c.take(0).filter(p) =~= Seq::<GateId>::empty());
        }
        while i < children.len()
            invariant
                i <= children@.len(),
                gates == self@,
                self.well_formed(),
                gates == old(self)@,
                gates.len() <= u32::MAX,
                c == children@,
                p == (|id: GateId| !is_const(gates, id, false)),
                forall|k: int| 0 <= k < c.len() ==> (#[trigger] c[k]).0 < gates.len(),
                rest@ == c.take(i as int).filter(p),
                forall|k: int| 0 <= k < i ==> !is_const(gates, #[trigger] c[k], true),
                forall|k: int| 0 <= k < rest@.len() ==> (#[trigger] rest@[k]).0 < gates.len(),
            decreases children@.len() - i,
        {
            let child: GateId = children[i];
            if self.is(child, true) {
                assert(is_const(gates, c[i as int], true));
                return self.const_gate(true);
            }
            proof {
                reveal(Seq::filter);
                assert(c.take(i + 1).drop_last() =~= c.take(i as int));
                assert(c.take(i + 1).last() == child);
            }
            if !self.is(child, false) {
                rest.push(child);
            }
            i += 1;
        }
        assert(c.take(i as int) =~= c);
        assert(!some_true(gates, c));
        if rest.len() == 0 {
            self.const_gate(false)
        } else if rest.len() == 1 {
            rest[0]
        } else {
            self.push_gate(Gate::OrN(rest))
        }
    }

    pub fn xor(&mut self, a: GateId, b: GateId) -> (id: GateId)
        requires
            old(self).well_formed(),
            old(self)@.len() <= u32::MAX,
            a.0 < old(self)@.len(),
            b.0 < old(self)@.len(),
        ensures
            final(self).well_formed(),
            (final(self)@, id) == with_xor(old(self)@, a, b),
    {
        if self.is(a, false) {
            return b;
        }
        if self.is(b, false) {
            return a;
        }
        if self.is(a, true) {
            return self.not(b);
        }
        if self.is(b, true) {
            return self.not(a);
        }
        self.push_gate(Gate::Xor(a, b))
    }

    pub fn mux(&mut self, sel: GateId, a: GateId, b: GateId) -> (id: GateId)
        requires
            old(self).well_formed(),
            old(self)@.len() + 3 <= u32::MAX,
            sel.0 < old(self)@.len(),
            a.0 < old(self)@.len(),
            b.0 < old(self)@.len(),
        ensures
            final(self).well_formed(),
            (final(self)@, id) == with_mux(old(self)@, sel, a, b),
    {
        let sel_a = self.and(sel, a);
        let nsel = self.not(sel);
        let nsel_b = self.and(nsel, b);
        self.or(sel_a, nsel_b)
    }

    /// Evaluate the whole circuit for one input assignment; returns the
    /// value of every gate. `inputs[i]` is the value of input i.
    pub fn evaluate(&self, inputs: &[bool]) -> (vals: Vec<bool>)
        requires
            self.well_formed(),
            inputs_cover(self@, inputs@.len() as int),
        ensures
            vals@ == values(self@, inputs@, self@.len() as int),
            vals@.len() == self@.len(),
    {
        let mut vals: Vec<bool> = Vec::new();
        let mut i: usize = 0;
        while i < self.gates.len()
            invariant
                i <= self.gates@.len(),
                self.well_formed(),
                inputs_cover(self@, inputs@.len() as int),
                vals@.len() == i,
                vals@ == values(self@, inputs@, i as int),
            decreases self.gates@.len() - i,
        {
            let gate: &Gate = &self.gates[i];
            assert(self@[i as int] == gate@);
            assert(operands_below(gate@, i as int));
            let v: bool = match gate {
                Gate::Const(v) => *v,
                Gate::Input(idx) => inputs[*idx as usize],
                Gate::Not(a) => !vals[a.0 as usize],
                Gate::And(a, b) => vals[a.0 as usize] && vals[b.0 as usize],
                Gate::Or(a, b) => vals[a.0 as usize] || vals[b.0 as usize],
                Gate::Xor(a, b) => vals[a.0 as usize] != vals[b.0 as usize],
                Gate::Mux(sel, a, b) => {
                    if vals[sel.0 as usize] {
                        vals[a.0 as usize]
                    } else {
                        vals[b.0 as usize]
                    }
                },
                Gate::OrN(children) => {
                    assert(gate@ == GateView::OrN(children@));
                    any_of(children, &vals)
                },
            };
            vals.push(v);
            i += 1;
        }
        vals
    }
}

impl Default for Circuit {
    fn default() -> (c: Self)
        ensures
            c.well_formed(),
            c@.len() == 0,
    {
        Circuit::new()
    }
}

fn any_of(children: &Vec<GateId>, vals: &Vec<bool>) -> (b: bool)
    requires
        all_below(children@, vals@.len() as int),
    ensures
        b == some_set(children@, vals@),
{
    let mut k: usize = 0;
    while k < children.len()
        invariant
            k <= children@.len(),
            forall|j: int| 0 <= j < children@.len() ==> (#[trigger] children@[j]).0 < vals@.len(),
            forall|j: int| 0 <= j < k ==> !vals@[(#[trigger] children@[j]).0 as int],
        decreases children@.len() - k,
    {
        if vals[children[k].0 as usize] {
            assert(vals@[children@[k as int].0 as int]);
            return true;
        }
        k += 1;
    }
    false
}

} // verus!
