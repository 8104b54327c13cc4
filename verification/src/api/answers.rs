//! What is promised of answers: values that are read as they are written,
//! models that hold what was said last, and results at their places.

use vstd::prelude::*;

#[allow(unused_imports)]
use crate::api::ffi;
#[allow(unused_imports)]
use crate::api::model;
#[allow(unused_imports)]
use crate::api::model::Value;
#[allow(unused_imports)]
use crate::api::pool;
use crate::api::pool::JobResult;
#[allow(unused_imports)]
use crate::api::solver;
#[allow(unused_imports)]
use crate::api::solver::{SmtAnswer, SmtStatus};
use crate::api::solver::SatResult;
#[allow(unused_imports)]
use crate::ir::meaning as vectors;
#[allow(unused_imports)]
use crate::text;
use crate::text::Text;
#[allow(unused_imports)]
use vstd::arithmetic::power2::{
    lemma2_to64, lemma2_to64_rest, lemma_pow2_strictly_increases, lemma_pow2_unfold, pow2,
};

verus! {

// ---------------------------------------------------------------------------
// Vectors
// ---------------------------------------------------------------------------

/// Bits as digits, the highest first. The bits are given the lowest first.
pub open spec fn binary(bits: Seq<bool>) -> Text {
    Seq::new(
        bits.len(),
        |i: int|
            if bits[bits.len() - 1 - i] {
                '1'
            } else {
                '0'
            },
    )
}

proof fn binary_value(bits: Seq<bool>)
    ensures
        model::radix_value(binary(bits), 2) == vectors::number(bits),
        model::all_in(binary(bits), 2),
        vectors::number(bits) < pow2(bits.len()),
    decreases bits.len(),
{
    let t = binary(bits);
    lemma2_to64();
    if bits.len() > 0 {
        let rest = bits.drop_first();
        binary_value(rest);
        assert(t.drop_last() =~= binary(rest));
        assert(t.last() == (if bits[0] {
            '1'
        } else {
            '0'
        }));
        lemma_pow2_unfold(bits.len());
        assert forall|i: int| 0 <= i < t.len() implies model::hex_digit(#[trigger] t[i]) < 2 by {}
    }
}

/// A vector that is written bit by bit is read as the number that its bits
/// denote, with as many bits as digits.
pub proof fn binary_literals(bits: Seq<bool>)
    requires
        0 < bits.len() <= 64,
    ensures
        model::value_of("#b"@ + binary(bits)) == Some(
            Value::BitVec { bits: vectors::number(bits) as u64, width: bits.len() as u32 },
        ),
        vectors::number(bits) <= u64::MAX,
{
    reveal_strlit("#b");
    reveal_strlit("true");
    reveal_strlit("false");
    reveal_strlit("(_ bv");
    let t = binary(bits);
    let s = "#b"@ + t;
    binary_value(bits);
    lemma2_to64();
    lemma2_to64_rest();
    if bits.len() < 64 {
        lemma_pow2_strictly_increases(bits.len(), 64);
    }
    assert(s[0] == '#' && s[1] == 'b');
    assert(s.last() == t.last());
    assert(model::hex_digit(t.last()) < 2);
    assert(text::trimmed(s) == s) by {
        crate::certify::proof_text::trimmed_is(s);
    }
    assert(s.take(2) =~= "#b"@);
    assert("#b"@.is_prefix_of(s));
    assert(s.skip(2) =~= t);
    assert(model::hex_digit(t[0]) < 2);
    assert(text::without_plus(t) == t);
    assert("(_ bv"@[0] == '(');
    assert(!"(_ bv"@.is_prefix_of(s));
    assert("true"@[0] == 't' && "false"@[0] == 'f');
    assert(s != "true"@ && s != "false"@);
}

/// The character of a hexadecimal digit.
pub open spec fn hex_char(d: nat, upper: bool) -> char {
    if d < 10 {
        "0123456789"@[d as int]
    } else if upper {
        "ABCDEF"@[d - 10]
    } else {
        "abcdef"@[d - 10]
    }
}

/// Digits in hexadecimal, the highest first, in either case.
pub open spec fn hexadecimal(digits: Seq<nat>, upper: Seq<bool>) -> Text {
    Seq::new(digits.len(), |i: int| hex_char(digits[i], upper[i]))
}

/// The number that digits denote, the highest first.
pub open spec fn hex_number(digits: Seq<nat>) -> nat
    decreases digits.len(),
{
    if digits.len() == 0 {
        0
    } else {
        16 * hex_number(digits.drop_last()) + digits.last()
    }
}

proof fn hex_char_value(d: nat, upper: bool)
    requires
        d < 16,
    ensures
        model::hex_digit(hex_char(d, upper)) == d,
        !text::is_space(hex_char(d, upper)),
        hex_char(d, upper) != '+',
{
    reveal_strlit("0123456789");
    reveal_strlit("ABCDEF");
    reveal_strlit("abcdef");
}

proof fn hex_value(digits: Seq<nat>, upper: Seq<bool>)
    requires
        upper.len() == digits.len(),
        forall|i: int| 0 <= i < digits.len() ==> #[trigger] digits[i] < 16,
    ensures
        model::radix_value(hexadecimal(digits, upper), 16) == hex_number(digits),
        model::all_in(hexadecimal(digits, upper), 16),
        hex_number(digits) < pow2(4 * digits.len()),
    decreases digits.len(),
{
    let t = hexadecimal(digits, upper);
    lemma2_to64();
    if digits.len() > 0 {
        let n = digits.len();
        let d = digits.drop_last();
        let u = upper.drop_last();
        assert forall|i: int| 0 <= i < d.len() implies #[trigger] d[i] < 16 by {
            assert(d[i] == digits[i]);
        }
        hex_value(d, u);
        assert(t.drop_last() =~= hexadecimal(d, u));
        assert(digits[n - 1] < 16);
        hex_char_value(digits[n - 1], upper[n - 1]);
        lemma_pow2_unfold((4 * n) as nat);
        lemma_pow2_unfold((4 * n - 1) as nat);
        lemma_pow2_unfold((4 * n - 2) as nat);
        lemma_pow2_unfold((4 * n - 3) as nat);
        assert(4 * n - 4 == 4 * d.len());
        assert forall|i: int| 0 <= i < t.len() implies model::hex_digit(#[trigger] t[i]) < 16 by {
            assert(digits[i] < 16);
            hex_char_value(digits[i], upper[i]);
        }
    }
}

/// A vector that is written in hexadecimal is read as the number that its
/// digits denote, with four bits for each.
pub proof fn hexadecimal_literals(digits: Seq<nat>, upper: Seq<bool>)
    requires
        0 < digits.len() <= 16,
        upper.len() == digits.len(),
        forall|i: int| 0 <= i < digits.len() ==> #[trigger] digits[i] < 16,
    ensures
        model::value_of("#x"@ + hexadecimal(digits, upper)) == Some(
            Value::BitVec { bits: hex_number(digits) as u64, width: (4 * digits.len()) as u32 },
        ),
        hex_number(digits) <= u64::MAX,
{
    reveal_strlit("#x");
    reveal_strlit("#b");
    reveal_strlit("true");
    reveal_strlit("false");
    reveal_strlit("(_ bv");
    let t = hexadecimal(digits, upper);
    let s = "#x"@ + t;
    let n = digits.len();
    hex_value(digits, upper);
    lemma2_to64();
    lemma2_to64_rest();
    if n < 16 {
        lemma_pow2_strictly_increases((4 * n) as nat, 64);
    }
    assert(s[0] == '#' && s[1] == 'x');
    assert(digits[n - 1] < 16 && digits[0] < 16);
    hex_char_value(digits[n - 1], upper[n - 1]);
    hex_char_value(digits[0], upper[0]);
    assert(s.last() == t.last());
    assert(text::trimmed(s) == s) by {
        crate::certify::proof_text::trimmed_is(s);
    }
    assert(s.take(2) =~= "#x"@);
    assert("#x"@.is_prefix_of(s));
    assert("#b"@[1] == 'b');
    assert(!"#b"@.is_prefix_of(s));
    assert(s.skip(2) =~= t);
    assert(text::without_plus(t) == t);
    assert("(_ bv"@[0] == '(');
    assert(!"(_ bv"@.is_prefix_of(s));
    assert("true"@[0] == 't' && "false"@[0] == 'f');
    assert(s != "true"@ && s != "false"@);
}

// ---------------------------------------------------------------------------
// Models
// ---------------------------------------------------------------------------

/// What is said last holds: a further pair whose text denotes a value sets its
/// name to the value and no other, and a further pair whose text denotes none
/// changes nothing.
pub proof fn later_pairs_win(pairs: Seq<(Text, Text)>, name: Text, raw: Text, other: Text)
    ensures
        ({
            let before = model::model_of(pairs);
            let after = model::model_of(pairs.push((name, raw)));
            match model::value_of(raw) {
                Some(v) => model::at(after, name) == Some(v) && (other != name ==> model::at(
                    after,
                    other,
                ) == model::at(before, other)),
                None => after == before,
            }
        }),
{
    let all = pairs.push((name, raw));
    assert(all.drop_last() =~= pairs);
    if let Some(v) = model::value_of(raw) {
        model::put_then_at(model::model_of(pairs), name, v, name);
        model::put_then_at(model::model_of(pairs), name, v, other);
    }
}

/// A model that is written out and read back has its values: where the names
/// differ, each has the value whose text stands with it.
pub proof fn models_are_read_back(names: Seq<Text>, values: Seq<Value>, i: int)
    requires
        names.len() == values.len(),
        0 <= i < names.len(),
        forall|k: int| 0 <= k < values.len() ==> #[trigger] values[k] != Value::Int(i64::MIN),
        forall|a: int, b: int|
            0 <= a < b < names.len() ==> #[trigger] names[a] != #[trigger] names[b],
    ensures
        model::at(
            model::model_of(
                Seq::new(names.len(), |k: int| (names[k], model::value_text(values[k]))),
            ),
            names[i],
        ) == Some(values[i]),
    decreases names.len(),
{
    let pairs = Seq::new(names.len(), |k: int| (names[k], model::value_text(values[k])));
    let last = names.len() - 1;
    let n = names.drop_last();
    let v = values.drop_last();
    let rest = Seq::new(n.len(), |k: int| (n[k], model::value_text(v[k])));
    assert(pairs =~= rest.push((names[last], model::value_text(values[last]))));
    assert(values[last] != Value::Int(i64::MIN));
    model::value_round_trip(values[last]);
    later_pairs_win(rest, names[last], model::value_text(values[last]), names[i]);
    if i < last {
        assert forall|a: int, b: int| 0 <= a < b < n.len() implies #[trigger] n[a]
            != #[trigger] n[b] by {
            assert(names[a] != names[b]);
        }
        assert forall|k: int| 0 <= k < v.len() implies #[trigger] v[k] != Value::Int(i64::MIN) by {
            assert(values[k] != Value::Int(i64::MIN));
        }
        models_are_read_back(n, v, i);
        assert(n[i] == names[i] && v[i] == values[i]);
        assert(names[i] != names[last]);
    }
}

// ---------------------------------------------------------------------------
// Results
// ---------------------------------------------------------------------------

/// A further result of a job takes the place of the job's earlier one, and
/// leaves those of other jobs.
pub proof fn later_results_win(finished: Seq<(usize, JobResult)>, at: usize, r: JobResult, i: int)
    ensures
        pool::last_for(finished.push((at, r)), i) == (if i == at {
            Some(r)
        } else {
            pool::last_for(finished, i)
        }),
{
    assert(finished.push((at, r)).drop_last() =~= finished);
}

/// The codes of results: zero for SAT, one for UNSAT, two for the rest.
pub proof fn codes_tell_results(r: SatResult)
    ensures
        r is Sat <==> ffi::code_of(r) == 0,
        r is Unsat <==> ffi::code_of(r) == 1,
        r is Unknown <==> ffi::code_of(r) == 2,
{
}

/// Where every script can be read, each has the code of its own outcome.
pub proof fn readable_batches(outcomes: Seq<JobResult>, i: int)
    requires
        0 <= i < outcomes.len(),
    ensures
        ffi::batch_code(Seq::new(outcomes.len(), |k: int| true), outcomes, i) == ffi::code_of(
            outcomes[i].result,
        ),
{
    all_read(outcomes.len(), i);
}

proof fn all_read(n: nat, i: int)
    requires
        0 <= i <= n,
    ensures
        ffi::read_before(Seq::new(n, |k: int| true), i) == i,
    decreases i,
{
    if i > 0 {
        all_read(n, i - 1);
    }
}

/// A script that cannot be read has the code of an unknown result, and the
/// scripts round it have the codes that they had without it.
pub proof fn unreadable_scripts_count_as_unknown(
    readable: Seq<bool>,
    outcomes: Seq<JobResult>,
    at: int,
    i: int,
)
    requires
        0 <= at <= readable.len(),
        0 <= i <= readable.len(),
    ensures
        ffi::batch_code(readable.insert(at, false), outcomes, i) == (if i < at {
            ffi::batch_code(readable, outcomes, i)
        } else if i == at {
            2
        } else {
            ffi::batch_code(readable, outcomes, i - 1)
        }),
{
    read_without(readable, at, i);
}

proof fn read_without(readable: Seq<bool>, at: int, i: int)
    requires
        0 <= at <= readable.len(),
        0 <= i <= readable.len() + 1,
    ensures
        ffi::read_before(readable.insert(at, false), i) == (if i <= at {
            ffi::read_before(readable, i)
        } else {
            ffi::read_before(readable, i - 1)
        }),
    decreases i,
{
    if i > 0 {
        read_without(readable, at, i - 1);
    }
}

/// Counting the conclusive results: one more for a SAT or UNSAT code.
pub proof fn conclusive_results_are_counted(codes: Seq<i32>, c: i32)
    ensures
        ffi::decided(Seq::<i32>::empty(), 0) == 0,
        0 <= c <= 2 ==> ffi::decided(
            codes.push(c),
            codes.len() as int + 1,
        ) == ffi::decided(
            codes,
            codes.len() as int,
        ) + (if c == 0 || c == 1 {
            1int
        } else {
            0
        }),
{
    same_count(codes, codes.push(c), codes.len() as int);
}

proof fn same_count(a: Seq<i32>, b: Seq<i32>, n: int)
    requires
        n <= a.len(),
        n <= b.len(),
        forall|i: int| 0 <= i < n ==> #[trigger] a[i] == b[i],
    ensures
        ffi::decided(a, n) == ffi::decided(b, n),
    decreases n,
{
    if n > 0 {
        same_count(a, b, n - 1);
    }
}

/// A budget of zero is no limit; any other is the limit itself.
pub proof fn budgets_are_limits(max_conflicts: u64, used: u64)
    ensures
        max_conflicts != 0 ==> solver::budget_of(max_conflicts) == max_conflicts,
        max_conflicts == 0 ==> used <= solver::budget_of(max_conflicts),
{
}

/// What a solver's answer becomes: a model that holds what was said last of
/// each name, a refutation, or neither.
pub proof fn answers_are_kept(a: SmtAnswer, r: SatResult, name: Text)
    requires
        solver::converted(a, r),
    ensures
        a.status == SmtStatus::Sat <==> r is Sat,
        a.status == SmtStatus::Unsat <==> r is Unsat,
        a.status == SmtStatus::Unknown <==> r is Unknown,
        solver::conclusive(r) <==> r is Sat || r is Unsat,
        r matches SatResult::Sat(m) ==> model::at(m@, name) == model::last_value(
            model::pair_views(a.values@),
            name,
        ),
{
    model::model_is_last(model::pair_views(a.values@), name);
}

} // verus!
