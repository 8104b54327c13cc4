//! Satisfying assignment returned by the solver when the result is SAT.

use vstd::prelude::*;

#[allow(unused_imports)]
use crate::api::emit;
use crate::api::emit::{push_bool, push_bv, push_int};
use crate::text;

verus! {

/// A variable assignment from a satisfying run.
#[derive(Clone, Copy, Debug, PartialEq, Eq, Structural)]
pub enum Value {
    Bool(bool),
    Int(i64),
    /// Bit-vector value with its declared width in bits.
    BitVec { bits: u64, width: u32 },
}

// ---------------------------------------------------------------------------
// Digits of other radices
// ---------------------------------------------------------------------------

/// The value of a character as a digit, up to hexadecimal; sixteen for others.
pub open spec fn hex_digit(c: char) -> nat {
    let x = c as int;
    if '0' as int <= x <= '9' as int {
        (x - '0' as int) as nat
    } else if 'a' as int <= x <= 'f' as int {
        (x - 'a' as int + 10) as nat
    } else if 'A' as int <= x <= 'F' as int {
        (x - 'A' as int + 10) as nat
    } else {
        16
    }
}

/// Every character is a digit of the radix.
pub open spec fn all_in(s: text::Text, radix: nat) -> bool {
    forall|i: int| 0 <= i < s.len() ==> hex_digit(#[trigger] s[i]) < radix
}

/// The number that a run of digits denotes.
pub open spec fn radix_value(s: text::Text, radix: nat) -> nat
    decreases s.len(),
{
    if s.len() == 0 {
        0
    } else {
        radix_value(s.drop_last(), radix) * radix + hex_digit(s.last())
    }
}

/// The 64-bit number that a text denotes in a radix, with an optional plus
/// sign.
pub open spec fn parsed_radix(s: text::Text, radix: nat) -> Option<nat> {
    let t = text::without_plus(s);
    if t.len() > 0 && all_in(t, radix) && radix_value(t, radix) <= u64::MAX {
        Some(radix_value(t, radix))
    } else {
        None
    }
}

proof fn radix_value_grows(s: text::Text, radix: nat, n: int)
    requires
        0 <= n <= s.len(),
        radix > 0,
    ensures
        radix_value(s.take(n), radix) <= radix_value(s, radix),
    decreases s.len() - n,
{
    if n < s.len() {
        radix_value_grows(s, radix, n + 1);
        let next = s.take(n + 1);
        assert(next.drop_last() =~= s.take(n));
        let v = radix_value(s.take(n), radix);
        assert(v <= v * radix) by (nonlinear_arith)
            requires
                radix >= 1,
                v >= 0,
        ;
    } else {
        assert(s.take(n) =~= s);
    }
}

fn digit_of(c: char) -> (d: u64)
    ensures
        d == hex_digit(c),
{
    if c >= '0' && c <= '9' {
        (c as u32 - '0' as u32) as u64
    } else if c >= 'a' && c <= 'f' {
        (c as u32 - 'a' as u32) as u64 + 10
    } else if c >= 'A' && c <= 'F' {
        (c as u32 - 'A' as u32) as u64 + 10
    } else {
        16
    }
}

fn read_radix(s: &[char], radix: u64) -> (r: Option<u64>)
    requires
        2 <= radix <= 16,
    ensures
        match parsed_radix(s@, radix as nat) {
            Some(v) => r == Some(v as u64),
            None => r is None,
        },
{
    let start: usize = if s.len() > 0 && s[0] == '+' {
        1
    } else {
        0
    };
    let ghost t = text::without_plus(s@);
    assert(t =~= s@.skip(start as int));
    if start == s.len() {
        return None;
    }
    let mut value: u64 = 0;
    let mut i: usize = start;
    while i < s.len()
        invariant
            2 <= radix <= 16,
            start <= i <= s@.len(),
            t == s@.skip(start as int),
            t == text::without_plus(s@),
            value == radix_value(t.take(i - start), radix as nat),
            forall|j: int| 0 <= j < i - start ==> hex_digit(#[trigger] t[j]) < radix,
        decreases s@.len() - i,
    {
        let d: u64 = digit_of(s[i]);
        assert(t[i - start] == s@[i as int]);
        if d >= radix {
            return None;
        }
        let ghost next = t.take(i + 1 - start);
        assert(next.drop_last() =~= t.take(i - start));
        assert(value * radix <= 0xFFFF_FFFF_FFFF_FFFF * 16) by (nonlinear_arith)
            requires
                0 <= value <= 0xFFFF_FFFF_FFFF_FFFF,
                0 <= radix <= 16,
        ;
        let grown: u128 = value as u128 * radix as u128 + d as u128;
        if grown > 0xFFFF_FFFF_FFFF_FFFF {
            proof {
                radix_value_grows(t, radix as nat, i + 1 - start);
            }
            return None;
        }
        value = grown as u64;
        i += 1;
    }
    assert(t.take(i - start) =~= t);
    Some(value)
}

// ---------------------------------------------------------------------------
// Values
// ---------------------------------------------------------------------------

/// The value in the form `(_ bv<n> <w>)`, given what follows `(_ bv`.
pub open spec fn indexed_value(rest: text::Text) -> Option<Value> {
    if rest.len() > 0 && rest.last() == ')' && text::words(rest.drop_last()).len() >= 2 {
        let w = text::words(rest.drop_last());
        match (
            text::parsed_unsigned(w[0], u64::MAX as nat),
            text::parsed_unsigned(w[1], u32::MAX as nat),
        ) {
            (Some(bits), Some(width)) => Some(
                Value::BitVec { bits: bits as u64, width: width as u32 },
            ),
            _ => None,
        }
    } else {
        None
    }
}

/// The value of digits, each standing for so many bits.
pub open spec fn literal_value(rest: text::Text, radix: nat, each: nat) -> Option<Value> {
    match parsed_radix(rest, radix) {
        Some(bits) => Some(Value::BitVec { bits: bits as u64, width: (rest.len() * each) as u32 }),
        None => None,
    }
}

/// What stands between `(- ` and `)`, if the text has that form.
pub open spec fn negated(s: text::Text) -> Option<text::Text> {
    if "(- "@.is_prefix_of(s) && s.len() > 3 && s.last() == ')' {
        Some(text::trimmed(s.subrange(3, s.len() - 1)))
    } else {
        None
    }
}

/// The value that a trimmed text of the model denotes.
pub open spec fn plain_value(s: text::Text) -> Option<Value> {
    if s == "true"@ {
        Some(Value::Bool(true))
    } else if s == "false"@ {
        Some(Value::Bool(false))
    } else if "(_ bv"@.is_prefix_of(s) {
        indexed_value(s.skip(5))
    } else if "#b"@.is_prefix_of(s) {
        literal_value(s.skip(2), 2, 1)
    } else if "#x"@.is_prefix_of(s) {
        literal_value(s.skip(2), 16, 4)
    } else {
        match negated(s) {
            Some(inner) => match text::parsed_i64(inner) {
                Some(n) => Some(Value::Int((-n) as i64)),
                None => None,
            },
            None => match text::parsed_i64(s) {
                Some(n) => Some(Value::Int(n as i64)),
                None => None,
            },
        }
    }
}

/// The value that a text of the model denotes, if any.
pub open spec fn value_of(raw: text::Text) -> Option<Value> {
    plain_value(text::trimmed(raw))
}

/// The width of the value and the negated number can be represented.
pub open spec fn fits(raw: text::Text) -> bool {
    let s = text::trimmed(raw);
    &&& "#b"@.is_prefix_of(s) ==> s.len() - 2 <= u32::MAX
    &&& "#x"@.is_prefix_of(s) ==> (s.len() - 2) * 4 <= u32::MAX
    &&& match negated(s) {
        Some(inner) => text::parsed_i64(inner) != Some(i64::MIN as int),
        None => true,
    }
}

fn inside(s: &[char], from: usize, to: usize) -> (r: &[char])
    requires
        from <= to <= s@.len(),
    ensures
        r@ == s@.subrange(from as int, to as int),
{
    vstd::slice::slice_subrange(s, from, to)
}

fn read_negated(s: &[char]) -> (r: Option<&[char]>)
    ensures
        match negated(s@) {
            Some(inner) => r is Some && r->0@ == inner,
            None => r is None,
        },
{
    proof {
        reveal_strlit("(- ");
    }
    if text::starts_with(s, "(- ") && s.len() > 3 && s[s.len() - 1] == ')' {
        Some(text::trim(inside(s, 3, s.len() - 1)))
    } else {
        None
    }
}

/// Whether the value of a text can be represented.
pub fn readable(raw: &str) -> (r: bool)
    ensures
        r == fits(raw@),
{
    let chars: Vec<char> = text::to_chars(raw);
    let s: &[char] = text::trim(chars.as_slice());
    proof {
        reveal_strlit("#b");
        reveal_strlit("#x");
    }
    if text::starts_with(s, "#b") && s.len() - 2 > 0xFFFF_FFFF {
        return false;
    }
    if text::starts_with(s, "#x") && s.len() - 2 > 0x3FFF_FFFF {
        return false;
    }
    match read_negated(s) {
        Some(inner) => match text::parse_i64(inner) {
            Some(n) => n != i64::MIN,
            None => true,
        },
        None => true,
    }
}

fn read_indexed(rest: &[char]) -> (r: Option<Value>)
    ensures
        r == indexed_value(rest@),
{
    if rest.len() == 0 || rest[rest.len() - 1] != ')' {
        return None;
    }
    let body: &[char] = inside(rest, 0, rest.len() - 1);
    assert(body@ =~= rest@.drop_last());
    let parts: Vec<Vec<char>> = text::split_words(body);
    let ghost w = text::texts(parts@);
    if parts.len() < 2 {
        return None;
    }
    assert(w[0] == parts@[0]@ && w[1] == parts@[1]@);
    match (text::parse_u64(parts[0].as_slice()), text::parse_u32(parts[1].as_slice())) {
        (Some(bits), Some(width)) => Some(Value::BitVec { bits, width }),
        _ => None,
    }
}

/// Parse a raw SMT-LIB model value string into a typed [`Value`].
pub fn parse_value(raw: &str) -> (r: Option<Value>)
    requires
        fits(raw@),
    ensures
        r == value_of(raw@),
{
    let chars: Vec<char> = text::to_chars(raw);
    let s: &[char] = text::trim(chars.as_slice());
    proof {
        reveal_strlit("(_ bv");
        reveal_strlit("#b");
        reveal_strlit("#x");
    }
    if text::is_text(s, "true") {
        return Some(Value::Bool(true));
    }
    if text::is_text(s, "false") {
        return Some(Value::Bool(false));
    }
    if text::starts_with(s, "(_ bv") {
        let rest: &[char] = inside(s, 5, s.len());
        assert(rest@ =~= s@.skip(5));
        return read_indexed(rest);
    }
    if text::starts_with(s, "#b") {
        let rest: &[char] = inside(s, 2, s.len());
        assert(rest@ =~= s@.skip(2));
        return match read_radix(rest, 2) {
            Some(bits) => Some(Value::BitVec { bits, width: rest.len() as u32 }),
            None => None,
        };
    }
    if text::starts_with(s, "#x") {
        let rest: &[char] = inside(s, 2, s.len());
        assert(rest@ =~= s@.skip(2));
        return match read_radix(rest, 16) {
            Some(bits) => Some(Value::BitVec { bits, width: rest.len() as u32 * 4 }),
            None => None,
        };
    }
    if let Some(inner) = read_negated(s) {
        return match text::parse_i64(inner) {
            Some(n) => Some(Value::Int(-n)),
            None => None,
        };
    }
    match text::parse_i64(s) {
        Some(n) => Some(Value::Int(n)),
        None => None,
    }
}

/// A value as SMT-LIB writes it.
pub open spec fn value_text(v: Value) -> text::Text {
    match v {
        Value::Bool(b) => emit::bool_text(b),
        Value::Int(n) => emit::int_text(n as int),
        Value::BitVec { bits, width } => emit::bv_text(bits as nat, width as nat),
    }
}

/// A value in SMT-LIB 2 notation (`"true"`, `"42"`, `"(_ bv5 8)"`).
pub fn value_to_smtlib(value: &Value) -> (s: String)
    ensures
        s@ == value_text(*value),
{
    let mut out = String::new();
    match value {
        Value::Bool(b) => {
            push_bool(&mut out, *b);
        },
        Value::Int(n) => {
            push_int(&mut out, *n);
        },
        Value::BitVec { bits, width } => {
            push_bv(&mut out, *bits, *width);
        },
    }
    assert(out@ =~= value_text(*value));
    out
}

proof fn trimmed_is(s: text::Text)
    requires
        s.len() > 0,
        !text::is_space(s[0]),
        !text::is_space(s.last()),
    ensures
        text::trimmed(s) == s,
{
}

spec fn ten_to(k: nat) -> nat
    decreases k,
{
    if k == 0 {
        1
    } else {
        10 * ten_to((k - 1) as nat)
    }
}

proof fn decimal_len(n: nat, k: nat)
    requires
        k > 0,
        n < ten_to(k),
    ensures
        text::decimal(n).len() <= k,
    decreases k,
{
    if n >= 10 {
        if k == 1 {
            assert(ten_to(1) == 10) by {
                reveal_with_fuel(ten_to, 2);
            }
        }
        decimal_len(n / 10, (k - 1) as nat);
    }
}

/// The digits of a 64-bit number: few, and none of them white space.
proof fn decimal_plain(n: u64)
    ensures
        0 < text::decimal(n as nat).len() <= 20,
        forall|i: int|
            0 <= i < text::decimal(n as nat).len() ==> text::is_digit(
                #[trigger] text::decimal(n as nat)[i],
            ) && !text::is_space(text::decimal(n as nat)[i]),
        text::parsed_nat(text::decimal(n as nat)) == Some(n as nat),
{
    text::decimal_round_trip(n as nat);
    assert(ten_to(20) == 100_000_000_000_000_000_000) by {
        reveal_with_fuel(ten_to, 21);
    }
    decimal_len(n as nat, 20);
    let d = text::decimal(n as nat);
    assert forall|i: int| 0 <= i < d.len() implies text::is_digit(#[trigger] d[i])
        && !text::is_space(d[i]) by {
        assert(text::all_digits(d));
    }
}

proof fn two_words(a: text::Text, b: text::Text)
    requires
        a.len() > 0,
        b.len() > 0,
        forall|i: int| 0 <= i < a.len() ==> !text::is_space(#[trigger] a[i]),
        forall|i: int| 0 <= i < b.len() ==> !text::is_space(#[trigger] b[i]),
    ensures
        text::words(a + seq![' '] + b) == seq![a, b],
{
    let s = a + seq![' '] + b;
    let t = seq![' '] + b;
    assert(s[0] == a[0]);
    assert(text::trim_start(s) == s);
    assert forall|j: int| 0 <= j < a.len() implies !text::is_space(#[trigger] s[j]) by {
        assert(s[j] == a[j]);
    }
    assert(s[a.len() as int] == ' ');
    text::word_len_is(s, a.len() as int);
    assert(s.take(a.len() as int) =~= a);
    assert(s.skip(a.len() as int) =~= t);
    assert(t[0] == ' ');
    assert(t.drop_first() =~= b);
    assert(text::trim_start(b) == b);
    assert(text::trim_start(t) == b);
    text::word_len_is(b, b.len() as int);
    assert(b.take(b.len() as int) =~= b);
    assert(b.skip(b.len() as int) =~= seq![]);
    assert(text::words(seq![]) =~= seq![]);
    assert(text::words(t) =~= seq![b]);
    assert(text::words(s) =~= seq![a, b]);
}

/// A value reads back from its text. (The text of the least integer does not
/// read back: its digits exceed the greatest one.)
pub proof fn value_round_trip(v: Value)
    requires
        v != Value::Int(i64::MIN),
    ensures
        fits(value_text(v)),
        value_of(value_text(v)) == Some(v),
{
    let s = value_text(v);
    reveal_strlit("true");
    reveal_strlit("false");
    reveal_strlit("(_ bv");
    reveal_strlit("#b");
    reveal_strlit("#x");
    reveal_strlit("(- ");
    reveal_strlit(")");
    reveal_strlit(" ");
    match v {
        Value::Bool(b) => {
            trimmed_is(s);
            if b {
                assert(s[0] == 't');
            } else {
                assert(s[0] == 'f');
                assert(s.len() != "true"@.len());
            }
            assert(negated(s) is None);
        },
        Value::Int(n) => {
            if n >= 0 {
                decimal_plain(n as u64);
                assert(text::is_digit(s[0]));
                assert(text::is_digit(s[s.len() - 1]));
                trimmed_is(s);
                assert("true"@[0] == 't' && "false"@[0] == 'f');
                assert("(_ bv"@[0] == '(' && "#b"@[0] == '#' && "#x"@[0] == '#' && "(- "@[0]
                    == '(');
                assert(negated(s) is None);
                assert(text::without_plus(s) == s);
            } else {
                let m = (-(n as int)) as u64;
                let d = text::decimal(m as nat);
                decimal_plain(m);
                assert(s =~= "(- "@ + d + ")"@);
                assert(s[0] == '(' && s[1] == '-' && s.last() == ')');
                trimmed_is(s);
                assert("true"@[0] == 't' && "false"@[0] == 'f');
                assert("(_ bv"@[1] == '_' && "#b"@[0] == '#' && "#x"@[0] == '#');
                assert("(- "@.is_prefix_of(s)) by {
                    assert(s.take(3) =~= "(- "@);
                }
                assert(s.subrange(3, s.len() - 1) =~= d);
                trimmed_is(d);
                assert(text::is_digit(d[0]));
                assert(text::without_plus(d) == d);
                assert(negated(s) == Some(d));
            }
        },
        Value::BitVec { bits, width } => {
            let a = text::decimal(bits as nat);
            let b = text::decimal(width as nat);
            decimal_plain(bits);
            decimal_plain(width as u64);
            assert(s =~= "(_ bv"@ + a + seq![' '] + b + seq![')']);
            assert(s[0] == '(' && s[1] == '_' && s.last() == ')');
            trimmed_is(s);
            assert("true"@[0] == 't' && "false"@[0] == 'f');
            assert("(_ bv"@.is_prefix_of(s)) by {
                assert(s.take(5) =~= "(_ bv"@);
            }
            let rest = s.skip(5);
            assert(rest =~= a + seq![' '] + b + seq![')']);
            assert(rest.drop_last() =~= a + seq![' '] + b);
            two_words(a, b);
            assert(text::is_digit(a[0]) && text::is_digit(b[0]));
            assert(text::without_plus(a) == a && text::without_plus(b) == b);
            assert("(- "@[1] == '-');
            assert(negated(s) is None);
        },
    }
}

// ---------------------------------------------------------------------------
// Models
// ---------------------------------------------------------------------------

/// A satisfying model: maps each declared constant name to its assigned value.
#[derive(Debug, Default, Clone)]
pub struct Model {
    values: Vec<(String, Value)>,
}

pub open spec fn entry_views(v: Seq<(String, Value)>) -> Seq<(text::Text, Value)> {
    v.map_values(|e: (String, Value)| (e.0@, e.1))
}

/// The value of a name.
pub open spec fn at(entries: Seq<(text::Text, Value)>, name: text::Text) -> Option<Value>
    decreases entries.len(),
{
    if entries.len() == 0 {
        None
    } else if entries[0].0 == name {
        Some(entries[0].1)
    } else {
        at(entries.skip(1), name)
    }
}

/// A name is given a value, in the place of the one that it had.
pub open spec fn put(
    entries: Seq<(text::Text, Value)>,
    name: text::Text,
    v: Value,
) -> Seq<(text::Text, Value)>
    decreases entries.len(),
{
    if entries.len() == 0 {
        seq![(name, v)]
    } else if entries[0].0 == name {
        seq![(name, v)] + entries.skip(1)
    } else {
        seq![entries[0]] + put(entries.skip(1), name, v)
    }
}

/// The model of pairs of a name and a text: texts that denote no value are
/// skipped.
pub open spec fn model_of(pairs: Seq<(text::Text, text::Text)>) -> Seq<(text::Text, Value)>
    decreases pairs.len(),
{
    if pairs.len() == 0 {
        seq![]
    } else {
        let before = model_of(pairs.drop_last());
        match value_of(pairs.last().1) {
            Some(v) => put(before, pairs.last().0, v),
            None => before,
        }
    }
}

/// The last value given to a name.
pub open spec fn last_value(pairs: Seq<(text::Text, text::Text)>, name: text::Text) -> Option<
    Value,
>
    decreases pairs.len(),
{
    if pairs.len() == 0 {
        None
    } else if pairs.last().0 == name && value_of(pairs.last().1) is Some {
        value_of(pairs.last().1)
    } else {
        last_value(pairs.drop_last(), name)
    }
}

/// Giving a name a value sets that name and no other.
pub proof fn put_then_at(
    entries: Seq<(text::Text, Value)>,
    name: text::Text,
    v: Value,
    other: text::Text,
)
    ensures
        at(put(entries, name, v), other) == if other == name {
            Some(v)
        } else {
            at(entries, other)
        },
    decreases entries.len(),
{
    let after = put(entries, name, v);
    if entries.len() > 0 && entries[0].0 != name {
        put_then_at(entries.skip(1), name, v, other);
        assert(after.skip(1) =~= put(entries.skip(1), name, v));
    } else if entries.len() > 0 {
        assert(after.skip(1) =~= entries.skip(1));
    } else {
        assert(after.skip(1) =~= entries);
    }
}

/// A model has for each name the last value that the pairs give it.
pub proof fn model_is_last(pairs: Seq<(text::Text, text::Text)>, name: text::Text)
    ensures
        at(model_of(pairs), name) == last_value(pairs, name),
    decreases pairs.len(),
{
    if pairs.len() > 0 {
        model_is_last(pairs.drop_last(), name);
        if let Some(v) = value_of(pairs.last().1) {
            put_then_at(model_of(pairs.drop_last()), pairs.last().0, v, name);
        }
    }
}

pub open spec fn pair_views(v: Seq<(String, String)>) -> Seq<(text::Text, text::Text)> {
    v.map_values(|p: (String, String)| (p.0@, p.1@))
}

/// The name comes at `i` first.
proof fn at_from(entries: Seq<(text::Text, Value)>, name: text::Text, i: int)
    requires
        0 <= i <= entries.len(),
        forall|k: int| 0 <= k < i ==> (#[trigger] entries[k]).0 != name,
        i < entries.len() ==> entries[i].0 == name,
    ensures
        i < entries.len() ==> at(entries, name) == Some(entries[i].1),
        i == entries.len() ==> at(entries, name) is None,
        forall|v: Value|
            #[trigger] put(entries, name, v) == if i < entries.len() {
                entries.update(i, (name, v))
            } else {
                entries.push((name, v))
            },
    decreases entries.len(),
{
    if entries.len() > 0 && i > 0 {
        let rest = entries.skip(1);
        assert forall|k: int| 0 <= k < i - 1 implies (#[trigger] rest[k]).0 != name by {
            assert(rest[k] == entries[k + 1]);
        }
        if i < entries.len() {
            assert(rest[i - 1] == entries[i]);
        }
        at_from(rest, name, i - 1);
        assert(entries[0].0 != name);
    }
    assert forall|v: Value| #[trigger] put(entries, name, v) == if i < entries.len() {
        entries.update(i, (name, v))
    } else {
        entries.push((name, v))
    } by {
        if entries.len() > 0 && i > 0 {
            let rest = entries.skip(1);
            assert(put(rest, name, v) == if i - 1 < rest.len() {
                rest.update(i - 1, (name, v))
            } else {
                rest.push((name, v))
            });
        }
        assert(put(entries, name, v) =~= if i < entries.len() {
            entries.update(i, (name, v))
        } else {
            entries.push((name, v))
        });
    }
}

impl Model {
    /// Names and values.
    pub closed spec fn view(&self) -> Seq<(text::Text, Value)> {
        entry_views(self.values@)
    }

    /// The place of a name, or the number of entries.
    fn find(&self, name: &str) -> (i: usize)
        ensures
            i <= self@.len(),
            forall|k: int| 0 <= k < i ==> (#[trigger] self@[k]).0 != name@,
            i < self@.len() ==> self@[i as int].0 == name@,
    {
        let mut i: usize = 0;
        while i < self.values.len()
            invariant
                i <= self.values@.len(),
                forall|k: int| 0 <= k < i ==> (#[trigger] self@[k]).0 != name@,
            decreases self.values@.len() - i,
        {
            assert(self@[i as int].0 == self.values@[i as int].0@);
            if text::str_eq(self.values[i].0.as_str(), name) {
                return i;
            }
            i += 1;
        }
        i
    }

    pub fn from_raw(pairs: Vec<(String, String)>) -> (m: Self)
        requires
            forall|i: int| 0 <= i < pairs@.len() ==> fits((#[trigger] pairs@[i]).1@),
        ensures
            m@ == model_of(pair_views(pairs@)),
    {
        let ghost pv = pair_views(pairs@);
        let mut m = Model { values: Vec::new() };
        let mut i: usize = 0;
        assert(pv.take(0) =~= seq![]);
        assert(m@ =~= model_of(pv.take(0)));
        while i < pairs.len()
            invariant
                i <= pairs@.len(),
                pv == pair_views(pairs@),
                forall|k: int| 0 <= k < pairs@.len() ==> fits((#[trigger] pairs@[k]).1@),
                m@ == model_of(pv.take(i as int)),
            decreases pairs@.len() - i,
        {
            let ghost before = m@;
            assert(pv.take(i + 1).drop_last() =~= pv.take(i as int));
            assert(pv[i as int] == (pairs@[i as int].0@, pairs@[i as int].1@));
            if let Some(v) = parse_value(pairs[i].1.as_str()) {
                let at: usize = m.find(pairs[i].0.as_str());
                let name = text::copy_str(pairs[i].0.as_str());
                proof {
                    at_from(before, name@, at as int);
                }
                let ghost entry = (name@, v);
                if at < m.values.len() {
                    m.values.set(at, (name, v));
                    assert(m@ =~= before.update(at as int, entry));
                } else {
                    m.values.push((name, v));
                    assert(m@ =~= before.push(entry));
                }
                assert(m@ == put(before, pv[i as int].0, v));
            }
            i += 1;
        }
        assert(pv.take(i as int) =~= pv);
        m
    }

    pub fn get(&self, name: &str) -> (r: Option<&Value>)
        ensures
            match at(self@, name@) {
                Some(v) => r is Some && *r->0 == v,
                None => r is None,
            },
    {
        let i: usize = self.find(name);
        proof {
            at_from(self@, name@, i as int);
        }
        if i < self.values.len() {
            assert(self@[i as int].1 == self.values@[i as int].1);
            Some(&self.values[i].1)
        } else {
            None
        }
    }

    pub fn get_bool(&self, name: &str) -> (r: Option<bool>)
        ensures
            r == (match at(self@, name@) {
                Some(Value::Bool(b)) => Some(b),
                _ => None,
            }),
    {
        match self.get(name) {
            Some(Value::Bool(b)) => Some(*b),
            _ => None,
        }
    }

    pub fn get_int(&self, name: &str) -> (r: Option<i64>)
        ensures
            r == (match at(self@, name@) {
                Some(Value::Int(n)) => Some(n),
                _ => None,
            }),
    {
        match self.get(name) {
            Some(Value::Int(n)) => Some(*n),
            _ => None,
        }
    }

    pub fn get_bitvec(&self, name: &str) -> (r: Option<(u64, u32)>)
        ensures
            r == (match at(self@, name@) {
                Some(Value::BitVec { bits, width }) => Some((bits, width)),
                _ => None,
            }),
    {
        match self.get(name) {
            Some(Value::BitVec { bits, width }) => Some((*bits, *width)),
            _ => None,
        }
    }

    /// Names and values, each name once.
    pub fn iter(&self) -> (v: &[(String, Value)])
        ensures
            entry_views(v@) == self@,
    {
        self.values.as_slice()
    }

    pub fn is_empty(&self) -> (b: bool)
        ensures
            b == (self@.len() == 0),
    {
        self.values.len() == 0
    }
}

} // verus!
