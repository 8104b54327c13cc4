//! Look-ahead heuristic for cube-and-conquer splitting.
//!
//! When the main solver exhausts its conflict budget, this module chooses a
//! variable to branch on and returns two SMT-LIB 2 `(assert ...)` strings that
//! together cover the full search space.
//!
//! 1. **Extract declarations** from the parsed script.
//! 2. **Score by occurrence**: variables that participate in many constraints
//!    are the most central to the search.
//! 3. **Probe** each of the top candidates: both branches are run with a small
//!    conflict budget, and the variable with the highest total score wins.
//! 4. **Fallback**: without probing, or if all candidates tie, the most
//!    frequently occurring variable is chosen. If no variable can be found,
//!    there is no split.

use vstd::prelude::*;

use crate::text;
#[allow(unused_imports)]
use crate::text::Text;

verus! {

// ---------------------------------------------------------------------------
// Declarations
// ---------------------------------------------------------------------------

/// A parsed S-expression.
pub enum SExpr {
    Symbol(String),
    Numeral(u64),
    /// Any other atom.
    Other,
    List(Vec<SExpr>),
}

#[derive(Clone, Copy, Debug, PartialEq, Eq, Structural)]
pub enum VarSort {
    Bool,
    BitVec(u32),
    Int,
}

#[derive(Debug)]
pub struct Decl {
    pub name: String,
    pub sort: VarSort,
}

#[verifier::ext_equal]
pub struct DeclView {
    pub name: Text,
    pub sort: VarSort,
}

impl View for Decl {
    type V = DeclView;

    open spec fn view(&self) -> DeclView {
        DeclView { name: self.name@, sort: self.sort }
    }
}

impl Clone for Decl {
    fn clone(&self) -> (d: Self)
        ensures
            d@ == self@,
    {
        Decl { name: text::copy_str(self.name.as_str()), sort: self.sort }
    }
}

/// Whether an expression is a given symbol.
pub open spec fn is_symbol(e: SExpr, s: Text) -> bool {
    e matches SExpr::Symbol(t) && t@ == s
}

/// The name that a symbol gives.
pub open spec fn symbol_of(e: SExpr) -> Option<Text> {
    match e {
        SExpr::Symbol(t) => Some(t@),
        _ => None,
    }
}

/// The sort that an expression stands for.
pub open spec fn sort_meant(e: SExpr) -> Option<VarSort> {
    match e {
        SExpr::Symbol(s) => if s@ == "Bool"@ {
            Some(VarSort::Bool)
        } else if s@ == "Int"@ {
            Some(VarSort::Int)
        } else {
            None
        },
        SExpr::List(items) => if items@.len() == 3 && is_symbol(items@[0], "_"@) && is_symbol(
            items@[1],
            "BitVec"@,
        ) {
            match items@[2] {
                SExpr::Numeral(n) => Some(VarSort::BitVec(n as u32)),
                _ => None,
            }
        } else {
            None
        },
        _ => None,
    }
}

/// A name with a sort, if both are there.
pub open spec fn named(name: SExpr, sort: SExpr) -> Option<DeclView> {
    match (symbol_of(name), sort_meant(sort)) {
        (Some(name), Some(sort)) => Some(DeclView { name, sort }),
        _ => None,
    }
}

/// What a command declares: `(declare-const name sort)` or the nullary
/// `(declare-fun name () sort)`.
pub open spec fn declared(e: SExpr) -> Option<DeclView> {
    match e {
        SExpr::List(items) => if items@.len() == 3 && is_symbol(items@[0], "declare-const"@) {
            named(items@[1], items@[2])
        } else if items@.len() == 4 && is_symbol(items@[0], "declare-fun"@) {
            match items@[2] {
                SExpr::List(args) => if args@.len() == 0 {
                    named(items@[1], items@[3])
                } else {
                    None
                },
                _ => None,
            }
        } else {
            None
        },
        _ => None,
    }
}

/// The declarations of a script, in order.
pub open spec fn all_declared(exprs: Seq<SExpr>) -> Seq<DeclView>
    decreases exprs.len(),
{
    if exprs.len() == 0 {
        Seq::empty()
    } else {
        let before = all_declared(exprs.drop_last());
        match declared(exprs.last()) {
            Some(d) => before.push(d),
            None => before,
        }
    }
}

pub open spec fn decl_views(decls: Seq<Decl>) -> Seq<DeclView> {
    decls.map_values(|d: Decl| d@)
}

fn symbol_is(e: &SExpr, s: &str) -> (b: bool)
    ensures
        b == is_symbol(*e, s@),
{
    match e {
        SExpr::Symbol(t) => text::str_eq(t.as_str(), s),
        _ => false,
    }
}

/// The sort that an expression stands for. A width is taken modulo 2^32.
pub fn sort_of(expr: &SExpr) -> (s: Option<VarSort>)
    ensures
        s == sort_meant(*expr),
{
    match expr {
        SExpr::Symbol(t) => {
            if text::str_eq(t.as_str(), "Bool") {
                Some(VarSort::Bool)
            } else if text::str_eq(t.as_str(), "Int") {
                Some(VarSort::Int)
            } else {
                None
            }
        },
        SExpr::List(items) => {
            if items.len() == 3 && symbol_is(&items[0], "_") && symbol_is(&items[1], "BitVec") {
                match &items[2] {
                    SExpr::Numeral(n) => Some(VarSort::BitVec(*n as u32)),
                    _ => None,
                }
            } else {
                None
            }
        },
        _ => None,
    }
}

fn named_decl(name: &SExpr, sort: &SExpr) -> (d: Option<Decl>)
    ensures
        match d {
            Some(decl) => named(*name, *sort) == Some(decl@),
            None => named(*name, *sort) is None,
        },
{
    match (name, sort_of(sort)) {
        (SExpr::Symbol(n), Some(s)) => Some(Decl { name: text::copy_str(n.as_str()), sort: s }),
        _ => None,
    }
}

fn declaration(e: &SExpr) -> (d: Option<Decl>)
    ensures
        match d {
            Some(decl) => declared(*e) == Some(decl@),
            None => declared(*e) is None,
        },
{
    match e {
        SExpr::List(items) => {
            if items.len() == 3 && symbol_is(&items[0], "declare-const") {
                named_decl(&items[1], &items[2])
            } else if items.len() == 4 && symbol_is(&items[0], "declare-fun") {
                match &items[2] {
                    SExpr::List(args) => {
                        if args.len() == 0 {
                            named_decl(&items[1], &items[3])
                        } else {
                            None
                        }
                    },
                    _ => None,
                }
            } else {
                None
            }
        },
        _ => None,
    }
}

/// Extract all `(declare-const name sort)` and nullary `(declare-fun name () sort)`
/// commands from a parsed script.
pub fn parse_declarations(exprs: &[SExpr]) -> (decls: Vec<Decl>)
    ensures
        decl_views(decls@) == all_declared(exprs@),
{
    let mut decls: Vec<Decl> = Vec::new();
    let mut i: usize = 0;
    assert(decl_views(decls@) =~= Seq::<DeclView>::empty());
    while i < exprs.len()
        invariant
            i <= exprs@.len(),
            decl_views(decls@) == all_declared(exprs@.take(i as int)),
        decreases exprs@.len() - i,
    {
        assert(exprs@.take(i + 1).drop_last() =~= exprs@.take(i as int));
        assert(exprs@.take(i + 1).last() == exprs@[i as int]);
        let ghost before = decl_views(decls@);
        if let Some(d) = declaration(&exprs[i]) {
            let ghost v = d@;
            decls.push(d);
            assert(decl_views(decls@) =~= before.push(v));
        }
        i += 1;
    }
    assert(exprs@.take(i as int) =~= exprs@);
    decls
}

// ---------------------------------------------------------------------------
// Occurrence counting
// ---------------------------------------------------------------------------

/// A character that can be part of an identifier.
pub open spec fn in_identifier(c: char) -> bool {
    let x = c as int;
    ||| 48 <= x <= 57
    ||| 65 <= x <= 90
    ||| 97 <= x <= 122
    ||| c == '_' || c == '-' || c == '.' || c == '!' || c == '@' || c == '$' || c == '%'
    ||| c == '^' || c == '&' || c == '*' || c == '+' || c == '=' || c == '<' || c == '>'
    ||| c == '?' || c == '/'
}

fn is_ident(c: char) -> (b: bool)
    ensures
        b == in_identifier(c),
{
    let x: u32 = c as u32;
    (48 <= x && x <= 57) || (65 <= x && x <= 90) || (97 <= x && x <= 122) || c == '_' || c == '-'
        || c == '.' || c == '!' || c == '@' || c == '$' || c == '%' || c == '^' || c == '&' || c
        == '*' || c == '+' || c == '=' || c == '<' || c == '>' || c == '?' || c == '/'
}

/// A name stands at a position as a complete identifier.
pub open spec fn occurs_at(s: Text, name: Text, i: int) -> bool {
    &&& 0 <= i
    &&& i + name.len() <= s.len()
    &&& s.subrange(i, i + name.len()) == name
    &&& i == 0 || !in_identifier(s[i - 1])
    &&& i + name.len() == s.len() || !in_identifier(s[i + name.len()])
}

/// How many of the positions before `n` a name stands at.
pub open spec fn occurrences(s: Text, name: Text, n: int) -> nat
    decreases n,
{
    if n <= 0 {
        0
    } else {
        occurrences(s, name, n - 1) + (if occurs_at(s, name, n - 1) {
            1nat
        } else {
            0
        })
    }
}

/// How often a name occurs; the empty name does not.
pub open spec fn count_of(s: Text, name: Text) -> nat {
    if name.len() == 0 {
        0
    } else {
        occurrences(s, name, s.len() as int)
    }
}

/// Count the number of times `name` appears as a complete identifier in `text`,
/// so "xy" does not match "xyz".
pub fn count_occurrences(text: &str, name: &str) -> (n: usize)
    ensures
        n == count_of(text@, name@),
{
    let s: Vec<char> = text::to_chars(text);
    let w: Vec<char> = text::to_chars(name);
    count_in(s.as_slice(), w.as_slice())
}

fn count_in(s: &[char], w: &[char]) -> (n: usize)
    ensures
        n == count_of(s@, w@),
{
    if w.len() == 0 {
        return 0;
    }
    let mut count: usize = 0;
    let mut i: usize = 0;
    while i < s.len()
        invariant
            i <= s@.len(),
            w@.len() > 0,
            count == occurrences(s@, w@, i as int),
            count <= i,
        decreases s@.len() - i,
    {
        if s.len() - i >= w.len() {
            let here: &[char] = vstd::slice::slice_subrange(s, i, i + w.len());
            let end: usize = i + w.len();
            if text::chars_eq(here, w) && (i == 0 || !is_ident(s[i - 1])) && (end == s.len()
                || !is_ident(s[end])) {
                assert(occurs_at(s@, w@, i as int));
                count += 1;
            } else {
                assert(!occurs_at(s@, w@, i as int));
            }
        } else {
            assert(!occurs_at(s@, w@, i as int));
        }
        i += 1;
    }
    count
}

// ---------------------------------------------------------------------------
// Split assertions
// ---------------------------------------------------------------------------

/// The two branches of a split.
#[derive(Debug)]
pub struct Split {
    pub pos: String,
    pub neg: String,
}

#[verifier::ext_equal]
pub struct SplitView {
    pub pos: Text,
    pub neg: Text,
}

impl View for Split {
    type V = SplitView;

    open spec fn view(&self) -> SplitView {
        SplitView { pos: self.pos@, neg: self.neg@ }
    }
}

/// The middle of the range of a bit-vector.
pub open spec fn middle(w: u32) -> nat {
    vstd::arithmetic::power2::pow2(
        if w == 0 {
            0
        } else {
            (w - 1) as nat
        },
    )
}

/// The condition that a branch puts on a variable.
pub open spec fn condition(d: DeclView) -> Text {
    match d.sort {
        VarSort::Bool => d.name,
        VarSort::BitVec(w) => "(bvult "@ + d.name + " (_ bv"@ + text::decimal(middle(w)) + " "@
            + text::decimal(w as nat) + "))"@,
        VarSort::Int => "(>= "@ + d.name + " 0)"@,
    }
}

/// The branches of a split on a variable: for a Boolean the variable and its
/// negation, for a bit-vector the lower and the upper half of its range, for
/// an integer the non-negative and the negative numbers.
pub open spec fn split_of(d: DeclView) -> SplitView {
    SplitView {
        pos: "(assert "@ + condition(d) + ")"@,
        neg: match d.sort {
            VarSort::Int => "(assert (< "@ + d.name + " 0))"@,
            _ => "(assert (not "@ + condition(d) + "))"@,
        },
    }
}

/// The number with these decimal digits, the lowest first.
spec fn number_of(ds: Seq<u8>) -> nat
    decreases ds.len(),
{
    if ds.len() == 0 {
        0
    } else {
        ds[0] as nat + 10 * number_of(ds.drop_first())
    }
}

/// The digits of twice a number and a carry.
spec fn doubled(ds: Seq<u8>, carry: u8) -> Seq<u8>
    decreases ds.len(),
{
    if ds.len() == 0 {
        if carry == 0 {
            Seq::empty()
        } else {
            seq![carry]
        }
    } else {
        let x = (2 * ds[0] + carry) as u8;
        seq![(x % 10) as u8] + doubled(ds.drop_first(), (x / 10) as u8)
    }
}

/// Digits without a leading zero.
spec fn proper(ds: Seq<u8>) -> bool {
    &&& ds.len() > 0
    &&& ds.last() != 0
    &&& forall|i: int| 0 <= i < ds.len() ==> #[trigger] ds[i] < 10
}

proof fn doubled_is_double(ds: Seq<u8>, carry: u8)
    requires
        forall|i: int| 0 <= i < ds.len() ==> #[trigger] ds[i] < 10,
        carry <= 1,
    ensures
        number_of(doubled(ds, carry)) == 2 * number_of(ds) + carry,
        forall|i: int| 0 <= i < doubled(ds, carry).len() ==> #[trigger] doubled(ds, carry)[i] < 10,
        proper(ds) ==> proper(doubled(ds, carry)),
    decreases ds.len(),
{
    let out = doubled(ds, carry);
    if ds.len() == 0 {
        if carry != 0 {
            assert(out.drop_first() =~= Seq::<u8>::empty());
            assert(number_of(out.drop_first()) == 0);
        }
    } else {
        let x = (2 * ds[0] + carry) as u8;
        let rest = ds.drop_first();
        assert forall|i: int| 0 <= i < rest.len() implies #[trigger] rest[i] < 10 by {
            assert(rest[i] == ds[i + 1]);
        }
        doubled_is_double(rest, (x / 10) as u8);
        let more = doubled(rest, (x / 10) as u8);
        assert(out.drop_first() =~= more);
        assert forall|i: int| 0 <= i < out.len() implies #[trigger] out[i] < 10 by {
            if i > 0 {
                assert(out[i] == more[i - 1]);
            }
        }
        if proper(ds) {
            if rest.len() > 0 {
                assert(rest.last() == ds.last());
                assert(out.last() == more.last());
            } else if x >= 10 {
                assert(more =~= seq![1u8]);
                assert(out.last() == 1);
            } else {
                assert(more =~= Seq::<u8>::empty());
                assert(out.last() == x);
            }
        }
    }
}

/// The digits as a text, the highest first.
spec fn digits_text(ds: Seq<u8>) -> Text
    decreases ds.len(),
{
    if ds.len() == 0 {
        Seq::empty()
    } else {
        digits_text(ds.drop_first()).push(text::digit_char(ds[0] as nat))
    }
}

proof fn digits_are_decimal(ds: Seq<u8>)
    requires
        proper(ds),
    ensures
        digits_text(ds) == text::decimal(number_of(ds)),
        number_of(ds) > 0,
    decreases ds.len(),
{
    let rest = ds.drop_first();
    if ds.len() == 1 {
        assert(rest =~= Seq::<u8>::empty());
        assert(number_of(rest) == 0);
        assert(digits_text(rest) =~= Seq::<char>::empty());
        assert(digits_text(ds) =~= seq![text::digit_char(ds[0] as nat)]);
    } else {
        assert forall|i: int| 0 <= i < rest.len() implies #[trigger] rest[i] < 10 by {
            assert(rest[i] == ds[i + 1]);
        }
        assert(rest.last() == ds.last());
        digits_are_decimal(rest);
    }
}

/// Append the decimal form of a power of two.
fn push_power_of_two(out: &mut String, n: u32)
    ensures
        final(out)@ == old(out)@ + text::decimal(vstd::arithmetic::power2::pow2(n as nat)),
{
    let mut digits: Vec<u8> = Vec::new();
    digits.push(1);
    proof {
        vstd::arithmetic::power2::lemma2_to64();
        assert(digits@.drop_first() =~= Seq::<u8>::empty());
        assert(number_of(digits@.drop_first()) == 0);
    }
    let mut i: u32 = 0;
    while i < n
        invariant
            i <= n,
            proper(digits@),
            number_of(digits@) == vstd::arithmetic::power2::pow2(i as nat),
        decreases n - i,
    {
        proof {
            vstd::arithmetic::power2::lemma_pow2_unfold((i + 1) as nat);
            doubled_is_double(digits@, 0);
        }
        digits = twice(&digits);
        i += 1;
    }
    proof {
        digits_are_decimal(digits@);
    }
    let mut k: usize = digits.len();
    assert(digits@.skip(k as int) =~= Seq::<u8>::empty());
    assert(out@ =~= old(out)@ + digits_text(digits@.skip(k as int)));
    while k > 0
        invariant
            k <= digits@.len(),
            proper(digits@),
            out@ == old(out)@ + digits_text(digits@.skip(k as int)),
        decreases k,
    {
        k -= 1;
        let c: char = (48u8 + digits[k]) as char;
        out.push(c);
        proof {
            let s = digits@.skip(k as int);
            assert(s.drop_first() =~= digits@.skip(k + 1));
            assert(out@ =~= old(out)@ + digits_text(s));
        }
    }
    assert(digits@.skip(0) =~= digits@);
}

/// The digits of twice a number.
fn twice(ds: &Vec<u8>) -> (out: Vec<u8>)
    requires
        forall|i: int| 0 <= i < ds@.len() ==> #[trigger] ds@[i] < 10,
    ensures
        out@ == doubled(ds@, 0),
{
    let mut out: Vec<u8> = Vec::new();
    let mut carry: u8 = 0;
    let mut i: usize = 0;
    assert(ds@.skip(0) =~= ds@);
    while i < ds.len()
        invariant
            i <= ds@.len(),
            carry <= 1,
            forall|i: int| 0 <= i < ds@.len() ==> #[trigger] ds@[i] < 10,
            doubled(ds@, 0) == out@ + doubled(ds@.skip(i as int), carry),
        decreases ds@.len() - i,
    {
        let ghost here = ds@.skip(i as int);
        let ghost before = out@;
        let x: u8 = 2 * ds[i] + carry;
        out.push(x % 10);
        proof {
            assert(here[0] == ds@[i as int]);
            assert(here.drop_first() =~= ds@.skip(i + 1));
            assert(before + doubled(here, carry) =~= out@ + doubled(
                ds@.skip(i + 1),
                (x / 10) as u8,
            ));
        }
        carry = x / 10;
        i += 1;
    }
    assert(ds@.skip(i as int) =~= Seq::<u8>::empty());
    if carry != 0 {
        out.push(carry);
    }
    assert(out@ =~= doubled(ds@, 0));
    out
}

/// Build the two branch assertions for a variable.
pub fn make_split_assertions(decl: &Decl) -> (s: Split)
    ensures
        s@ == split_of(decl@),
{
    let mut cond: String = String::new();
    let mut pos = String::from_str("(assert ");
    let mut neg = String::from_str("(assert ");
    match decl.sort {
        VarSort::Bool => {
            cond.append(decl.name.as_str());
        },
        VarSort::BitVec(w) => {
            cond.append("(bvult ");
            cond.append(decl.name.as_str());
            cond.append(" (_ bv");
            push_power_of_two(
                &mut cond,
                if w == 0 {
                    0
                } else {
                    w - 1
                },
            );
            cond.append(" ");
            text::push_decimal(&mut cond, w as u64);
            cond.append("))");
        },
        VarSort::Int => {
            cond.append("(>= ");
            cond.append(decl.name.as_str());
            cond.append(" 0)");
        },
    }
    assert(cond@ =~= condition(decl@));
    pos.append(cond.as_str());
    pos.append(")");
    match decl.sort {
        VarSort::Int => {
            neg.append("(< ");
            neg.append(decl.name.as_str());
            neg.append(" 0))");
        },
        _ => {
            neg.append("(not ");
            neg.append(cond.as_str());
            neg.append("))");
        },
    }
    proof {
        reveal_strlit("(assert ");
        reveal_strlit("(< ");
        reveal_strlit("(not ");
        reveal_strlit("(assert (< ");
        reveal_strlit("(assert (not ");
        assert("(assert "@ + "(< "@ =~= "(assert (< "@);
        assert("(assert "@ + "(not "@ =~= "(assert (not "@);
    }
    let s = Split { pos, neg };
    assert(s@.pos =~= split_of(decl@).pos);
    assert(s@.neg =~= split_of(decl@).neg);
    s
}

// ---------------------------------------------------------------------------
// Choosing a variable
// ---------------------------------------------------------------------------

/// How many candidates are probed.
pub const MAX_CANDIDATES: usize = 4;

/// Declarations with the most frequent first; among equals the order of
/// declaration stays.
pub open spec fn by_frequency(script: Text, decls: Seq<DeclView>) -> Seq<DeclView>
    decreases decls.len(),
{
    if decls.len() == 0 {
        Seq::empty()
    } else {
        let rest = by_frequency(script, decls.drop_last());
        let d = decls.last();
        let k = rank(script, rest, count_of(script, d.name));
        rest.take(k) + seq![d] + rest.skip(k)
    }
}

/// The place behind the last declaration that is at least as frequent.
pub open spec fn rank(script: Text, sorted: Seq<DeclView>, count: nat) -> int
    decreases sorted.len(),
{
    if sorted.len() == 0 {
        0
    } else if count_of(script, sorted.last().name) >= count {
        sorted.len() as int
    } else {
        rank(script, sorted.drop_last(), count)
    }
}

pub proof fn rank_bounds(script: Text, sorted: Seq<DeclView>, count: nat)
    ensures
        0 <= rank(script, sorted, count) <= sorted.len(),
    decreases sorted.len(),
{
    if sorted.len() > 0 {
        rank_bounds(script, sorted.drop_last(), count);
    }
}

/// The declarations are in order of falling frequency.
pub open spec fn falling(script: Text, decls: Seq<DeclView>) -> bool {
    forall|i: int, j: int|
        0 <= i <= j < decls.len() ==> count_of(script, (#[trigger] decls[i]).name) >= count_of(
            script,
            (#[trigger] decls[j]).name,
        )
}

/// Sorting by frequency keeps the declarations and puts them in order.
pub proof fn frequency_order(script: Text, decls: Seq<DeclView>)
    ensures
        falling(script, by_frequency(script, decls)),
        by_frequency(script, decls).to_multiset() == decls.to_multiset(),
        by_frequency(script, decls).len() == decls.len(),
    decreases decls.len(),
{
    broadcast use vstd::seq_lib::group_to_multiset_ensures;

    if decls.len() > 0 {
        let t = decls.drop_last();
        frequency_order(script, t);
        let rest = by_frequency(script, t);
        let d = decls.last();
        let c = count_of(script, d.name);
        let k = rank(script, rest, c);
        rank_bounds(script, rest, c);
        rank_splits(script, rest, c);
        let out = by_frequency(script, decls);
        assert forall|i: int, j: int| 0 <= i <= j < out.len() implies count_of(
            script,
            (#[trigger] out[i]).name,
        ) >= count_of(script, (#[trigger] out[j]).name) by {
            let i0 = if i < k { i } else { i - 1 };
            let j0 = if j < k { j } else { j - 1 };
            if i != k && j != k {
                assert(out[i] == rest[i0] && out[j] == rest[j0]);
            } else if i == k && j != k {
                assert(out[j] == rest[j0]);
                assert(count_of(script, rest[j0].name) < c);
            } else if j == k && i != k {
                assert(out[i] == rest[i0]);
                assert(count_of(script, rest[i0].name) >= c);
            }
        }
        assert(out =~= rest.insert(k, d));
        assert(decls =~= t.push(d));
        vstd::seq_lib::to_multiset_insert(rest, k, d);
        assert(out.to_multiset() =~= decls.to_multiset());
    } else {
        assert(by_frequency(script, decls) =~= decls);
    }
}

/// Everything before the place is at least as frequent, everything behind less.
proof fn rank_splits(script: Text, sorted: Seq<DeclView>, count: nat)
    requires
        falling(script, sorted),
    ensures
        forall|i: int|
            0 <= i < rank(script, sorted, count) ==> count_of(
                script,
                (#[trigger] sorted[i]).name,
            ) >= count,
        forall|i: int|
            rank(script, sorted, count) <= i < sorted.len() ==> count_of(
                script,
                (#[trigger] sorted[i]).name,
            ) < count,
    decreases sorted.len(),
{
    rank_bounds(script, sorted, count);
    if sorted.len() > 0 {
        let t = sorted.drop_last();
        if count_of(script, sorted.last().name) >= count {
            assert forall|i: int| 0 <= i < sorted.len() implies count_of(
                script,
                (#[trigger] sorted[i]).name,
            ) >= count by {
                assert(count_of(script, sorted[i].name) >= count_of(
                    script,
                    sorted[sorted.len() - 1].name,
                ));
            }
        } else {
            assert(falling(script, t)) by {
                assert forall|i: int, j: int| 0 <= i <= j < t.len() implies count_of(
                    script,
                    (#[trigger] t[i]).name,
                ) >= count_of(script, (#[trigger] t[j]).name) by {
                    assert(t[i] == sorted[i] && t[j] == sorted[j]);
                }
            }
            rank_splits(script, t, count);
            assert forall|i: int|
                rank(script, sorted, count) <= i < sorted.len() implies count_of(
                script,
                (#[trigger] sorted[i]).name,
            ) < count by {
                if i < t.len() {
                    assert(t[i] == sorted[i]);
                }
            }
            assert forall|i: int| 0 <= i < rank(script, sorted, count) implies count_of(
                script,
                (#[trigger] sorted[i]).name,
            ) >= count by {
                rank_bounds(script, t, count);
                assert(t[i] == sorted[i]);
            }
        }
    }
}

/// The candidates for a split: the most frequent declarations.
pub open spec fn top(script: Text, decls: Seq<DeclView>) -> Seq<DeclView> {
    let sorted = by_frequency(script, decls);
    if sorted.len() <= MAX_CANDIDATES {
        sorted
    } else {
        sorted.take(MAX_CANDIDATES as int)
    }
}

/// The candidates for a split: the most frequent declarations first, and no
/// more than are probed.
pub fn candidates(script: &str, decls: Vec<Decl>) -> (c: Vec<Decl>)
    ensures
        decl_views(c@) == top(script@, decl_views(decls@)),
{
    let ghost all = decl_views(decls@);
    let s: Vec<char> = text::to_chars(script);
    let mut sorted: Vec<Decl> = Vec::new();
    let mut counts: Vec<usize> = Vec::new();
    assert(decl_views(sorted@) =~= by_frequency(script@, all.take(0)));
    for d in it: decls
        invariant
            all == decl_views(it.seq()),
            s@ == script@,
            decl_views(sorted@) == by_frequency(script@, all.take(it.index() as int)),
            counts@.len() == sorted@.len(),
            forall|k: int|
                0 <= k < counts@.len() ==> #[trigger] counts@[k] == count_of(
                    script@,
                    sorted@[k].name@,
                ),
    {
        let ghost i = it.index() as int;
        let ghost rest = decl_views(sorted@);
        let ghost v = d@;
        proof {
            assert(all.take(i + 1).drop_last() =~= all.take(i));
            assert(all.take(i + 1).last() == v);
        }
        let w: Vec<char> = text::to_chars(d.name.as_str());
        let n: usize = count_in(s.as_slice(), w.as_slice());
        let mut k: usize = sorted.len();
        assert(rest.take(k as int) =~= rest);
        while k > 0 && counts[k - 1] < n
            invariant
                k <= sorted@.len(),
                rest == decl_views(sorted@),
                counts@.len() == sorted@.len(),
                forall|k: int|
                    0 <= k < counts@.len() ==> #[trigger] counts@[k] == count_of(
                        script@,
                        sorted@[k].name@,
                    ),
                rank(script@, rest, n as nat) == rank(script@, rest.take(k as int), n as nat),
            decreases k,
        {
            proof {
                assert(counts@[k - 1] == count_of(script@, sorted@[k - 1].name@));
                assert(rest.take(k as int).last() == sorted@[k - 1]@);
                assert(rest.take(k as int).drop_last() =~= rest.take(k - 1));
            }
            k -= 1;
        }
        proof {
            if k > 0 {
                assert(counts@[k - 1] == count_of(script@, sorted@[k - 1].name@));
                assert(rest.take(k as int).last() == sorted@[k - 1]@);
            }
            assert(rank(script@, rest, n as nat) == k);
        }
        let ghost sorted0 = sorted@;
        let ghost counts0 = counts@;
        sorted.insert(k, d);
        counts.insert(k, n);
        proof {
            assert(decl_views(sorted@) =~= rest.take(k as int) + seq![v] + rest.skip(k as int));
            assert forall|j: int| 0 <= j < counts@.len() implies #[trigger] counts@[j] == count_of(
                script@,
                sorted@[j].name@,
            ) by {
                if j < k {
                    assert(counts@[j] == counts0[j] && sorted@[j] == sorted0[j]);
                } else if j > k {
                    assert(counts@[j] == counts0[j - 1] && sorted@[j] == sorted0[j - 1]);
                }
            }
        }
    }
    assert(all.take(all.len() as int) =~= all);
    let ghost full = sorted@;
    sorted.truncate(MAX_CANDIDATES);
    proof {
        if full.len() > MAX_CANDIDATES {
            assert(decl_views(sorted@) =~= decl_views(full).take(MAX_CANDIDATES as int));
        } else {
            assert(sorted@ =~= full);
        }
    }
    sorted
}

/// Split on the most frequent variable, without probing; `None` if there is no
/// variable.
pub fn pick_by_frequency(script: &str, decls: Vec<Decl>) -> (s: Option<Split>)
    ensures
        match s {
            Some(split) => {
                let c = top(script@, decl_views(decls@));
                c.len() > 0 && split@ == split_of(c[0])
            },
            None => decls@.len() == 0,
        },
{
    let ghost all = decl_views(decls@);
    let c: Vec<Decl> = candidates(script, decls);
    proof {
        frequency_order(script@, all);
    }
    if c.len() == 0 {
        assert(decl_views(c@).len() == 0);
        return None;
    }
    assert(decl_views(c@)[0] == c@[0]@);
    Some(make_split_assertions(&c[0]))
}

// ---------------------------------------------------------------------------
// Probing
// ---------------------------------------------------------------------------

/// How a probe of one branch ended.
#[derive(Clone, Copy, Debug, PartialEq, Eq, Structural)]
pub enum ProbeOutcome {
    /// The branch is eliminated.
    Unsat,
    /// The branch is feasible, or has no constraint at all.
    Sat,
    /// The budget ran out, or the probe failed.
    Unknown,
}

pub open spec fn probe_score(o: ProbeOutcome) -> i32 {
    match o {
        ProbeOutcome::Unsat => 100,
        ProbeOutcome::Sat => 10,
        ProbeOutcome::Unknown => 5,
    }
}

/// The score of a branch: 100 = UNSAT (branch eliminated), 10 = SAT, 5 = UNKNOWN.
pub fn score(o: ProbeOutcome) -> (n: i32)
    ensures
        n == probe_score(o),
{
    match o {
        ProbeOutcome::Unsat => 100,
        ProbeOutcome::Sat => 10,
        ProbeOutcome::Unknown => 5,
    }
}

/// A candidate that eliminates a branch beats one that does not.
pub proof fn elimination_dominates(a: ProbeOutcome, b: ProbeOutcome, c: ProbeOutcome)
    requires
        b != ProbeOutcome::Unsat,
        c != ProbeOutcome::Unsat,
    ensures
        probe_score(ProbeOutcome::Unsat) + probe_score(a) > probe_score(b) + probe_score(c),
{
}

/// The script that probes a branch.
pub open spec fn probe_text(base: Text, assertion: Text) -> Text {
    base + "\n"@ + assertion + "\n(check-sat)\n"@
}

/// The script that probes a branch.
pub fn probe_script(base: &str, assertion: &str) -> (s: String)
    ensures
        s@ == probe_text(base@, assertion@),
{
    let mut s = text::copy_str(base);
    s.append("\n");
    s.append(assertion);
    s.append("\n(check-sat)\n");
    s
}

/// The total score of a candidate.
pub open spec fn total(p: (ProbeOutcome, ProbeOutcome)) -> int {
    probe_score(p.0) + probe_score(p.1)
}

/// The first candidate with the highest total.
pub open spec fn best(probes: Seq<(ProbeOutcome, ProbeOutcome)>) -> int
    decreases probes.len(),
{
    if probes.len() <= 1 {
        0
    } else {
        let k = best(probes.drop_last());
        if total(probes.last()) > total(probes[k]) {
            probes.len() - 1
        } else {
            k
        }
    }
}

/// No candidate has a higher total, and none before has the same.
pub proof fn best_is_first_highest(probes: Seq<(ProbeOutcome, ProbeOutcome)>)
    requires
        probes.len() > 0,
    ensures
        0 <= best(probes) < probes.len(),
        forall|i: int| 0 <= i < probes.len() ==> total(#[trigger] probes[i]) <= total(
            probes[best(probes)],
        ),
        forall|i: int| 0 <= i < best(probes) ==> total(#[trigger] probes[i]) < total(
            probes[best(probes)],
        ),
    decreases probes.len(),
{
    if probes.len() > 1 {
        let t = probes.drop_last();
        best_is_first_highest(t);
        assert forall|i: int| 0 <= i < probes.len() implies total(#[trigger] probes[i]) <= total(
            probes[best(probes)],
        ) by {
            if i < t.len() {
                assert(t[i] == probes[i]);
            }
        }
        assert forall|i: int| 0 <= i < best(probes) implies total(#[trigger] probes[i]) < total(
            probes[best(probes)],
        ) by {
            assert(t[i] == probes[i]);
        }
    }
}

/// Which candidate to split on, by how the probes of its two branches ended.
pub fn pick_probed(probes: &[(ProbeOutcome, ProbeOutcome)]) -> (r: Option<usize>)
    ensures
        match r {
            Some(i) => probes@.len() > 0 && i == best(probes@),
            None => probes@.len() == 0,
        },
{
    if probes.len() == 0 {
        return None;
    }
    let mut k: usize = 0;
    let mut top_score: i32 = score(probes[0].0) + score(probes[0].1);
    let mut i: usize = 1;
    while i < probes.len()
        invariant
            1 <= i <= probes@.len(),
            k < i,
            k == best(probes@.take(i as int)),
            top_score == total(probes@[k as int]),
        decreases probes@.len() - i,
    {
        proof {
            assert(probes@.take(i + 1).drop_last() =~= probes@.take(i as int));
            assert(probes@.take(i + 1).last() == probes@[i as int]);
        }
        let here: i32 = score(probes[i].0) + score(probes[i].1);
        if here > top_score {
            k = i;
            top_score = here;
        }
        i += 1;
    }
    assert(probes@.take(i as int) =~= probes@);
    Some(k)
}

/// Given the expressions of a script that returned UNKNOWN, choose a variable
/// to split on: by the outcomes of probing the candidates, in their order, or
/// by frequency alone if nothing was probed. `None` if no suitable variable is
/// found.
pub fn pick_split(
    script: &str,
    exprs: &[SExpr],
    probes: &[(ProbeOutcome, ProbeOutcome)],
) -> (s: Option<Split>)
    requires
        probes@.len() > 0 ==> probes@.len() == top(script@, all_declared(exprs@)).len(),
    ensures
        ({
            let c = top(script@, all_declared(exprs@));
            let i = if probes@.len() > 0 {
                best(probes@)
            } else {
                0
            };
            match s {
                Some(split) => c.len() > 0 && split@ == split_of(c[i]),
                None => all_declared(exprs@).len() == 0,
            }
        }),
{
    let decls: Vec<Decl> = parse_declarations(exprs);
    match pick_probed(probes) {
        Some(i) => {
            proof {
                best_is_first_highest(probes@);
            }
            let c: Vec<Decl> = candidates(script, decls);
            assert(decl_views(c@)[i as int] == c@[i as int]@);
            Some(make_split_assertions(&c[i]))
        },
        None => pick_by_frequency(script, decls),
    }
}

} // verus!
