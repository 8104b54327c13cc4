//! What the numbers of literals are for: different literals have different
//! numbers, and so contexts that differ in a literal have different
//! fingerprints.

use vstd::prelude::*;

#[allow(unused_imports)]
use crate::akx::filter;
#[allow(unused_imports)]
use crate::akx::literal::Literal;
#[allow(unused_imports)]
use vstd::arithmetic::div_mod::{
    lemma_mod_multiples_vanish, lemma_mul_mod_noop_left, lemma_small_mod,
};

verus! {

/// One more than the largest machine word.
pub open spec fn word_range() -> int {
    0x1_0000_0000_0000_0000
}

/// Multiplication by a number that has an inverse loses nothing.
proof fn product_is_undone(x: int, c: int, d: int, k: int)
    requires
        0 <= x < word_range(),
        c * d == 1 + k * word_range(),
    ensures
        ((x * c) % word_range()) * d % word_range() == x,
{
    let m = word_range();
    lemma_mul_mod_noop_left(x * c, d, m);
    assert(x * c * d == m * (x * k) + x) by (nonlinear_arith)
        requires
            c * d == 1 + k * m,
    ;
    lemma_mod_multiples_vanish(x * k, x, m);
    lemma_small_mod(x as nat, m as nat);
}

proof fn multiplied(a: u64, b: u64, c: u64, d: int, k: int)
    requires
        c * d == 1 + k * word_range(),
        a.wrapping_mul(c) == b.wrapping_mul(c),
    ensures
        a == b,
{
    product_is_undone(a as int, c as int, d, k);
    product_is_undone(b as int, c as int, d, k);
}

/// Mixing loses nothing: different words are mixed to different words.
pub proof fn mixing_keeps_words_apart(x: u64, y: u64)
    requires
        filter::mixed(x) == filter::mixed(y),
    ensures
        x == y,
{
    let p: u64 = 0xBF58_476D_1CE4_E5B9;
    let q: u64 = 0x94D0_49BB_1331_11EB;
    let x0 = x ^ (x >> 30);
    let y0 = y ^ (y >> 30);
    let x1 = x0.wrapping_mul(p);
    let y1 = y0.wrapping_mul(p);
    let x2 = x1 ^ (x1 >> 27);
    let y2 = y1 ^ (y1 >> 27);
    let x3 = x2.wrapping_mul(q);
    let y3 = y2.wrapping_mul(q);
    assert(x3 == y3) by (bit_vector)
        requires
            x3 ^ (x3 >> 31) == y3 ^ (y3 >> 31),
    ;
    assert(0x94D0_49BB_1331_11EB * 0x3196_42B2_D24D_8EC3 == 1 + 2077064247507883091
        * word_range());
    multiplied(x2, y2, q, 0x3196_42B2_D24D_8EC3, 2077064247507883091);
    assert(x1 == y1) by (bit_vector)
        requires
            x1 ^ (x1 >> 27) == y1 ^ (y1 >> 27),
    ;
    assert(0xBF58_476D_1CE4_E5B9 * 0x96DE_1B17_3F11_9089 == 1 + 8125545580553827436
        * word_range());
    multiplied(x0, y0, p, 0x96DE_1B17_3F11_9089, 8125545580553827436);
    assert(x == y) by (bit_vector)
        requires
            x ^ (x >> 30) == y ^ (y >> 30),
    ;
}

/// The state of the generator after some steps.
proof fn stepped_is(seed: u64, n: nat)
    ensures
        filter::stepped(seed, n) == (seed + n * filter::GOLDEN) % word_range(),
    decreases n,
{
    let m = word_range();
    if n == 0 {
        lemma_small_mod(seed as nat, m as nat);
    } else {
        stepped_is(seed, (n - 1) as nat);
        let g = filter::GOLDEN as int;
        let before = seed + (n - 1) * g;
        assert(seed + n * g == before + g) by (nonlinear_arith)
            requires
                before == seed + (n - 1) * g,
        ;
        let r = before % m;
        assert((before + g) % m == (if r + g >= m {
            r + g - m
        } else {
            r + g
        })) by (nonlinear_arith)
            requires
                m == 0x1_0000_0000_0000_0000,
                r == before % m,
                0 <= g < m,
                0 <= before,
        ;
        assert(0 <= before) by (nonlinear_arith)
            requires
                before == seed + (n - 1) * g,
                n >= 1,
                g >= 0,
                seed >= 0,
        ;
    }
}

/// The generator does not come back to a state within a round of all words.
proof fn states_differ(seed: u64, a: nat, b: nat)
    requires
        a < word_range(),
        b < word_range(),
        filter::stepped(seed, a) == filter::stepped(seed, b),
    ensures
        a == b,
{
    let m = word_range();
    let g = filter::GOLDEN as int;
    let d: int = 0xF1DE_83E1_9937_733D;
    stepped_is(seed, a);
    stepped_is(seed, b);
    let x = a * g;
    let y = b * g;
    assert(x % m == y % m) by {
        vstd::arithmetic::div_mod::lemma_mod_equivalence(seed + x, seed + y, m);
        vstd::arithmetic::div_mod::lemma_mod_equivalence(x, y, m);
    }
    assert(0x9E37_79B9_7F4A_7C15 * 0xF1DE_83E1_9937_733D == 1 + 10771413168148108919
        * word_range());
    product_is_undone(a as int, g, d, 10771413168148108919);
    product_is_undone(b as int, g, d, 10771413168148108919);
}

/// Different literals have different numbers, a literal and its negation
/// among them.
pub proof fn literals_have_numbers_of_their_own(num_vars: u32, seed: u64, a: Literal, b: Literal)
    requires
        a.0 < (num_vars + 1) * 2,
        b.0 < (num_vars + 1) * 2,
        a != b,
    ensures
        filter::zobrist_value(num_vars, seed, a) != filter::zobrist_value(num_vars, seed, b),
{
    let x = filter::stepped(seed, a.0 as nat + 1);
    let y = filter::stepped(seed, b.0 as nat + 1);
    if filter::mixed(x) == filter::mixed(y) {
        mixing_keeps_words_apart(x, y);
        states_differ(seed, a.0 as nat + 1, b.0 as nat + 1);
    }
}

/// Contexts that differ in one literal have different fingerprints.
pub proof fn contexts_are_told_apart(
    num_vars: u32,
    seed: u64,
    rest: Seq<Literal>,
    a: Literal,
    b: Literal,
)
    requires
        a.0 < (num_vars + 1) * 2,
        b.0 < (num_vars + 1) * 2,
        a != b,
    ensures
        filter::fingerprint(num_vars, seed, rest.push(a)) != filter::fingerprint(
            num_vars,
            seed,
            rest.push(b),
        ),
{
    literals_have_numbers_of_their_own(num_vars, seed, a, b);
    assert(rest.push(a).drop_last() =~= rest);
    assert(rest.push(b).drop_last() =~= rest);
    let f = filter::fingerprint(num_vars, seed, rest);
    let x = filter::zobrist_value(num_vars, seed, a);
    let y = filter::zobrist_value(num_vars, seed, b);
    assert(f ^ x != f ^ y) by (bit_vector)
        requires
            x != y,
    ;
}

} // verus!
