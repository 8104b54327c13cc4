//! Bit-vector values with arbitrary width, stored least-significant-bit
//! first. Used for constant folding and model evaluation.

use vstd::prelude::*;

#[allow(unused_imports)]
use vstd::arithmetic::power2;

verus! {

#[derive(Debug, PartialEq, Eq, Hash)]
pub struct Bv {
    width: u32,
    bits: Vec<bool>,
}

/// The number that bits stand for.
pub open spec fn value(bits: Seq<bool>) -> nat
    decreases bits.len(),
{
    if bits.len() == 0 {
        0
    } else {
        value(bits.drop_last()) + (if bits.last() {
            power2::pow2((bits.len() - 1) as nat)
        } else {
            0
        })
    }
}

/// The number that bits stand for in two's complement.
pub open spec fn signed_value(bits: Seq<bool>) -> int {
    if bits.len() == 0 {
        0
    } else {
        value(bits.drop_last()) - (if bits.last() {
            power2::pow2((bits.len() - 1) as nat) as int
        } else {
            0
        })
    }
}

/// The lowest bits of a number.
pub open spec fn low_bits(v: nat, width: nat) -> Seq<bool> {
    Seq::new(width, |i: int| (v / power2::pow2(i as nat)) % 2 == 1)
}

/// The bits of a number stand for it, up to their width.
pub proof fn value_of_low_bits(v: nat, width: nat)
    ensures
        value(low_bits(v, width)) == v % power2::pow2(width),
    decreases width,
{
    power2::lemma_pow2_pos(width);
    if width == 0 {
        power2::lemma2_to64();
    } else {
        let n = (width - 1) as nat;
        value_of_low_bits(v, n);
        assert(low_bits(v, width).drop_last() =~= low_bits(v, n));
        power2::lemma_pow2_unfold(width);
        power2::lemma_pow2_pos(n);
        let p = power2::pow2(n) as int;
        vstd::arithmetic::div_mod::lemma_mod_breakdown(v as int, p, 2);
        assert(power2::pow2(width) == p * 2) by (nonlinear_arith)
            requires
                power2::pow2(width) == 2 * p,
        ;
        let b = (v as int / p) % 2;
        assert(b == 0 || b == 1);
        assert(p * b == (if b == 1 { p } else { 0 })) by (nonlinear_arith)
            requires
                b == 0 || b == 1,
        ;
    }
}

/// The value of bits is below the power of two of their number.
pub proof fn value_bounded(bits: Seq<bool>)
    ensures
        value(bits) < power2::pow2(bits.len()),
    decreases bits.len(),
{
    if bits.len() == 0 {
        power2::lemma2_to64();
    } else {
        value_bounded(bits.drop_last());
        power2::lemma_pow2_unfold(bits.len());
    }
}

/// A bit-vector made from a number that fits stands for that number.
pub proof fn number_round_trip(v: nat, width: nat)
    requires
        v < power2::pow2(width),
    ensures
        value(low_bits(v, width)) == v,
{
    value_of_low_bits(v, width);
    vstd::arithmetic::div_mod::lemma_small_mod(v, power2::pow2(width));
}

/// The two readings of bits differ by the power of two if the sign bit is set.
pub proof fn signed_and_unsigned(bits: Seq<bool>)
    requires
        bits.len() > 0,
    ensures
        signed_value(bits) == value(bits) - (if bits.last() {
            power2::pow2(bits.len()) as int
        } else {
            0
        }),
{
    power2::lemma_pow2_unfold(bits.len());
}

/// The text of bits, the most significant first.
pub open spec fn bit_text(bits: Seq<bool>) -> Seq<char>
    decreases bits.len(),
{
    if bits.len() == 0 {
        Seq::empty()
    } else {
        seq![if bits.last() { '1' } else { '0' }] + bit_text(bits.drop_last())
    }
}

impl Bv {
    /// The bits, the least significant first.
    pub closed spec fn view(&self) -> Seq<bool> {
        self.bits@
    }

    pub closed spec fn well_formed(&self) -> bool {
        self.bits@.len() == self.width
    }

    pub fn from_bits(width: u32, bits: Vec<bool>) -> (b: Self)
        requires
            bits@.len() == width,
        ensures
            b.well_formed(),
            b@ == bits@,
    {
        Bv { width, bits }
    }

    pub fn zero(width: u32) -> (b: Self)
        ensures
            b.well_formed(),
            b@ == Seq::new(width as nat, |i: int| false),
    {
        let mut bits: Vec<bool> = Vec::new();
        let mut i: u32 = 0;
        while i < width
            invariant
                i <= width,
                bits@ == Seq::new(i as nat, |k: int| false),
            decreases width - i,
        {
            bits.push(false);
            i += 1;
            assert(bits@ =~= Seq::new(i as nat, |k: int| false));
        }
        Bv { width, bits }
    }

    pub fn from_u64(value: u64, width: u32) -> (b: Self)
        ensures
            b.well_formed(),
            b@ == low_bits(value as nat, width as nat),
    {
        let mut bits: Vec<bool> = Vec::new();
        let mut v: u64 = value;
        let mut i: u32 = 0;
        proof {
            power2::lemma2_to64();
        }
        while i < width
            invariant
                i <= width,
                v == value as nat / power2::pow2(i as nat),
                bits@ == low_bits(value as nat, i as nat),
            decreases width - i,
        {
            bits.push(v % 2 == 1);
            proof {
                let p = power2::pow2(i as nat) as int;
                power2::lemma_pow2_pos(i as nat);
                power2::lemma_pow2_unfold((i + 1) as nat);
                vstd::arithmetic::div_mod::lemma_div_denominator(value as int, p, 2);
                assert(power2::pow2((i + 1) as nat) == p * 2);
            }
            v = v / 2;
            i += 1;
            assert(bits@ =~= low_bits(value as nat, i as nat));
        }
        Bv { width, bits }
    }

    pub fn one(width: u32) -> (b: Self)
        ensures
            b.well_formed(),
            b@ == Seq::new(width as nat, |i: int| i == 0),
    {
        let mut b = Bv::zero(width);
        if width > 0 {
            b.bits[0] = true;
        }
        assert(b@ =~= Seq::new(width as nat, |i: int| i == 0));
        b
    }

    pub fn width(&self) -> (w: u32)
        requires
            self.well_formed(),
        ensures
            w == self@.len(),
    {
        self.width
    }

    pub fn len(&self) -> (n: usize)
        requires
            self.well_formed(),
        ensures
            n == self@.len(),
    {
        self.width as usize
    }

    pub fn is_empty(&self) -> (b: bool)
        requires
            self.well_formed(),
        ensures
            b == (self@.len() == 0),
    {
        self.width == 0
    }

    pub fn bit(&self, i: usize) -> (b: bool)
        requires
            i < self@.len(),
        ensures
            b == self@[i as int],
    {
        self.bits[i]
    }

    pub fn bits(&self) -> (b: &[bool])
        ensures
            b@ == self@,
    {
        self.bits.as_slice()
    }

    /// The number that the lowest 64 bits stand for.
    pub fn to_u64(&self) -> (v: u64)
        ensures
            v == value(
                if self@.len() <= 64 {
                    self@
                } else {
                    self@.take(64)
                },
            ),
    {
        let n: usize = if self.bits.len() < 64 {
            self.bits.len()
        } else {
            64
        };
        assert(self@.len() <= 64 ==> self@.take(n as int) =~= self@);
        value_of_prefix(&self.bits, n)
    }

    pub fn is_zero(&self) -> (b: bool)
        ensures
            b == forall|i: int| 0 <= i < self@.len() ==> !#[trigger] self@[i],
    {
        let mut i: usize = 0;
        while i < self.bits.len()
            invariant
                i <= self.bits@.len(),
                forall|k: int| 0 <= k < i ==> !#[trigger] self@[k],
            decreases self.bits@.len() - i,
        {
            if self.bits[i] {
                assert(self@[i as int]);
                return false;
            }
            i += 1;
        }
        true
    }

    /// Interpret the vector as a two's-complement signed integer.
    pub fn as_signed_i64(&self) -> (v: i64)
        requires
            self.well_formed(),
            self@.len() <= 64,
        ensures
            v == signed_value(self@),
    {
        let n: usize = self.bits.len();
        if n == 0 {
            return 0;
        }
        let body: u64 = value_of_prefix(&self.bits, n - 1);
        proof {
            assert(self@.take(n - 1) =~= self@.drop_last());
            value_bounded(self@.drop_last());
            power2::lemma2_to64();
            if n - 1 < 63 {
                power2::lemma_pow2_strictly_increases((n - 1) as nat, 63);
            }
            assert(power2::pow2(63) == 0x8000_0000_0000_0000) by {
                power2::lemma_pow2_unfold(64);
            }
        }
        if self.bits[n - 1] {
            let weight: u64 = power_of_two((n - 1) as u32);
            (body as i128 - weight as i128) as i64
        } else {
            body as i64
        }
    }

    /// The SMT-LIB form, `#b` and the bits, the most significant first.
    pub fn to_text(&self) -> (s: String)
        ensures
            s@ == "#b"@ + bit_text(self@),
    {
        let mut s = String::from_str("#b");
        let mut i: usize = self.bits.len();
        let ghost all = self@;
        assert(all.take(i as int) =~= all);
        assert(s@ + bit_text(all.take(i as int)) =~= "#b"@ + bit_text(all));
        while i > 0
            invariant
                i <= self.bits@.len(),
                all == self@,
                s@ + bit_text(all.take(i as int)) == "#b"@ + bit_text(all),
            decreases i,
        {
            let ghost before = s@;
            i -= 1;
            let c: char = if self.bits[i] {
                '1'
            } else {
                '0'
            };
            s.push(c);
            proof {
                let part = all.take(i + 1);
                assert(part.drop_last() =~= all.take(i as int));
                assert(part.last() == all[i as int]);
                assert(s@ + bit_text(all.take(i as int)) =~= before + bit_text(part));
            }
        }
        assert(s@ + bit_text(all.take(0)) =~= s@);
        s
    }
}

impl Clone for Bv {
    fn clone(&self) -> (b: Self)
        ensures
            b@ == self@,
            self.well_formed() ==> b.well_formed(),
    {
        Bv { width: self.width, bits: vstd::slice::slice_to_vec(self.bits.as_slice()) }
    }
}

fn power_of_two(n: u32) -> (p: u64)
    requires
        n < 64,
    ensures
        p == power2::pow2(n as nat),
{
    let mut p: u64 = 1;
    let mut i: u32 = 0;
    proof {
        power2::lemma2_to64();
    }
    while i < n
        invariant
            i <= n < 64,
            p == power2::pow2(i as nat),
        decreases n - i,
    {
        proof {
            power2::lemma_pow2_unfold((i + 1) as nat);
            power2::lemma_pow2_strictly_increases((i + 1) as nat, 64);
            power2::lemma2_to64();
        }
        p = p * 2;
        i += 1;
    }
    p
}

/// The number that the lowest `n` bits stand for.
fn value_of_prefix(bits: &Vec<bool>, n: usize) -> (v: u64)
    requires
        n <= bits@.len(),
        n <= 64,
    ensures
        v == value(bits@.take(n as int)),
{
    let mut v: u64 = 0;
    let mut i: usize = 0;
    proof {
        power2::lemma2_to64();
    }
    while i < n
        invariant
            i <= n <= bits@.len(),
            n <= 64,
            v == value(bits@.take(i as int)),
        decreases n - i,
    {
        let part: u64 = power_of_two(i as u32);
        proof {
            let next = bits@.take(i + 1);
            assert(next.drop_last() =~= bits@.take(i as int));
            assert(next.last() == bits@[i as int]);
            value_bounded(next);
            power2::lemma2_to64();
            if i + 1 < 64 {
                power2::lemma_pow2_strictly_increases((i + 1) as nat, 64);
            }
        }
        if bits[i] {
            v = v + part;
        }
        i += 1;
    }
    v
}

} // verus!
