use vstd::prelude::*;

verus! {

pub type Var = u32;

/// The largest variable a literal can carry.
pub const MAX_VAR: u32 = 0x7FFF_FFFF;

/// A propositional literal: a variable with a sign.
///
/// Encoding: `Literal(2*var)` is positive, `Literal(2*var + 1)` is negative.
/// Negation flips the lowest bit; the variable is the remaining bits.
#[derive(Clone, Copy, PartialEq, Eq, PartialOrd, Ord, Hash, Debug, Structural)]
pub struct Literal(pub u32);

impl Literal {
    #[inline]
    #[verifier::allow_in_spec]
    pub fn new(var: Var, positive: bool) -> (l: Self)
        requires
            var <= MAX_VAR,
        ensures
            l.var() == var,
            l.is_positive() == positive,
        returns
            Literal((var * 2 + (if positive { 0int } else { 1int })) as u32),
    {
        let sign: u32 = if positive { 0 } else { 1 };
        Literal(var * 2 + sign)
    }

    #[inline]
    #[verifier::allow_in_spec]
    pub fn positive(var: Var) -> (l: Self)
        requires
            var <= MAX_VAR,
        ensures
            l.var() == var,
            l.is_positive(),
        returns
            Literal((var * 2) as u32),
    {
        Literal(var * 2)
    }

    #[inline]
    #[verifier::allow_in_spec]
    pub fn negative(var: Var) -> (l: Self)
        requires
            var <= MAX_VAR,
        ensures
            l.var() == var,
            !l.is_positive(),
        returns
            Literal((var * 2 + 1) as u32),
    {
        Literal(var * 2 + 1)
    }

    #[inline]
    #[verifier::allow_in_spec]
    pub fn var(self) -> (v: Var)
        ensures
            v <= MAX_VAR,
        returns
            self.0 / 2,
    {
        let raw: u32 = self.0;
        assert(raw >> 1 == raw / 2) by (bit_vector);
        raw >> 1
    }

    #[inline]
    #[verifier::allow_in_spec]
    pub fn is_positive(self) -> (b: bool)
        ensures
            b == (self.0 % 2 == 0),
        returns
            self.0 % 2 == 0,
    {
        let raw: u32 = self.0;
        assert(raw & 1 == raw % 2) by (bit_vector);
        raw & 1 == 0
    }

    #[inline]
    #[verifier::allow_in_spec]
    pub fn is_negative(self) -> (b: bool)
        ensures
            b == !self.is_positive(),
        returns
            self.0 % 2 == 1,
    {
        let raw: u32 = self.0;
        assert(raw & 1 == raw % 2) by (bit_vector);
        raw & 1 == 1
    }

    #[inline]
    #[verifier::allow_in_spec]
    pub fn negate(self) -> (l: Self)
        ensures
            l.var() == self.var(),
            l.is_positive() == !self.is_positive(),
        returns
            Literal((if self.0 % 2 == 0 { self.0 + 1 } else { self.0 - 1 }) as u32),
    {
        let raw: u32 = self.0;
        assert(raw ^ 1 == if raw % 2 == 0 { (raw + 1) as u32 } else { (raw - 1) as u32 })
            by (bit_vector);
        Literal(raw ^ 1)
    }

    #[inline]
    #[verifier::allow_in_spec]
    pub fn raw(self) -> (r: u32)
        ensures
            r == self.0,
        returns
            self.0,
    {
        self.0
    }

    /// Construct directly from a raw encoded value. Use with care.
    #[inline]
    #[verifier::allow_in_spec]
    pub fn from_raw(raw: u32) -> (l: Self)
        ensures
            l.0 == raw,
        returns
            Literal(raw),
    {
        Literal(raw)
    }
}

/// Negation is an involution that keeps the variable and flips the sign, and
/// a literal is determined by its variable and sign.
pub proof fn negation_laws(l: Literal)
    ensures
        l.negate().negate() == l,
        l.negate() != l,
        l.negate().var() == l.var(),
        l.negate().is_positive() == !l.is_positive(),
        Literal::new(l.var(), l.is_positive()) == l,
{
}

/// Two literals with the same variable are equal or each other's negation.
pub proof fn same_variable(a: Literal, b: Literal)
    requires
        a.var() == b.var(),
    ensures
        a == b || a == b.negate(),
        (a == b) == (a.is_positive() == b.is_positive()),
{
}

/// Building a literal from a variable and a sign and reading them back gives
/// the same variable and sign, and the two signs are each other's negation.
pub proof fn literal_round_trip(var: Var)
    requires
        var <= MAX_VAR,
    ensures
        Literal::positive(var).var() == var,
        Literal::negative(var).var() == var,
        Literal::positive(var).is_positive(),
        Literal::negative(var).is_negative(),
        Literal::positive(var).negate() == Literal::negative(var),
        Literal::negative(var).negate() == Literal::positive(var),
        Literal::from_raw(Literal::positive(var).raw()) == Literal::positive(var),
{
}

} // verus!
