use vstd::prelude::*;

use crate::akx::literal::Literal;
use smallvec::SmallVec;

verus! {

/// A short vector of literals, held inline up to eight of them
/// (`smallvec::SmallVec`).
#[derive(Debug)]
#[verifier::external_body]
pub struct LitVec {
    inner: SmallVec<[Literal; 8]>,
}

/// The literals that a `LitVec` holds, in order.
pub uninterp spec fn litvec_contents(v: LitVec) -> Seq<Literal>;

impl View for LitVec {
    type V = Seq<Literal>;

    open spec fn view(&self) -> Seq<Literal> {
        litvec_contents(*self)
    }
}

impl LitVec {
    /// `SmallVec::new`: the result holds nothing.
    #[verifier::external_body]
    pub(crate) fn new() -> (v: Self)
        ensures
            litvec_contents(v) == Seq::<Literal>::empty(),
    {
        LitVec { inner: SmallVec::new() }
    }

    /// `SmallVec::from_slice`: the result holds the slice's literals in order.
    #[verifier::external_body]
    pub(crate) fn copy_of(lits: &[Literal]) -> (v: Self)
        ensures
            litvec_contents(v) == lits@,
    {
        LitVec { inner: SmallVec::from_slice(lits) }
    }

    /// `SmallVec::as_slice`: the slice shows the contents in order.
    #[verifier::external_body]
    pub(crate) fn slice(&self) -> (lits: &[Literal])
        ensures
            lits@ == litvec_contents(*self),
    {
        self.inner.as_slice()
    }

    /// `SmallVec::push`: one more literal at the end.
    #[verifier::external_body]
    pub(crate) fn append(&mut self, lit: Literal)
        ensures
            litvec_contents(*final(self)) == litvec_contents(*old(self)).push(lit),
    {
        self.inner.push(lit);
    }

    /// `swap` on the slice that `SmallVec::as_mut_slice` gives: the literals
    /// at the two positions change places.
    #[verifier::external_body]
    pub(crate) fn exchange(&mut self, i: usize, j: usize)
        requires
            i < litvec_contents(*old(self)).len(),
            j < litvec_contents(*old(self)).len(),
        ensures
            litvec_contents(*final(self)) == litvec_contents(*old(self)).update(
                i as int,
                litvec_contents(*old(self))[j as int],
            ).update(j as int, litvec_contents(*old(self))[i as int]),
    {
        self.inner.as_mut_slice().swap(i, j);
    }

    /// A vector of the given literals.
    pub fn from_slice(lits: &[Literal]) -> (v: Self)
        ensures
            v@ == lits@,
    {
        LitVec::copy_of(lits)
    }

    /// The literals as a slice.
    pub fn as_slice(&self) -> (lits: &[Literal])
        ensures
            lits@ == self@,
    {
        self.slice()
    }

    pub fn len(&self) -> (n: usize)
        ensures
            n == self@.len(),
    {
        self.slice().len()
    }

    pub fn is_empty(&self) -> (b: bool)
        ensures
            b == (self@.len() == 0),
    {
        self.slice().len() == 0
    }

    /// The literal at a position.
    pub fn at(&self, i: usize) -> (l: Literal)
        requires
            i < self@.len(),
        ensures
            l == self@[i as int],
    {
        self.slice()[i]
    }

    pub fn push(&mut self, lit: Literal)
        ensures
            final(self)@ == old(self)@.push(lit),
    {
        self.append(lit);
    }

    pub fn swap(&mut self, i: usize, j: usize)
        requires
            i < old(self)@.len(),
            j < old(self)@.len(),
        ensures
            final(self)@ == old(self)@.update(i as int, old(self)@[j as int]).update(
                j as int,
                old(self)@[i as int],
            ),
    {
        self.exchange(i, j);
    }

    /// Whether a literal occurs.
    pub fn contains(&self, lit: Literal) -> (b: bool)
        ensures
            b == self@.contains(lit),
    {
        slice_contains(self.slice(), lit)
    }
}

impl Clone for LitVec {
    fn clone(&self) -> (v: Self)
        ensures
            v@ == self@,
    {
        LitVec::copy_of(self.slice())
    }
}

/// Whether a literal occurs in a slice.
pub fn slice_contains(lits: &[Literal], lit: Literal) -> (b: bool)
    ensures
        b == lits@.contains(lit),
{
    let mut i: usize = 0;
    while i < lits.len()
        invariant
            i <= lits@.len(),
            forall|j: int| 0 <= j < i ==> lits@[j] != lit,
        decreases lits@.len() - i,
    {
        if lits[i] == lit {
            return true;
        }
        i += 1;
    }
    false
}

/// Whether two slices hold the same literals in the same order.
pub fn slice_eq(a: &[Literal], b: &[Literal]) -> (r: bool)
    ensures
        r == (a@ == b@),
{
    if a.len() != b.len() {
        return false;
    }
    let mut i: usize = 0;
    while i < a.len()
        invariant
            i <= a@.len(),
            a@.len() == b@.len(),
            forall|j: int| 0 <= j < i ==> a@[j] == b@[j],
        decreases a@.len() - i,
    {
        if a[i] != b[i] {
            return false;
        }
        i += 1;
    }
    assert(a@ =~= b@);
    true
}

} // verus!
