//! Variable activities that steer branching.

use vstd::prelude::*;

use crate::akx::literal::{Literal, Var};
use crate::sat::assignment::{Assignment, Value};

verus! {

/// Activities are scaled down once one of them passes this bound.
pub const RESCALE_ABOVE: u64 = 0x4000_0000_0000_0000;

/// How far activities are shifted down when they are scaled.
pub const RESCALE_SHIFT: u64 = 0x1_0000_0000;

/// The increment of the first conflict.
pub const FIRST_INCREMENT: u64 = 0x10_0000;

/// `score[var]` is bumped on each conflict that `var` takes part in. The
/// increment grows by a factor of 20/19 (a decay of 0.95) per conflict, so
/// recent conflicts weigh more. Scores are fixed-point numbers.
pub struct Activities {
    pub score: Vec<u64>,
    pub increment: u64,
}

/// Scores and the increment.
#[verifier::ext_equal]
pub struct Standing {
    pub score: Seq<u64>,
    pub increment: u64,
}

/// Everything scaled down by the same factor.
pub open spec fn rescaled(s: Standing) -> Standing {
    Standing {
        score: s.score.map_values(|x: u64| x / RESCALE_SHIFT),
        increment: s.increment / RESCALE_SHIFT,
    }
}

/// One variable's score raised by the increment.
pub open spec fn bumped(s: Standing, var: Var) -> Standing {
    let raised = Standing {
        score: s.score.update(var as int, (s.score[var as int] + s.increment) as u64),
        ..s
    };
    if raised.score[var as int] > RESCALE_ABOVE {
        rescaled(raised)
    } else {
        raised
    }
}

/// The scores of some variables raised, one after the other.
pub open spec fn bumped_all(s: Standing, vars: Seq<Var>) -> Standing
    decreases vars.len(),
{
    if vars.len() == 0 {
        s
    } else {
        bumped(bumped_all(s, vars.drop_last()), vars.last())
    }
}

/// The increment grown by a nineteenth.
pub open spec fn decayed(s: Standing) -> Standing {
    let grown = Standing { increment: (s.increment + s.increment / 19 + 1) as u64, ..s };
    if grown.increment > RESCALE_ABOVE {
        rescaled(grown)
    } else {
        grown
    }
}

impl Activities {
    pub open spec fn standing(&self) -> Standing {
        Standing { score: self.score@, increment: self.increment }
    }

    pub open spec fn well_formed(&self) -> bool {
        &&& self.increment <= RESCALE_ABOVE
        &&& forall|v: int| 0 <= v < self.score@.len() ==> #[trigger] self.score@[v] <= RESCALE_ABOVE
    }

    pub fn new(num_vars: u32) -> (s: Self)
        requires
            num_vars < usize::MAX,
        ensures
            s.well_formed(),
            s.score@.len() == num_vars + 1,
            forall|v: int| 0 <= v <= num_vars ==> s.score@[v] == 0,
    {
        Activities { score: vec![0; num_vars as usize + 1], increment: FIRST_INCREMENT }
    }

    /// Scale every score and the increment down by the same factor.
    fn rescale(&mut self)
        ensures
            final(self).well_formed(),
            final(self).standing() == rescaled(old(self).standing()),
    {
        let n: usize = self.score.len();
        let mut i: usize = 0;
        while i < n
            invariant
                i <= n,
                n == self.score@.len(),
                n == old(self).score@.len(),
                self.increment == old(self).increment,
                forall|v: int|
                    0 <= v < i ==> #[trigger] self.score@[v] == old(self).score@[v]
                        / RESCALE_SHIFT,
                forall|v: int| i <= v < n ==> #[trigger] self.score@[v] == old(self).score@[v],
            decreases n - i,
        {
            self.score[i] = self.score[i] / RESCALE_SHIFT;
            i += 1;
        }
        self.increment = self.increment / RESCALE_SHIFT;
        assert(self.standing() =~= rescaled(old(self).standing()));
    }

    /// Raise the score of a variable by the increment; scale everything down
    /// if it grew too large.
    pub fn bump(&mut self, var: Var)
        requires
            old(self).well_formed(),
            var < old(self).score@.len(),
        ensures
            final(self).well_formed(),
            final(self).score@.len() == old(self).score@.len(),
            final(self).standing() == bumped(old(self).standing(), var),
    {
        let i: usize = var as usize;
        let raised: u64 = self.score[i] + self.increment;
        self.score[i] = raised;
        if raised > RESCALE_ABOVE {
            self.rescale();
        }
    }

    /// Let the increment grow, which makes earlier bumps weigh less.
    pub fn decay(&mut self)
        requires
            old(self).well_formed(),
        ensures
            final(self).well_formed(),
            final(self).score@.len() == old(self).score@.len(),
            final(self).standing() == decayed(old(self).standing()),
    {
        self.increment = self.increment + self.increment / 19 + 1;
        if self.increment > RESCALE_ABOVE {
            self.rescale();
        }
    }

    /// The unassigned variable with the highest score (the last one of
    /// several), as a positive literal.
    pub fn pick_branch(&self, a: &Assignment) -> (lit: Option<Literal>)
        requires
            0 < self.score@.len() <= 0x8000_0000,
            a.cap() == self.score@.len(),
        ensures
            lit is None <==> forall|v: int|
                1 <= v < a.cap() ==> #[trigger] a.value@[v] != Value::Undef,
            lit matches Some(l) ==> {
                &&& 1 <= l.var() < a.cap()
                &&& l.is_positive()
                &&& a.value@[l.var() as int] == Value::Undef
                &&& forall|v: int|
                    1 <= v < a.cap() && #[trigger] a.value@[v] == Value::Undef ==> {
                        ||| self.score@[v] < self.score@[l.var() as int]
                        ||| self.score@[v] == self.score@[l.var() as int] && v <= l.var()
                    }
            },
    {
        let n: usize = self.score.len();
        let mut best: usize = 0;
        let mut v: usize = 1;
        while v < n
            invariant
                n == self.score@.len(),
                n <= 0x8000_0000,
                a.cap() == n,
                1 <= v <= n,
                best < v,
                best == 0 ==> forall|u: int|
                    1 <= u < v ==> #[trigger] a.value@[u] != Value::Undef,
                best > 0 ==> a.value@[best as int] == Value::Undef,
                best > 0 ==> forall|u: int|
                    1 <= u < v && #[trigger] a.value@[u] == Value::Undef ==> {
                        ||| self.score@[u] < self.score@[best as int]
                        ||| self.score@[u] == self.score@[best as int] && u <= best
                    },
            decreases n - v,
        {
            if !a.is_assigned(v as u32) {
                if best == 0 || self.score[v] >= self.score[best] {
                    best = v;
                }
            }
            v += 1;
        }
        if best == 0 {
            None
        } else {
            Some(Literal::positive(best as u32))
        }
    }
}

} // verus!
