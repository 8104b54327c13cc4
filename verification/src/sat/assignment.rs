use vstd::prelude::*;

use crate::akx::literal::{Literal, Var};

verus! {

#[derive(Clone, Copy, PartialEq, Eq, Debug, Structural)]
pub enum Value {
    Undef,
    True,
    False,
}

impl Value {
    #[inline]
    pub fn from_bool(b: bool) -> (v: Self)
        ensures
            v == value_of_bool(b),
    {
        if b {
            Value::True
        } else {
            Value::False
        }
    }

    #[inline]
    pub fn is_undef(self) -> (b: bool)
        ensures
            b == (self == Value::Undef),
    {
        match self {
            Value::Undef => true,
            _ => false,
        }
    }
}

pub open spec fn value_of_bool(b: bool) -> Value {
    if b {
        Value::True
    } else {
        Value::False
    }
}

/// The value of a literal, given the value of each variable.
pub open spec fn lit_val(value: Seq<Value>, l: Literal) -> Value {
    match value[l.var() as int] {
        Value::Undef => Value::Undef,
        Value::True => value_of_bool(l.is_positive()),
        Value::False => value_of_bool(!l.is_positive()),
    }
}

/// The assignment state and propagation trail.
///
/// The trail itself is the propagation queue, with `prop_head` as the cursor.
pub struct Assignment {
    /// Current value of each variable (indexed by variable id).
    pub value: Vec<Value>,
    /// Decision level at which each variable was assigned. u32::MAX = unassigned.
    pub level: Vec<u32>,
    /// Antecedent clause index for each variable, or u32::MAX.
    pub reason: Vec<u32>,
    /// Ordered assignment trail, also the propagation queue.
    pub trail: Vec<Literal>,
    /// `trail_lim[d]` = index into trail at the start of decision level d+1.
    pub trail_lim: Vec<usize>,
    /// Index of the next literal in trail to process.
    pub prop_head: usize,
    /// Position of each assigned variable in the trail.
    pub pos: Ghost<Seq<int>>,
}

impl Assignment {
    /// The number of variable slots (variable 0 included).
    pub open spec fn cap(&self) -> nat {
        self.value@.len()
    }

    /// The value of a literal.
    pub open spec fn val(&self, l: Literal) -> Value {
        lit_val(self.value@, l)
    }

    /// The trail position of a literal's variable.
    pub open spec fn at(&self, l: Literal) -> int {
        self.pos@[l.var() as int]
    }

    /// The decision level of a literal's variable.
    pub open spec fn lvl(&self, l: Literal) -> u32 {
        self.level@[l.var() as int]
    }

    /// A literal at trail position `i` with level `lv` lies in that level's
    /// segment of the trail.
    pub open spec fn in_segment(&self, i: int, lv: int) -> bool {
        &&& 0 <= lv <= self.trail_lim@.len()
        &&& (lv > 0 ==> self.trail_lim@[lv - 1] <= i)
        &&& (lv < self.trail_lim@.len() ==> i < self.trail_lim@[lv])
    }

    pub open spec fn well_formed(&self) -> bool {
        &&& self.level@.len() == self.cap()
        &&& self.reason@.len() == self.cap()
        &&& self.pos@.len() == self.cap()
        &&& self.trail_lim@.len() < u32::MAX
        &&& self.prop_head <= self.trail@.len()
        &&& forall|i: int|
            0 <= i < self.trail@.len() ==> {
                &&& (#[trigger] self.trail@[i].var()) < self.cap()
                &&& self.val(self.trail@[i]) == Value::True
                &&& self.at(self.trail@[i]) == i
                &&& self.in_segment(i, self.lvl(self.trail@[i]) as int)
            }
        &&& forall|v: int|
            0 <= v < self.cap() && #[trigger] self.value@[v] != Value::Undef ==> {
                &&& 0 <= self.pos@[v] < self.trail@.len()
                &&& self.trail@[self.pos@[v]].var() == v
            }
        &&& forall|v: int|
            0 <= v < self.cap() && #[trigger] self.value@[v] == Value::Undef ==> {
                &&& self.level@[v] == u32::MAX
                &&& self.reason@[v] == u32::MAX
            }
        &&& forall|d: int, e: int|
            0 <= d <= e < self.trail_lim@.len() ==> #[trigger] self.trail_lim@[d]
                <= #[trigger] self.trail_lim@[e]
        &&& forall|d: int|
            0 <= d < self.trail_lim@.len() ==> #[trigger] self.trail_lim@[d]
                <= self.trail@.len()
    }

    pub fn new(num_vars: u32) -> (a: Self)
        requires
            num_vars < usize::MAX,
        ensures
            a.well_formed(),
            a.cap() == num_vars + 1,
            a.trail@.len() == 0,
            a.trail_lim@.len() == 0,
            a.prop_head == 0,
            forall|v: int| 0 <= v <= num_vars ==> a.value@[v] == Value::Undef,
    {
        let cap: usize = num_vars as usize + 1;
        Assignment {
            value: vec![Value::Undef; cap],
            level: vec![u32::MAX; cap],
            reason: vec![u32::MAX; cap],
            trail: Vec::with_capacity(cap),
            trail_lim: Vec::new(),
            prop_head: 0,
            pos: Ghost(Seq::new(cap as nat, |i: int| -1)),
        }
    }

    #[inline]
    pub fn value_of(&self, var: Var) -> (v: Value)
        requires
            var < self.cap(),
        ensures
            v == self.value@[var as int],
    {
        self.value[var as usize]
    }

    #[inline]
    pub fn literal_value(&self, lit: Literal) -> (v: Value)
        requires
            lit.var() < self.cap(),
        ensures
            v == self.val(lit),
    {
        match self.value[lit.var() as usize] {
            Value::Undef => Value::Undef,
            Value::True => {
                if lit.is_positive() {
                    Value::True
                } else {
                    Value::False
                }
            },
            Value::False => {
                if lit.is_positive() {
                    Value::False
                } else {
                    Value::True
                }
            },
        }
    }

    #[inline]
    pub fn is_assigned(&self, var: Var) -> (b: bool)
        requires
            var < self.cap(),
        ensures
            b == (self.value@[var as int] != Value::Undef),
    {
        self.value[var as usize] != Value::Undef
    }

    /// Decision level at which `var` was assigned. `u32::MAX` when unassigned.
    #[inline]
    pub fn level_of(&self, var: Var) -> (l: u32)
        requires
            var < self.level@.len(),
        ensures
            l == self.level@[var as int],
    {
        self.level[var as usize]
    }

    /// Antecedent clause index for `var` (raw clause reference).
    #[inline]
    pub fn reason_of(&self, var: Var) -> (r: u32)
        requires
            var < self.reason@.len(),
        ensures
            r == self.reason@[var as int],
    {
        self.reason[var as usize]
    }

    #[inline]
    pub fn current_level(&self) -> (l: u32)
        requires
            self.trail_lim@.len() <= u32::MAX,
        ensures
            l == self.trail_lim@.len(),
    {
        self.trail_lim.len() as u32
    }

    /// Open a new decision level at the end of the trail.
    pub fn new_decision_level(&mut self)
        requires
            old(self).well_formed(),
            old(self).trail_lim@.len() + 1 < u32::MAX,
        ensures
            final(self).well_formed(),
            final(self).trail_lim@ == old(self).trail_lim@.push(old(self).trail.len()),
            final(self).value == old(self).value,
            final(self).level == old(self).level,
            final(self).reason == old(self).reason,
            final(self).trail == old(self).trail,
            final(self).prop_head == old(self).prop_head,
            final(self).pos == old(self).pos,
    {
        let n: usize = self.trail.len();
        self.trail_lim.push(n);
        assert forall|i: int| 0 <= i < self.trail@.len() implies self.in_segment(
            i,
            self.lvl(#[trigger] self.trail@[i]) as int,
        ) by {
            assert(self.trail@[i].var() < self.cap());
            assert(old(self).in_segment(i, old(self).lvl(self.trail@[i]) as int));
        }
        assert forall|i: int| 0 <= i < self.trail@.len() implies {
            &&& (#[trigger] self.trail@[i].var()) < self.cap()
            &&& self.val(self.trail@[i]) == Value::True
            &&& self.at(self.trail@[i]) == i
        } by {
            assert(old(self).trail@[i].var() < old(self).cap());
        }
    }

    /// Make an unassigned literal true at the current level.
    pub fn assign(&mut self, lit: Literal, level: u32, reason: u32)
        requires
            old(self).well_formed(),
            lit.var() < old(self).cap(),
            old(self).val(lit) == Value::Undef,
            level == old(self).trail_lim@.len(),
        ensures
            final(self).well_formed(),
            final(self).value@ == old(self).value@.update(
                lit.var() as int,
                value_of_bool(lit.is_positive()),
            ),
            final(self).level@ == old(self).level@.update(lit.var() as int, level),
            final(self).reason@ == old(self).reason@.update(lit.var() as int, reason),
            final(self).trail@ == old(self).trail@.push(lit),
            final(self).trail_lim == old(self).trail_lim,
            final(self).prop_head == old(self).prop_head,
            final(self).pos@ == old(self).pos@.update(
                lit.var() as int,
                old(self).trail@.len() as int,
            ),
            final(self).val(lit) == Value::True,
    {
        let var: usize = lit.var() as usize;
        self.value[var] = Value::from_bool(lit.is_positive());
        self.level[var] = level;
        self.reason[var] = reason;
        let ghost at: int = self.trail@.len() as int;
        self.trail.push(lit);
        proof {
            self.pos@ = self.pos@.update(var as int, at);
        }
        assert forall|i: int| 0 <= i < self.trail@.len() implies {
            &&& (#[trigger] self.trail@[i].var()) < self.cap()
            &&& self.val(self.trail@[i]) == Value::True
            &&& self.at(self.trail@[i]) == i
            &&& self.in_segment(i, self.lvl(self.trail@[i]) as int)
        } by {
            if i < old(self).trail@.len() {
                assert(old(self).trail@[i].var() < old(self).cap());
                assert(old(self).in_segment(i, old(self).lvl(self.trail@[i]) as int));
            }
        }
        assert forall|v: int|
            0 <= v < self.cap() && #[trigger] self.value@[v] != Value::Undef implies {
            &&& 0 <= self.pos@[v] < self.trail@.len()
            &&& self.trail@[self.pos@[v]].var() == v
        } by {
            if v != var {
                assert(old(self).value@[v] != Value::Undef);
            }
        }
        assert forall|v: int|
            0 <= v < self.cap() && #[trigger] self.value@[v] == Value::Undef implies {
            &&& self.level@[v] == u32::MAX
            &&& self.reason@[v] == u32::MAX
        } by {
            assert(old(self).value@[v] == Value::Undef);
        }
    }

    pub fn trail(&self) -> (t: &[Literal])
        ensures
            t@ == self.trail@,
    {
        self.trail.as_slice()
    }

    pub fn num_assigned(&self) -> (n: usize)
        ensures
            n == self.trail@.len(),
    {
        self.trail.len()
    }

    /// The trail length after undoing everything above `level`.
    pub open spec fn kept(&self, level: int) -> int {
        if level < self.trail_lim@.len() {
            self.trail_lim@[level] as int
        } else {
            self.trail@.len() as int
        }
    }

    /// Undo all assignments above `level`.
    pub fn backtrack_to(&mut self, level: u32)
        requires
            old(self).well_formed(),
        ensures
            final(self).well_formed(),
            final(self).cap() == old(self).cap(),
            final(self).pos == old(self).pos,
            final(self).trail@ == old(self).trail@.take(old(self).kept(level as int)),
            final(self).trail_lim@ == (if level < old(self).trail_lim@.len() {
                old(self).trail_lim@.take(level as int)
            } else {
                old(self).trail_lim@
            }),
            final(self).prop_head == (if old(self).prop_head <= final(self).trail@.len() {
                old(self).prop_head
            } else {
                final(self).trail.len()
            }),
            forall|v: int|
                0 <= v < old(self).cap() && old(self).value@[v] != Value::Undef
                    && old(self).pos@[v] < final(self).trail@.len() ==> {
                    &&& #[trigger] final(self).value@[v] == old(self).value@[v]
                    &&& final(self).level@[v] == old(self).level@[v]
                    &&& final(self).reason@[v] == old(self).reason@[v]
                },
            forall|v: int|
                0 <= v < old(self).cap() && (old(self).value@[v] == Value::Undef
                    || old(self).pos@[v] >= final(self).trail@.len())
                    ==> #[trigger] final(self).value@[v] == Value::Undef,
    {
        if (level as usize) >= self.trail_lim.len() {
            assert(self.trail@ =~= self.trail@.take(self.trail@.len() as int));
            return;
        }
        let target: usize = self.trail_lim[level as usize];
        while self.trail.len() > target
            invariant
                self.cap() == old(self).cap(),
                self.level@.len() == self.cap(),
                self.reason@.len() == self.cap(),
                self.pos == old(self).pos,
                self.prop_head == old(self).prop_head,
                self.trail_lim == old(self).trail_lim,
                old(self).well_formed(),
                target <= self.trail@.len() <= old(self).trail@.len(),
                self.trail@ == old(self).trail@.take(self.trail@.len() as int),
                forall|v: int|
                    0 <= v < self.cap() && old(self).value@[v] != Value::Undef
                        && old(self).pos@[v] < self.trail@.len() ==> {
                        &&& #[trigger] self.value@[v] == old(self).value@[v]
                        &&& self.level@[v] == old(self).level@[v]
                        &&& self.reason@[v] == old(self).reason@[v]
                    },
                forall|v: int|
                    0 <= v < self.cap() && (old(self).value@[v] == Value::Undef
                        || old(self).pos@[v] >= self.trail@.len()) ==> {
                        &&& #[trigger] self.value@[v] == Value::Undef
                        &&& self.level@[v] == u32::MAX
                        &&& self.reason@[v] == u32::MAX
                    },
            decreases self.trail@.len(),
        {
            let ghost last: int = self.trail@.len() - 1;
            let lit: Literal = self.trail[self.trail.len() - 1];
            assert(lit == old(self).trail@[last]);
            assert(old(self).trail@[last].var() < old(self).cap());
            self.trail.pop();
            let var: usize = lit.var() as usize;
            self.value[var] = Value::Undef;
            self.level[var] = u32::MAX;
            self.reason[var] = u32::MAX;
            assert(self.trail@ =~= old(self).trail@.take(last));
            assert forall|v: int|
                0 <= v < self.cap() && old(self).value@[v] != Value::Undef
                    && old(self).pos@[v] == last implies v == var by {
                assert(old(self).trail@[old(self).pos@[v]].var() == v);
            }
        }
        self.trail_lim.truncate(level as usize);
        if self.prop_head > self.trail.len() {
            self.prop_head = self.trail.len();
        }
        assert forall|i: int| 0 <= i < self.trail@.len() implies {
            &&& (#[trigger] self.trail@[i].var()) < self.cap()
            &&& self.val(self.trail@[i]) == Value::True
            &&& self.at(self.trail@[i]) == i
            &&& self.in_segment(i, self.lvl(self.trail@[i]) as int)
        } by {
            assert(self.trail@[i] == old(self).trail@[i]);
            assert(old(self).trail@[i].var() < old(self).cap());
            let v = self.trail@[i].var() as int;
            assert(old(self).value@[v] != Value::Undef);
            assert(self.value@[v] == old(self).value@[v]);
            let lv = old(self).lvl(self.trail@[i]) as int;
            assert(old(self).in_segment(i, lv));
            if lv > level {
                assert(old(self).trail_lim@[level as int] <= old(self).trail_lim@[lv - 1]);
            }
        }
        assert forall|v: int|
            0 <= v < self.cap() && #[trigger] self.value@[v] != Value::Undef implies {
            &&& 0 <= self.pos@[v] < self.trail@.len()
            &&& self.trail@[self.pos@[v]].var() == v
        } by {
            assert(old(self).value@[v] != Value::Undef);
        }
        assert forall|d: int| 0 <= d < self.trail_lim@.len() implies #[trigger] self.trail_lim@[d]
            <= self.trail@.len() by {
            assert(old(self).trail_lim@[d] <= old(self).trail_lim@[level as int]);
        }
    }
}

} // verus!
