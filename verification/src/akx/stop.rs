//! Watching for a request to stop, or for time to run out.

use vstd::prelude::*;

use crate::akx::work::is_tripped;
use crate::clock;
use std::sync::atomic::AtomicBool;
use std::sync::Arc;
use std::time::Instant;

verus! {

/// Where the readings of a watch come from.
pub enum Source {
    /// There is nothing to wait for.
    Never,
    /// A shutdown token, which any thread may set.
    Token(Arc<AtomicBool>),
    /// The clock: it is time to stop once this moment has been reached.
    Deadline(Instant),
    /// The clock: it is time to stop once so many nanoseconds have passed since
    /// a moment.
    Elapsed(Instant, u128),
    /// These readings, and then no request.
    Listed(Vec<bool>),
}

/// A watch for a reason to stop, which remembers what it has read.
pub struct Stop {
    source: Source,
    next: usize,
    readings: Ghost<Seq<bool>>,
    moments: Ghost<Seq<Instant>>,
}

/// What the clock says at a moment: whether the deadline has been reached, or
/// the time has passed.
pub open spec fn over_at(source: Source, moment: Instant) -> bool {
    match source {
        Source::Deadline(d) => clock::nanos_from(moment, d) == 0,
        Source::Elapsed(start, nanos) => clock::nanos_from(start, moment) >= nanos,
        _ => false,
    }
}

/// The watch that a deadline asks for.
pub open spec fn until(deadline: Option<Instant>) -> Source {
    match deadline {
        Some(d) => Source::Deadline(d),
        None => Source::Never,
    }
}

/// Reading `k` of a list; there is no request beyond its end.
pub open spec fn listed_at(list: Seq<bool>, k: int) -> bool {
    0 <= k < list.len() && list[k]
}

/// Nothing but `false` has been read in between.
pub open spec fn stayed_clear(before: Seq<bool>, after: Seq<bool>) -> bool {
    &&& before.is_prefix_of(after)
    &&& forall|k: int| before.len() <= k < after.len() ==> !#[trigger] after[k]
}

/// The last reading was `true`, and no other in between.
pub open spec fn got_tripped(before: Seq<bool>, after: Seq<bool>) -> bool {
    &&& after.len() > before.len()
    &&& after.last()
    &&& stayed_clear(before, after.drop_last())
}

/// Clear readings one after the other.
pub proof fn clear_then_clear(a: Seq<bool>, b: Seq<bool>, c: Seq<bool>)
    requires
        stayed_clear(a, b),
    ensures
        stayed_clear(b, c) ==> stayed_clear(a, c),
        got_tripped(b, c) ==> got_tripped(a, c),
{
    if stayed_clear(b, c) {
        assert(c.take(a.len() as int) =~= a) by {
            assert(b.take(a.len() as int) =~= a);
        }
        assert forall|k: int| a.len() <= k < c.len() implies !#[trigger] c[k] by {
            if k < b.len() {
                assert(c[k] == b[k]);
            }
        }
    }
    if got_tripped(b, c) {
        let d = c.drop_last();
        assert(d.take(a.len() as int) =~= a) by {
            assert(b.take(a.len() as int) =~= a);
        }
        assert forall|k: int| a.len() <= k < d.len() implies !#[trigger] d[k] by {
            if k < b.len() {
                assert(d[k] == b[k]);
            }
        }
    }
}

/// One more reading.
pub proof fn one_reading(a: Seq<bool>, b: bool)
    ensures
        !b ==> stayed_clear(a, a.push(b)),
        b ==> got_tripped(a, a.push(b)),
        stayed_clear(a, a),
{
    assert(a.push(b).take(a.len() as int) =~= a);
    assert(a.push(b).drop_last() =~= a);
}

impl Stop {
    /// Everything read so far.
    pub closed spec fn readings(&self) -> Seq<bool> {
        self.readings@
    }

    pub closed spec fn source(&self) -> Source {
        self.source
    }

    /// When the clock was read, for each reading of a watch of the clock.
    pub closed spec fn moments(&self) -> Seq<Instant> {
        self.moments@
    }

    /// The readings are those of the source.
    pub closed spec fn well_formed(&self) -> bool {
        match self.source {
            Source::Never => forall|k: int|
                0 <= k < self.readings@.len() ==> !#[trigger] self.readings@[k],
            Source::Token(_) => true,
            Source::Deadline(_) | Source::Elapsed(_, _) => {
                &&& self.moments@.len() == self.readings@.len()
                &&& forall|k: int|
                    0 <= k < self.readings@.len() ==> #[trigger] self.readings@[k] == over_at(
                        self.source,
                        self.moments@[k],
                    )
            },
            Source::Listed(list) => {
                &&& self.next <= list@.len()
                &&& self.readings@.len() >= self.next
                &&& self.readings@.len() > self.next ==> self.next == list@.len()
                &&& forall|k: int|
                    0 <= k < self.readings@.len() ==> #[trigger] self.readings@[k] == listed_at(
                        list@,
                        k,
                    )
            },
        }
    }

    /// What the readings show of the source: there is never a request without
    /// one, a reading of the clock is right at its moment, and listed readings
    /// come in their order.
    pub proof fn readings_are(&self)
        requires
            self.well_formed(),
        ensures
            self.source() is Never ==> forall|k: int|
                0 <= k < self.readings().len() ==> !#[trigger] self.readings()[k],
            self.source() is Deadline || self.source() is Elapsed ==> {
                &&& self.moments().len() == self.readings().len()
                &&& forall|k: int|
                    0 <= k < self.readings().len() ==> #[trigger] self.readings()[k] == over_at(
                        self.source(),
                        self.moments()[k],
                    )
            },
            self.source() matches Source::Listed(list) ==> forall|k: int|
                0 <= k < self.readings().len() ==> #[trigger] self.readings()[k] == listed_at(
                    list@,
                    k,
                ),
    {
    }

    /// A watch that never sees a request.
    pub fn never() -> (s: Self)
        ensures
            s.well_formed(),
            s.source() is Never,
            s.readings().len() == 0,
    {
        Stop::with(Source::Never)
    }

    /// A watch of a shutdown token.
    pub fn on(token: Arc<AtomicBool>) -> (s: Self)
        ensures
            s.well_formed(),
            s.source() == Source::Token(token),
            s.readings().len() == 0,
    {
        Stop::with(Source::Token(token))
    }

    /// A watch of the clock for a deadline, if there is one.
    pub fn at(deadline: Option<Instant>) -> (s: Self)
        ensures
            s.well_formed(),
            s.source() == until(deadline),
            s.readings().len() == 0,
    {
        Stop::with(
            match deadline {
                Some(d) => Source::Deadline(d),
                None => Source::Never,
            },
        )
    }

    /// A watch of the clock for some time to pass.
    pub fn after(start: Instant, nanos: u128) -> (s: Self)
        ensures
            s.well_formed(),
            s.source() == Source::Elapsed(start, nanos),
            s.readings().len() == 0,
    {
        Stop::with(Source::Elapsed(start, nanos))
    }

    fn with(source: Source) -> (s: Self)
        ensures
            s.well_formed(),
            s.source() == source,
            s.readings().len() == 0,
    {
        Stop { source, next: 0, readings: Ghost(Seq::empty()), moments: Ghost(Seq::empty()) }
    }

    /// A watch whose readings are given.
    pub fn given(list: Vec<bool>) -> (s: Self)
        ensures
            s.well_formed(),
            s.source() == Source::Listed(list),
            s.readings().len() == 0,
    {
        Stop::with(Source::Listed(list))
    }

    /// Look whether there is a reason to stop.
    pub fn read(&mut self) -> (b: bool)
        requires
            old(self).well_formed(),
        ensures
            final(self).well_formed(),
            final(self).source() == old(self).source(),
            final(self).readings() == old(self).readings().push(b),
    {
        let moment: Option<Instant> = match &self.source {
            Source::Deadline(_) | Source::Elapsed(_, _) => Some(clock::now()),
            _ => None,
        };
        let b: bool = match &self.source {
            Source::Never => false,
            Source::Token(token) => is_tripped(token),
            Source::Deadline(d) => match &moment {
                Some(m) => clock::reached(m, d),
                None => false,
            },
            Source::Elapsed(start, nanos) => match &moment {
                Some(m) => clock::nanos_between(start, m) >= *nanos,
                None => false,
            },
            Source::Listed(list) => if self.next < list.len() {
                list[self.next]
            } else {
                false
            },
        };
        if let Source::Listed(list) = &self.source {
            if self.next < list.len() {
                self.next += 1;
            }
        }
        proof {
            self.readings@ = self.readings@.push(b);
            if let Some(m) = moment {
                self.moments@ = self.moments@.push(m);
            }
        }
        b
    }
}

} // verus!
