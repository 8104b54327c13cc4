//! Readings of the monotonic clock.

use vstd::prelude::*;

use std::time::Instant;

verus! {

/// A reading of the monotonic clock (`std::time::Instant`).
#[verifier::external_type_specification]
#[verifier::external_body]
pub struct ExInstant(std::time::Instant);

/// The nanoseconds from one reading to a later one, or 0 if it is not later.
pub uninterp spec fn nanos_from(earlier: Instant, later: Instant) -> u128;

/// `Instant::now`: the current reading. Nothing is known of it.
#[verifier::external_body]
pub(crate) fn now() -> Instant {
    Instant::now()
}

/// `Instant::saturating_duration_since`, in nanoseconds: a value that the two
/// readings determine.
#[verifier::external_body]
pub(crate) fn nanos_between(earlier: &Instant, later: &Instant) -> (n: u128)
    ensures
        n == nanos_from(*earlier, *later),
{
    later.saturating_duration_since(*earlier).as_nanos()
}

/// `Instant::checked_add`: the reading `ms` milliseconds after `start`, or
/// `None` if no reading so much later can be represented.
#[verifier::external_body]
pub(crate) fn after_millis(start: &Instant, ms: u64) -> (t: Option<Instant>)
    ensures
        match t {
            Some(later) => nanos_from(*start, later) == ms * 1_000_000,
            None => forall|later: Instant| #[trigger]
                nanos_from(*start, later) != ms * 1_000_000,
        },
{
    start.checked_add(std::time::Duration::from_millis(ms))
}

/// Whether the reading `now` is at or past `deadline`.
pub fn reached(now: &Instant, deadline: &Instant) -> (r: bool)
    ensures
        r == (nanos_from(*now, *deadline) == 0),
{
    nanos_between(now, deadline) == 0
}

} // verus!
