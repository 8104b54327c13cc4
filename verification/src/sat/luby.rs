//! The Luby restart sequence.

use vstd::prelude::*;

verus! {

/// The lowest set bit of `u`.
pub open spec fn lowest_bit(u: u64) -> u64 {
    u & ((!u).wrapping_add(1))
}

/// The generator state after `(u, v)`: `v` doubles until it has reached the
/// lowest set bit of `u`, upon which `u` advances and `v` starts over at 1.
pub open spec fn advanced(u: u64, v: u64) -> (u64, u64) {
    if v == lowest_bit(u) {
        (u.wrapping_add(1), 1)
    } else {
        (u, v << 1)
    }
}

/// Advance the Luby generator and return the next element.
/// Generates: 1, 1, 2, 1, 1, 2, 4, 1, 1, 2, 1, 1, 2, 4, 8, ...
///
/// The state `(u, v)` emits `v`.
pub fn luby_next(u: &mut u64, v: &mut u64) -> (r: u64)
    ensures
        r == *old(v),
        (*final(u), *final(v)) == advanced(*old(u), *old(v)),
{
    let result: u64 = *v;
    if *u & (!*u).wrapping_add(1) == *v {
        *u = (*u).wrapping_add(1);
        *v = 1;
    } else {
        *v = *v << 1;
    }
    result
}

} // verus!
