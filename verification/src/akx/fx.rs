//! Fast hashing: the hasher and the key sets of `rustc_hash`.

use vstd::prelude::*;

use rustc_hash::{FxHashSet, FxHasher};
use std::hash::Hasher;

verus! {

/// The hasher of `rustc_hash`.
#[verifier::external_type_specification]
#[verifier::external_body]
pub struct ExFxHasher(rustc_hash::FxHasher);

/// The hasher factory of `rustc_hash`, as it stands in the type of its sets.
#[verifier::external_type_specification]
#[verifier::external_body]
pub struct ExFxBuildHasher(rustc_hash::FxBuildHasher);

/// The words that were written into a hasher, in order.
pub uninterp spec fn fx_words(h: FxHasher) -> Seq<u64>;

/// The hash that a hasher makes of the words written into it, on a machine
/// with the given number of bits in a pointer.
pub uninterp spec fn fx_digest(pointer_bits: nat, words: Seq<u64>) -> u64;

/// `FxHasher::default`: nothing written yet.
#[verifier::external_body]
fn fx_start() -> (h: FxHasher)
    ensures
        fx_words(h) == Seq::<u64>::empty(),
{
    FxHasher::default()
}

/// `FxHasher::write_u64`: one more word.
#[verifier::external_body]
fn fx_write(h: &mut FxHasher, word: u64)
    ensures
        fx_words(*final(h)) == fx_words(*old(h)).push(word),
{
    h.write_u64(word);
}

/// `FxHasher::finish`: a number that the written words and the width of a
/// pointer determine.
#[verifier::external_body]
fn fx_finish(h: &FxHasher) -> (d: u64)
    ensures
        d == fx_digest(usize::BITS as nat, fx_words(*h)),
{
    h.finish()
}

/// The hash of a sequence of words.
pub open spec fn hash_of(words: Seq<u64>) -> u64 {
    fx_digest(usize::BITS as nat, words)
}

/// Hash a sequence of words.
pub fn hash_words(words: &[u64]) -> (d: u64)
    ensures
        d == hash_of(words@),
{
    let mut h: FxHasher = fx_start();
    let mut i: usize = 0;
    assert(words@.take(0) =~= Seq::<u64>::empty());
    while i < words.len()
        invariant
            i <= words@.len(),
            fx_words(h) == words@.take(i as int),
        decreases words@.len() - i,
    {
        fx_write(&mut h, words[i]);
        assert(words@.take(i + 1) =~= words@.take(i as int).push(words@[i as int]));
        i += 1;
    }
    assert(words@.take(words@.len() as int) =~= words@);
    fx_finish(&h)
}

/// `FxHashSet::default`: the empty set.
#[verifier::external_body]
pub(crate) fn set_new() -> (s: FxHashSet<u64>)
    ensures
        s@ == Set::<u64>::empty(),
{
    FxHashSet::default()
}

/// `HashSet::contains` on a set of `rustc_hash`.
#[verifier::external_body]
pub(crate) fn set_contains(s: &FxHashSet<u64>, key: u64) -> (b: bool)
    ensures
        b == s@.contains(key),
{
    s.contains(&key)
}

/// `HashSet::insert` on a set of `rustc_hash`.
#[verifier::external_body]
pub(crate) fn set_insert(s: &mut FxHashSet<u64>, key: u64)
    ensures
        final(s)@ == old(s)@.insert(key),
{
    s.insert(key);
}

/// `HashSet::remove` on a set of `rustc_hash`.
#[verifier::external_body]
pub(crate) fn set_remove(s: &mut FxHashSet<u64>, key: u64)
    ensures
        final(s)@ == old(s)@.remove(key),
{
    s.remove(&key);
}

} // verus!
