//! Efficient context structures for the import predicate.
//!
//! Two pre-filters that avoid the subset merge in most cases:
//!
//! - `BloomFilter` over a worker's active context. Used to pre-screen an
//!   assumption set: if the filter reports an assumption literal definitely
//!   absent, the object is skipped before the exact merge. A Bloom filter
//!   never produces false negatives, so skipping on "definitely absent" is
//!   always sound.
//!
//! - `ZobristContext` computes a rolling XOR fingerprint of the context. Order
//!   independent and incrementally maintainable, so workers can publish a
//!   context hash with each export.

use vstd::prelude::*;

use crate::akx::literal::Literal;

verus! {

/// What SplitMix64 adds to its state per step.
pub const GOLDEN: u64 = 0x9E37_79B9_7F4A_7C15;

const MIX_A: u64 = 0xBF58_476D_1CE4_E5B9;

const MIX_B: u64 = 0x94D0_49BB_1331_11EB;

/// The output function of SplitMix64.
pub open spec fn mixed(state: u64) -> u64 {
    let a = (state ^ (state >> 30)).wrapping_mul(0xBF58_476D_1CE4_E5B9);
    let b = (a ^ (a >> 27)).wrapping_mul(0x94D0_49BB_1331_11EB);
    b ^ (b >> 31)
}

/// A simple splitmix64-based deterministic PRNG used to build the Bloom hash
/// functions and the Zobrist table deterministically (so all workers agree on
/// fingerprints without exchanging random tables).
pub struct SplitMix64 {
    state: u64,
}

impl SplitMix64 {
    pub closed spec fn state(&self) -> u64 {
        self.state
    }

    pub fn new(seed: u64) -> (r: Self)
        ensures
            r.state() == seed,
    {
        SplitMix64 { state: seed }
    }

    pub fn next_u64(&mut self) -> (r: u64)
        ensures
            final(self).state() == old(self).state().wrapping_add(GOLDEN),
            r == mixed(final(self).state()),
    {
        self.state = self.state.wrapping_add(GOLDEN);
        let mut z: u64 = self.state;
        z = (z ^ (z >> 30)).wrapping_mul(MIX_A);
        z = (z ^ (z >> 27)).wrapping_mul(MIX_B);
        z ^ (z >> 31)
    }

    /// A `u64` hash of `x` (deterministic across processes).
    pub fn hash64(x: u64) -> (r: u64)
        ensures
            r == mixed(x.wrapping_add(GOLDEN)),
    {
        let mut z: u64 = x.wrapping_add(GOLDEN);
        z = (z ^ (z >> 30)).wrapping_mul(MIX_A);
        z = (z ^ (z >> 27)).wrapping_mul(MIX_B);
        z ^ (z >> 31)
    }
}

/// A dense vector of bits.
#[derive(Debug, Clone)]
struct BitVec {
    len_bits: usize,
    words: Vec<u64>,
}

/// Whether bit `b` of a word is set.
spec fn word_bit(w: u64, b: u64) -> bool {
    w & (1u64 << b) != 0
}

impl BitVec {
    spec fn well_formed(&self) -> bool {
        self.words@.len() * 64 >= self.len_bits
    }

    spec fn bit(&self, idx: int) -> bool {
        0 <= idx < self.len_bits && word_bit(self.words@[idx / 64], (idx % 64) as u64)
    }

    fn new(len_bits: usize) -> (v: Self)
        ensures
            v.well_formed(),
            v.len_bits == len_bits,
            forall|i: int| !v.bit(i),
    {
        let extra: usize = if len_bits % 64 != 0 {
            1
        } else {
            0
        };
        let v = BitVec { len_bits, words: vec![0; len_bits / 64 + extra] };
        assert forall|i: int| !v.bit(i) by {
            if 0 <= i < len_bits {
                let b = (i % 64) as u64;
                assert(v.words@[i / 64] == 0);
                assert(0u64 & (1u64 << b) == 0) by (bit_vector);
            }
        }
        v
    }

    /// Set a bit; an index beyond the end has no effect.
    fn set(&mut self, idx: usize)
        requires
            old(self).well_formed(),
        ensures
            final(self).well_formed(),
            final(self).len_bits == old(self).len_bits,
            forall|i: int|
                #[trigger] final(self).bit(i) == (old(self).bit(i) || (i == idx && idx
                    < old(self).len_bits)),
    {
        if idx >= self.len_bits {
            return ;
        }
        let w: usize = idx / 64;
        let b: u64 = (idx % 64) as u64;
        let before: u64 = self.words[w];
        let after: u64 = before | (1u64 << b);
        self.words[w] = after;
        assert forall|i: int| #[trigger] self.bit(i) == (old(self).bit(i) || i == idx) by {
            if 0 <= i < self.len_bits {
                let c = (i % 64) as u64;
                if i / 64 == w {
                    assert(((before | (1u64 << b)) & (1u64 << c) != 0) == (before & (1u64 << c)
                        != 0 || b == c)) by (bit_vector)
                        requires
                            b < 64,
                            c < 64,
                    ;
                    assert(b == c <==> i == idx);
                }
            }
        }
    }

    fn get(&self, idx: usize) -> (r: bool)
        requires
            self.well_formed(),
        ensures
            r == self.bit(idx as int),
    {
        if idx >= self.len_bits {
            return false;
        }
        let b: u64 = (idx % 64) as u64;
        self.words[idx / 64] & (1u64 << b) != 0
    }
}

/// A Bloom filter over a universe of literals.
///
/// `num_bits` (the filter size in bits) and `num_hashes` (k hash functions)
/// control the false-positive rate. The filter never returns false negatives:
/// `maybe_contains` returning `false` means the element is definitely absent.
#[derive(Debug, Clone)]
pub struct BloomFilter {
    bits: BitVec,
    num_hashes: u32,
}

/// The position that hash function `i` gives to a literal in a filter of
/// `len` bits.
pub open spec fn bloom_index(lit: Literal, i: u32, len: u64) -> int {
    let raw = lit.0 as u64;
    let h1 = mixed(raw.wrapping_add(GOLDEN));
    let h = mixed((raw ^ GOLDEN).wrapping_add(GOLDEN));
    let h2 = if h == 0 {
        1
    } else {
        h
    };
    h1.wrapping_add(h2.wrapping_mul(i as u64)) as int % len as int
}

impl BloomFilter {
    pub closed spec fn well_formed(&self) -> bool {
        self.bits.well_formed() && self.num_hashes >= 1
    }

    /// Whether a bit of the filter is set.
    pub closed spec fn bit(&self, i: int) -> bool {
        self.bits.bit(i)
    }

    /// The size in bits.
    pub closed spec fn size(&self) -> usize {
        self.bits.len_bits
    }

    /// The number of hash functions.
    pub closed spec fn hashes(&self) -> u32 {
        self.num_hashes
    }

    /// The filter does not rule the literal out. A filter without bits rules
    /// nothing out.
    pub open spec fn maybe(&self, lit: Literal) -> bool {
        self.size() == 0 || forall|i: u32|
            i < self.hashes() ==> self.bit(#[trigger] bloom_index(lit, i, self.size() as u64))
    }

    /// Create an empty filter with `num_bits` bits and `num_hashes` hash
    /// functions. Sensible defaults: ~10 bits per expected element, 4 hashes.
    pub fn new(num_bits: usize, num_hashes: u32) -> (f: Self)
        ensures
            f.well_formed(),
            f.size() == num_bits,
            f.hashes() == (if num_hashes == 0 { 1 } else { num_hashes }),
            forall|i: int| !(#[trigger] f.bit(i)),
    {
        let n: u32 = if num_hashes == 0 {
            1
        } else {
            num_hashes
        };
        BloomFilter { bits: BitVec::new(num_bits), num_hashes: n }
    }

    /// Build a filter containing the given context literals.
    pub fn over(lits: &[Literal], num_bits: usize, num_hashes: u32) -> (f: Self)
        ensures
            f.well_formed(),
            f.size() == num_bits,
            f.hashes() == (if num_hashes == 0 { 1 } else { num_hashes }),
            forall|k: int| 0 <= k < lits@.len() ==> f.maybe(#[trigger] lits@[k]),
            forall|b: int| #[trigger]
                f.bit(b) ==> exists|k: int, i: u32|
                    0 <= k < lits@.len() && i < f.hashes() && b == #[trigger] bloom_index(
                        lits@[k],
                        i,
                        num_bits as u64,
                    ),
    {
        let mut f = BloomFilter::new(num_bits, num_hashes);
        let mut i: usize = 0;
        while i < lits.len()
            invariant
                i <= lits@.len(),
                f.well_formed(),
                f.size() == num_bits,
                f.hashes() == (if num_hashes == 0 { 1 } else { num_hashes }),
                forall|k: int| 0 <= k < i ==> f.maybe(#[trigger] lits@[k]),
                forall|b: int| #[trigger]
                    f.bit(b) ==> exists|k: int, h: u32|
                        0 <= k < i && h < f.hashes() && b == #[trigger] bloom_index(
                            lits@[k],
                            h,
                            num_bits as u64,
                        ),
            decreases lits@.len() - i,
        {
            let ghost before = f;
            f.insert(lits[i]);
            assert forall|k: int| 0 <= k < i + 1 implies f.maybe(#[trigger] lits@[k]) by {
                if k < i {
                    assert(before.maybe(lits@[k]));
                }
            }
            assert forall|b: int| #[trigger] f.bit(b) implies exists|k: int, h: u32|
                0 <= k < i + 1 && h < f.hashes() && b == #[trigger] bloom_index(
                    lits@[k],
                    h,
                    num_bits as u64,
                ) by {
                if before.bit(b) {
                    let (k, h) = choose|k: int, h: u32|
                        0 <= k < i && h < before.hashes() && b == #[trigger] bloom_index(
                            lits@[k],
                            h,
                            num_bits as u64,
                        );
                    assert(b == bloom_index(lits@[k], h, num_bits as u64));
                } else {
                    let h = choose|h: u32|
                        h < f.hashes() && b == #[trigger] bloom_index(
                            lits@[i as int],
                            h,
                            num_bits as u64,
                        );
                    assert(b == bloom_index(lits@[i as int], h, num_bits as u64));
                }
            }
            i += 1;
        }
        f
    }

    /// The number of bits in the filter.
    pub fn num_bits(&self) -> (n: usize)
        ensures
            n == self.size(),
    {
        self.bits.len_bits
    }

    pub fn insert(&mut self, lit: Literal)
        requires
            old(self).well_formed(),
        ensures
            final(self).well_formed(),
            final(self).size() == old(self).size(),
            final(self).hashes() == old(self).hashes(),
            final(self).maybe(lit),
            forall|l: Literal| #[trigger] old(self).maybe(l) ==> final(self).maybe(l),
            forall|b: int| #[trigger]
                final(self).bit(b) == (old(self).bit(b) || (old(self).size() > 0 && exists|h: u32|
                    h < old(self).hashes() && b == #[trigger] bloom_index(
                        lit,
                        h,
                        old(self).size() as u64,
                    ))),
    {
        let ghost size = self.size();
        if self.bits.len_bits == 0 {
            return ;
        }
        let mut i: u32 = 0;
        while i < self.num_hashes
            invariant
                size == self.size(),
                size > 0,
                self.well_formed(),
                self.size() == old(self).size(),
                self.hashes() == old(self).hashes(),
                i <= self.num_hashes,
                forall|h: u32|
                    h < i ==> self.bit(#[trigger] bloom_index(lit, h, size as u64)),
                forall|b: int| #[trigger]
                    self.bit(b) == (old(self).bit(b) || exists|h: u32|
                        h < i && b == #[trigger] bloom_index(lit, h, size as u64)),
            decreases self.num_hashes - i,
        {
            let ghost before = *self;
            let idx: usize = self.index(lit, i);
            self.bits.set(idx);
            assert forall|b: int| #[trigger]
                self.bit(b) == (old(self).bit(b) || exists|h: u32|
                    h < i + 1 && b == #[trigger] bloom_index(lit, h, size as u64)) by {
                if b == idx {
                    assert(b == bloom_index(lit, i, size as u64));
                } else {
                    assert(self.bit(b) == before.bit(b));
                    if exists|h: u32|
                        h < i + 1 && b == #[trigger] bloom_index(lit, h, size as u64) {
                        let h = choose|h: u32|
                            h < i + 1 && b == #[trigger] bloom_index(lit, h, size as u64);
                        assert(h != i);
                    }
                }
            }
            assert forall|h: u32| h < i + 1 implies self.bit(
                #[trigger] bloom_index(lit, h, size as u64),
            ) by {
                if h < i {
                    assert(before.bit(bloom_index(lit, h, size as u64)));
                }
            }
            i += 1;
        }
        assert forall|l: Literal| #[trigger] old(self).maybe(l) implies self.maybe(l) by {
            assert forall|h: u32| h < self.hashes() implies self.bit(
                #[trigger] bloom_index(l, h, self.size() as u64),
            ) by {
                assert(old(self).bit(bloom_index(l, h, self.size() as u64)));
            }
        }
    }

    /// `true` if the literal may be present. `false` = definitely absent.
    pub fn maybe_contains(&self, lit: Literal) -> (r: bool)
        requires
            self.well_formed(),
        ensures
            r == self.maybe(lit),
    {
        if self.bits.len_bits == 0 {
            return true;
        }
        let mut i: u32 = 0;
        while i < self.num_hashes
            invariant
                self.well_formed(),
                self.size() > 0,
                i <= self.num_hashes,
                forall|h: u32|
                    h < i ==> self.bit(#[trigger] bloom_index(lit, h, self.size() as u64)),
            decreases self.num_hashes - i,
        {
            let idx: usize = self.index(lit, i);
            if !self.bits.get(idx) {
                assert(!self.bit(bloom_index(lit, i, self.size() as u64)));
                return false;
            }
            i += 1;
        }
        true
    }

    /// Pre-filter for the subset test: `false` means at least one assumption
    /// literal is definitely absent, so `ctx ⊇ asmpts` cannot hold and the
    /// exact merge can be skipped. When `true` the caller must still perform
    /// the exact `ImportContext::contains_all`.
    pub fn maybe_contains_all(&self, asmpts: &[Literal]) -> (r: bool)
        requires
            self.well_formed(),
        ensures
            r == forall|k: int| 0 <= k < asmpts@.len() ==> self.maybe(#[trigger] asmpts@[k]),
    {
        let mut i: usize = 0;
        while i < asmpts.len()
            invariant
                i <= asmpts@.len(),
                self.well_formed(),
                forall|k: int| 0 <= k < i ==> self.maybe(#[trigger] asmpts@[k]),
            decreases asmpts@.len() - i,
        {
            if !self.maybe_contains(asmpts[i]) {
                return false;
            }
            i += 1;
        }
        true
    }

    fn index(&self, lit: Literal, hash_i: u32) -> (idx: usize)
        requires
            self.size() > 0,
        ensures
            idx == bloom_index(lit, hash_i, self.size() as u64),
            idx < self.size(),
    {
        let raw: u64 = lit.raw() as u64;
        let h1: u64 = SplitMix64::hash64(raw);
        // The second hash must be nonzero and independent.
        let h: u64 = SplitMix64::hash64(raw ^ GOLDEN);
        let h2: u64 = if h == 0 {
            1
        } else {
            h
        };
        let len: u64 = self.bits.len_bits as u64;
        (h1.wrapping_add(h2.wrapping_mul(hash_i as u64)) % len) as usize
    }
}

/// A literal that a filter rules out is not among those the filter was built
/// over, so no set of assumptions that holds it is part of them.
pub proof fn bloom_never_false_negative(f: BloomFilter, ctx: Seq<Literal>, asmpts: Seq<Literal>)
    requires
        forall|k: int| 0 <= k < ctx.len() ==> f.maybe(#[trigger] ctx[k]),
        forall|k: int| 0 <= k < asmpts.len() ==> ctx.contains(#[trigger] asmpts[k]),
    ensures
        forall|k: int| 0 <= k < asmpts.len() ==> f.maybe(#[trigger] asmpts[k]),
{
    assert forall|k: int| 0 <= k < asmpts.len() implies f.maybe(#[trigger] asmpts[k]) by {
        let j = choose|j: int| 0 <= j < ctx.len() && ctx[j] == asmpts[k];
        assert(f.maybe(ctx[j]));
    }
}

/// The state of the generator after `n` steps from a seed.
pub open spec fn stepped(seed: u64, n: nat) -> u64
    decreases n,
{
    if n == 0 {
        seed
    } else {
        stepped(seed, (n - 1) as nat).wrapping_add(GOLDEN)
    }
}

/// The Zobrist number of the literal with a raw value.
pub open spec fn zobrist_number(seed: u64, raw: nat) -> u64 {
    mixed(stepped(seed, raw + 1))
}

/// The number of table entries for `num_vars` variables.
pub open spec fn zobrist_size(num_vars: u32) -> nat {
    ((num_vars + 1) * 2) as nat
}

/// The number of a literal; 0 beyond the table.
pub open spec fn zobrist_value(num_vars: u32, seed: u64, lit: Literal) -> u64 {
    if lit.0 < zobrist_size(num_vars) {
        zobrist_number(seed, lit.0 as nat)
    } else {
        0
    }
}

/// The fingerprint of a sequence of literals.
pub open spec fn fingerprint(num_vars: u32, seed: u64, lits: Seq<Literal>) -> u64
    decreases lits.len(),
{
    if lits.len() == 0 {
        0
    } else {
        fingerprint(num_vars, seed, lits.drop_last()) ^ zobrist_value(num_vars, seed, lits.last())
    }
}

/// Rolling, order-independent XOR fingerprint of an assumption context.
///
/// Every worker builds its table from the same `seed`, so fingerprints are
/// comparable across processes. `add`/`remove` maintain the hash in O(1).
#[derive(Clone)]
pub struct ZobristContext {
    /// `table[lit.raw()]`, deterministic per seed.
    table: Vec<u64>,
    current: u64,
    origin: Ghost<(u32, u64)>,
}

impl ZobristContext {
    /// The number of variables the table was built for.
    pub closed spec fn num_vars(&self) -> u32 {
        self.origin@.0
    }

    /// The seed the table was built from.
    pub closed spec fn seed(&self) -> u64 {
        self.origin@.1
    }

    /// The current fingerprint.
    pub closed spec fn current(&self) -> u64 {
        self.current
    }

    pub closed spec fn well_formed(&self) -> bool {
        &&& self.table@.len() == zobrist_size(self.num_vars())
        &&& forall|i: int|
            0 <= i < self.table@.len() ==> #[trigger] self.table@[i] == zobrist_number(
                self.seed(),
                i as nat,
            )
    }

    /// Build a table covering variables `1..=num_vars` (both polarities) from
    /// a deterministic seed. `num_vars` need only cover the largest variable
    /// that will ever appear in a context.
    pub fn new(num_vars: u32, seed: u64) -> (z: Self)
        requires
            zobrist_size(num_vars) <= usize::MAX,
        ensures
            z.well_formed(),
            z.num_vars() == num_vars,
            z.seed() == seed,
            z.current() == 0,
    {
        let mut rng = SplitMix64::new(seed);
        let n: usize = (num_vars as usize + 1) * 2;
        let mut table: Vec<u64> = Vec::new();
        while table.len() < n
            invariant
                table@.len() <= n,
                rng.state() == stepped(seed, table@.len()),
                forall|i: int|
                    0 <= i < table@.len() ==> #[trigger] table@[i] == zobrist_number(
                        seed,
                        i as nat,
                    ),
            decreases n - table@.len(),
        {
            table.push(rng.next_u64());
        }
        ZobristContext { table, current: 0, origin: Ghost((num_vars, seed)) }
    }

    /// XOR-in a literal. Returns the updated fingerprint.
    pub fn add(&mut self, lit: Literal) -> (f: u64)
        requires
            old(self).well_formed(),
        ensures
            final(self).well_formed(),
            final(self).num_vars() == old(self).num_vars(),
            final(self).seed() == old(self).seed(),
            final(self).current() == old(self).current() ^ zobrist_value(
                old(self).num_vars(),
                old(self).seed(),
                lit,
            ),
            f == final(self).current(),
    {
        let v: u64 = self.value(lit);
        self.current = self.current ^ v;
        self.current
    }

    /// XOR-out a literal. Returns the updated fingerprint (or `None` if the
    /// literal's index is out of the table's range).
    pub fn remove(&mut self, lit: Literal) -> (f: Option<u64>)
        requires
            old(self).well_formed(),
        ensures
            final(self).well_formed(),
            final(self).num_vars() == old(self).num_vars(),
            final(self).seed() == old(self).seed(),
            lit.0 >= zobrist_size(old(self).num_vars()) ==> f is None && final(self).current()
                == old(self).current(),
            lit.0 < zobrist_size(old(self).num_vars()) ==> {
                &&& final(self).current() == old(self).current() ^ zobrist_value(
                    old(self).num_vars(),
                    old(self).seed(),
                    lit,
                )
                &&& f == Some(final(self).current())
            },
    {
        let i: usize = lit.raw() as usize;
        if i >= self.table.len() {
            return None;
        }
        self.current = self.current ^ self.table[i];
        Some(self.current)
    }

    pub fn fingerprint(&self) -> (f: u64)
        ensures
            f == self.current(),
    {
        self.current
    }

    /// Static fingerprint of a literal set, independent of any instance.
    pub fn fingerprint_of(lits: &[Literal], num_vars: u32, seed: u64) -> (f: u64)
        requires
            zobrist_size(num_vars) <= usize::MAX,
        ensures
            f == fingerprint(num_vars, seed, lits@),
    {
        let mut z = ZobristContext::new(num_vars, seed);
        let mut i: usize = 0;
        assert(lits@.take(0) =~= Seq::<Literal>::empty());
        while i < lits.len()
            invariant
                i <= lits@.len(),
                z.well_formed(),
                z.num_vars() == num_vars,
                z.seed() == seed,
                z.current() == fingerprint(num_vars, seed, lits@.take(i as int)),
            decreases lits@.len() - i,
        {
            z.add(lits[i]);
            assert(lits@.take(i + 1).drop_last() =~= lits@.take(i as int));
            i += 1;
        }
        assert(lits@.take(lits@.len() as int) =~= lits@);
        z.fingerprint()
    }

    fn value(&self, lit: Literal) -> (v: u64)
        requires
            self.well_formed(),
        ensures
            v == zobrist_value(self.num_vars(), self.seed(), lit),
    {
        let i: usize = lit.raw() as usize;
        if i < self.table.len() {
            self.table[i]
        } else {
            0
        }
    }
}

/// Removing a literal undoes adding it, and adding it again removes it: what
/// is XOR-ed in twice is gone.
pub proof fn zobrist_remove_inverts_add(current: u64, value: u64)
    ensures
        (current ^ value) ^ value == current,
{
    assert((current ^ value) ^ value == current) by (bit_vector);
}

/// Nothing has the fingerprint 0, and a literal that is added twice leaves no
/// trace.
pub proof fn zobrist_pair_vanishes(num_vars: u32, seed: u64, lits: Seq<Literal>, lit: Literal)
    ensures
        fingerprint(num_vars, seed, Seq::empty()) == 0,
        fingerprint(num_vars, seed, lits.push(lit).push(lit)) == fingerprint(num_vars, seed, lits),
{
    let v = zobrist_value(num_vars, seed, lit);
    let f = fingerprint(num_vars, seed, lits);
    assert(lits.push(lit).push(lit).drop_last() =~= lits.push(lit));
    assert(lits.push(lit).drop_last() =~= lits);
    assert(fingerprint(num_vars, seed, lits.push(lit)) == f ^ v);
    assert(fingerprint(num_vars, seed, lits.push(lit).push(lit)) == (f ^ v) ^ v);
    zobrist_remove_inverts_add(f, v);
}

/// The fingerprint of a sequence without the literal at position `i`.
proof fn fingerprint_remove(num_vars: u32, seed: u64, lits: Seq<Literal>, i: int)
    requires
        0 <= i < lits.len(),
    ensures
        fingerprint(num_vars, seed, lits) == fingerprint(num_vars, seed, lits.remove(i))
            ^ zobrist_value(num_vars, seed, lits[i]),
    decreases lits.len(),
{
    let n = lits.len() - 1;
    if i == n {
        assert(lits.remove(i) =~= lits.drop_last());
    } else {
        fingerprint_remove(num_vars, seed, lits.drop_last(), i);
        assert(lits.remove(i).drop_last() =~= lits.drop_last().remove(i));
        assert(lits.remove(i).last() == lits.last());
        let f = fingerprint(num_vars, seed, lits.drop_last().remove(i));
        let x = zobrist_value(num_vars, seed, lits[i]);
        let y = zobrist_value(num_vars, seed, lits.last());
        assert((f ^ x) ^ y == (f ^ y) ^ x) by (bit_vector);
    }
}

/// The fingerprint does not depend on the order of the literals.
pub proof fn zobrist_is_order_independent(
    num_vars: u32,
    seed: u64,
    a: Seq<Literal>,
    b: Seq<Literal>,
)
    requires
        a.to_multiset() == b.to_multiset(),
    ensures
        fingerprint(num_vars, seed, a) == fingerprint(num_vars, seed, b),
    decreases a.len(),
{
    broadcast use vstd::seq_lib::group_to_multiset_ensures;

    assert(a.len() == b.len()) by {
        assert(a.to_multiset().len() == a.len());
        assert(b.to_multiset().len() == b.len());
    }
    if a.len() > 0 {
        let x = a.last();
        assert(a.contains(x));
        assert(a.to_multiset().count(x) > 0);
        assert(b.contains(x));
        let i = choose|i: int| 0 <= i < b.len() && b[i] == x;
        fingerprint_remove(num_vars, seed, b, i);
        let rest = b.remove(i);
        assert(rest.to_multiset() =~= b.to_multiset().remove(x));
        assert(a.drop_last().to_multiset() =~= a.to_multiset().remove(x)) by {
            assert(a.drop_last() =~= a.remove(a.len() - 1));
        }
        zobrist_is_order_independent(num_vars, seed, a.drop_last(), rest);
    }
}

} // verus!
