//! What unit propagation alone can see: the clauses that a solver started
//! from and learned, and the partial assignments that propagation leaves
//! unchanged.

use vstd::prelude::*;

#[allow(unused_imports)]
use crate::akx::literal;
#[allow(unused_imports)]
use crate::akx::literal::Literal;
#[allow(unused_imports)]
use crate::akx::logic;

verus! {

/// A partial assignment of variables.
pub type World = Map<int, bool>;

pub open spec fn is_true(m: World, x: Literal) -> bool {
    m.contains_key(x.var() as int) && m[x.var() as int] == x.is_positive()
}

pub open spec fn is_false(m: World, x: Literal) -> bool {
    m.contains_key(x.var() as int) && m[x.var() as int] != x.is_positive()
}

/// Every literal is false.
pub open spec fn all_false(m: World, c: Seq<Literal>) -> bool {
    forall|k: int| 0 <= k < c.len() ==> is_false(m, #[trigger] c[k])
}

/// Every literal but `x` is false.
pub open spec fn only_left(m: World, c: Seq<Literal>, x: Literal) -> bool {
    forall|k: int| 0 <= k < c.len() && c[k] != x ==> is_false(m, #[trigger] c[k])
}

/// The clause is not falsified, and its only literal left is true.
pub open spec fn stable(m: World, c: Seq<Literal>) -> bool {
    &&& !all_false(m, c)
    &&& forall|x: Literal| c.contains(x) && #[trigger] only_left(m, c, x) ==> is_true(m, x)
}

/// Unit propagation with these clauses finds nothing more to do.
pub open spec fn all_stable(m: World, d: Seq<Seq<Literal>>) -> bool {
    forall|j: int| 0 <= j < d.len() ==> stable(m, #[trigger] d[j])
}

/// Unit propagation refutes the negation of the clause.
pub open spec fn up_entails(d: Seq<Seq<Literal>>, c: Seq<Literal>) -> bool {
    forall|m: World| #[trigger] all_stable(m, d) ==> !all_false(m, c)
}

/// Unit propagation refutes the clauses.
pub open spec fn dead(d: Seq<Seq<Literal>>) -> bool {
    forall|m: World| !(#[trigger] all_stable(m, d))
}

/// No clause has a literal twice.
pub open spec fn plain(d: Seq<Seq<Literal>>) -> bool {
    forall|j: int| 0 <= j < d.len() ==> (#[trigger] d[j]).no_duplicates()
}

/// Literals as unit clauses.
pub open spec fn units(lits: Seq<Literal>) -> Seq<Seq<Literal>> {
    Seq::new(lits.len(), |i: int| seq![lits[i]])
}

/// What unit propagation refutes it refutes with more clauses, too.
pub proof fn dead_with_more(d: Seq<Seq<Literal>>, more: Seq<Seq<Literal>>)
    requires
        dead(d),
    ensures
        dead(d + more),
{
    assert forall|m: World| !(#[trigger] all_stable(m, d + more)) by {
        if all_stable(m, d + more) {
            assert forall|j: int| 0 <= j < d.len() implies stable(m, #[trigger] d[j]) by {
                assert((d + more)[j] == d[j]);
            }
            assert(all_stable(m, d));
        }
    }
}

/// A clause with a true literal gives unit propagation nothing to do.
pub proof fn true_is_stable(m: World, c: Seq<Literal>, x: Literal)
    requires
        c.contains(x),
        is_true(m, x),
    ensures
        stable(m, c),
{
    let k = choose|k: int| 0 <= k < c.len() && c[k] == x;
    assert(!is_false(m, c[k]));
    assert forall|y: Literal| c.contains(y) && #[trigger] only_left(m, c, y) implies is_true(
        m,
        y,
    ) by {
        if y != x {
            assert(is_false(m, c[k]));
        }
    }
}

/// A clause with two literals that are not false gives unit propagation
/// nothing to do.
pub proof fn two_left_is_stable(m: World, c: Seq<Literal>, x: Literal, y: Literal)
    requires
        c.contains(x),
        c.contains(y),
        x != y,
        !is_false(m, x),
        !is_false(m, y),
    ensures
        stable(m, c),
{
    let i = choose|i: int| 0 <= i < c.len() && c[i] == x;
    let j = choose|j: int| 0 <= j < c.len() && c[j] == y;
    assert(!is_false(m, c[i]));
    assert forall|z: Literal| c.contains(z) && #[trigger] only_left(m, c, z) implies is_true(
        m,
        z,
    ) by {
        if z != x {
            assert(is_false(m, c[i]));
        } else {
            assert(is_false(m, c[j]));
        }
    }
}

/// The same literals, whatever their order.
pub open spec fn same_literals(a: Seq<Literal>, b: Seq<Literal>) -> bool {
    forall|x: Literal| #[trigger] a.contains(x) <==> b.contains(x)
}

/// The clause is one of these, whatever the order of its literals.
pub open spec fn listed(d: Seq<Seq<Literal>>, c: Seq<Literal>) -> bool {
    exists|j: int| 0 <= j < d.len() && same_literals(#[trigger] d[j], c)
}

/// The clauses that a solver was given and those that it learned, in order.
#[verifier::ext_equal]
pub struct Basis {
    pub clauses: Seq<Seq<Literal>>,
    pub learned: Seq<Seq<Literal>>,
}

pub open spec fn steps(f: Basis) -> Seq<Seq<Literal>> {
    f.clauses + f.learned
}

/// A clause that follows from those given and is among those given or learned.
pub open spec fn known(f: Basis, c: Seq<Literal>) -> bool {
    logic::entails(f.clauses, c) && listed(steps(f), c)
}

/// The given clauses are contradictory, and unit propagation shows it.
pub open spec fn broken(f: Basis) -> bool {
    logic::entails(f.clauses, Seq::empty()) && dead(steps(f))
}

/// A false literal is one whose negation is true.
pub proof fn negation_is_true(m: World, x: Literal)
    ensures
        is_true(m, x.negate()) <==> is_false(m, x),
        is_false(m, x.negate()) <==> is_true(m, x),
        x.negate().negate() == x,
{
    literal::negation_laws(x);
}

/// Stability does not depend on the order of literals.
pub proof fn stable_as(m: World, c: Seq<Literal>, d: Seq<Literal>)
    requires
        stable(m, c),
        same_literals(c, d),
    ensures
        stable(m, d),
{
    if all_false(m, d) {
        assert forall|k: int| 0 <= k < c.len() implies is_false(m, #[trigger] c[k]) by {
            assert(c.contains(c[k]));
            let j = choose|j: int| 0 <= j < d.len() && d[j] == c[k];
            assert(is_false(m, d[j]));
        }
    }
    assert forall|x: Literal| d.contains(x) && #[trigger] only_left(m, d, x) implies is_true(
        m,
        x,
    ) by {
        assert(c.contains(x));
        assert(only_left(m, c, x)) by {
            assert forall|k: int| 0 <= k < c.len() && c[k] != x implies is_false(
                m,
                #[trigger] c[k],
            ) by {
                assert(c.contains(c[k]));
                let j = choose|j: int| 0 <= j < d.len() && d[j] == c[k];
                assert(is_false(m, d[j]));
            }
        }
    }
}

/// A listed clause is stable where all are.
pub proof fn listed_stable(m: World, d: Seq<Seq<Literal>>, c: Seq<Literal>)
    requires
        all_stable(m, d),
        listed(d, c),
    ensures
        stable(m, c),
{
    let j = choose|j: int| 0 <= j < d.len() && same_literals(#[trigger] d[j], c);
    stable_as(m, d[j], c);
}

/// Clauses that hold all of others: what is listed stays listed, what is
/// refuted stays refuted.
pub open spec fn holds_all(small: Seq<Seq<Literal>>, large: Seq<Seq<Literal>>) -> bool {
    forall|j: int| 0 <= j < small.len() ==> large.contains(#[trigger] small[j])
}

pub proof fn larger_stable(m: World, small: Seq<Seq<Literal>>, large: Seq<Seq<Literal>>)
    requires
        holds_all(small, large),
        all_stable(m, large),
    ensures
        all_stable(m, small),
{
    assert forall|j: int| 0 <= j < small.len() implies stable(m, #[trigger] small[j]) by {
        let i = choose|i: int| 0 <= i < large.len() && large[i] == small[j];
        assert(stable(m, large[i]));
    }
}

pub proof fn larger_dead(small: Seq<Seq<Literal>>, large: Seq<Seq<Literal>>)
    requires
        holds_all(small, large),
        dead(small),
    ensures
        dead(large),
{
    assert forall|m: World| !(#[trigger] all_stable(m, large)) by {
        if all_stable(m, large) {
            larger_stable(m, small, large);
        }
    }
}

pub proof fn larger_entails(small: Seq<Seq<Literal>>, large: Seq<Seq<Literal>>, c: Seq<Literal>)
    requires
        holds_all(small, large),
        up_entails(small, c),
    ensures
        up_entails(large, c),
{
    assert forall|m: World| #[trigger] all_stable(m, large) implies !all_false(m, c) by {
        larger_stable(m, small, large);
    }
}

pub proof fn larger_listed(small: Seq<Seq<Literal>>, large: Seq<Seq<Literal>>, c: Seq<Literal>)
    requires
        holds_all(small, large),
        listed(small, c),
    ensures
        listed(large, c),
{
    let j = choose|j: int| 0 <= j < small.len() && same_literals(#[trigger] small[j], c);
    let i = choose|i: int| 0 <= i < large.len() && large[i] == small[j];
    assert(same_literals(large[i], c));
}

/// The second basis was given all that the first was, and learned all that it
/// learned.
pub open spec fn grown(f: Basis, g: Basis) -> bool {
    &&& f.clauses.is_prefix_of(g.clauses)
    &&& f.learned.is_prefix_of(g.learned)
}

pub proof fn grown_holds_all(f: Basis, g: Basis)
    requires
        grown(f, g),
    ensures
        holds_all(steps(f), steps(g)),
{
    let small = steps(f);
    let large = steps(g);
    assert forall|j: int| 0 <= j < small.len() implies large.contains(#[trigger] small[j]) by {
        if j < f.clauses.len() {
            assert(large[j] == small[j]) by {
                assert(g.clauses.take(f.clauses.len() as int)[j] == f.clauses[j]);
            }
        } else {
            let k = j - f.clauses.len();
            assert(large[g.clauses.len() + k] == small[j]) by {
                assert(g.learned.take(f.learned.len() as int)[k] == f.learned[k]);
            }
        }
    }
}

/// What follows from a formula follows from a longer one.
proof fn entails_longer(f: Seq<Seq<Literal>>, g: Seq<Seq<Literal>>, c: Seq<Literal>)
    requires
        f.is_prefix_of(g),
        logic::entails(f, c),
    ensures
        logic::entails(g, c),
{
    assert forall|val: logic::Valuation| #[trigger] logic::formula_holds(val, g) implies
        logic::clause_holds(val, c) by {
        assert forall|j: int| 0 <= j < f.len() implies logic::clause_holds(
            val,
            #[trigger] f[j],
        ) by {
            assert(g.take(f.len() as int)[j] == f[j]);
            assert(logic::clause_holds(val, g[j]));
        }
        assert(logic::formula_holds(val, f));
    }
}

pub proof fn known_grows(f: Basis, g: Basis, c: Seq<Literal>)
    requires
        grown(f, g),
        known(f, c),
    ensures
        known(g, c),
{
    grown_holds_all(f, g);
    larger_listed(steps(f), steps(g), c);
    entails_longer(f.clauses, g.clauses, c);
}

pub proof fn broken_grows(f: Basis, g: Basis)
    requires
        grown(f, g),
        broken(f),
    ensures
        broken(g),
{
    grown_holds_all(f, g);
    larger_dead(steps(f), steps(g));
    entails_longer(f.clauses, g.clauses, Seq::empty());
}

/// One more clause given.
pub open spec fn with_clause(f: Basis, c: Seq<Literal>) -> Basis {
    Basis { clauses: f.clauses.push(c), ..f }
}

/// One more clause learned.
pub open spec fn with_learned(f: Basis, c: Seq<Literal>) -> Basis {
    Basis { learned: f.learned.push(c), ..f }
}

pub proof fn with_clause_grows(f: Basis, c: Seq<Literal>)
    ensures
        grown(f, with_clause(f, c)),
        known(with_clause(f, c), c),
{
    let g = with_clause(f, c);
    assert(g.clauses.take(f.clauses.len() as int) =~= f.clauses);
    assert(g.learned.take(f.learned.len() as int) =~= f.learned);
    logic::entails_member(g.clauses, f.clauses.len() as int);
    assert(steps(g)[f.clauses.len() as int] == c);
    assert(same_literals(steps(g)[f.clauses.len() as int], c));
}

pub proof fn with_learned_grows(f: Basis, c: Seq<Literal>)
    requires
        logic::entails(f.clauses, c),
    ensures
        grown(f, with_learned(f, c)),
        known(with_learned(f, c), c),
{
    let g = with_learned(f, c);
    assert(g.clauses.take(f.clauses.len() as int) =~= f.clauses);
    assert(g.learned.take(f.learned.len() as int) =~= f.learned);
    let at = f.clauses.len() + f.learned.len();
    assert(steps(g)[at as int] == c);
    assert(same_literals(steps(g)[at as int], c));
}

/// Every learned clause follows by unit propagation from the clauses given
/// and those learned before it.
pub open spec fn learned_ok(f: Basis, n: u32) -> bool {
    forall|i: int|
        0 <= i < f.learned.len() ==> {
            &&& (#[trigger] f.learned[i]).len() >= 1
            &&& learned_lits_ok(n, f.learned[i])
            &&& up_entails(f.clauses + f.learned.take(i), f.learned[i])
        }
}

/// The literals of a learned clause are over distinct known variables.
pub open spec fn learned_lits_ok(n: u32, c: Seq<Literal>) -> bool {
    &&& forall|k: int| 0 <= k < c.len() ==> 1 <= (#[trigger] c[k]).var() <= n
    &&& forall|i: int, j: int|
        0 <= i < j < c.len() ==> (#[trigger] c[i]).var() != (#[trigger] c[j]).var()
}

/// Learned clauses stay justified when more clauses are given.
pub proof fn learned_ok_given(f: Basis, n: u32, c: Seq<Literal>)
    requires
        learned_ok(f, n),
    ensures
        learned_ok(with_clause(f, c), n),
{
    let g = with_clause(f, c);
    assert forall|i: int| 0 <= i < g.learned.len() implies {
        &&& (#[trigger] g.learned[i]).len() >= 1
        &&& learned_lits_ok(n, g.learned[i])
        &&& up_entails(g.clauses + g.learned.take(i), g.learned[i])
    } by {
        assert(g.learned[i] == f.learned[i]);
        let a = Basis { clauses: f.clauses, learned: f.learned.take(i) };
        let b = Basis { clauses: g.clauses, learned: g.learned.take(i) };
        assert(grown(a, b)) by {
            assert(b.clauses.take(a.clauses.len() as int) =~= a.clauses);
            assert(b.learned.take(a.learned.len() as int) =~= a.learned);
        }
        grown_holds_all(a, b);
        larger_entails(steps(a), steps(b), g.learned[i]);
    }
}

/// One more justified clause.
pub proof fn learned_ok_push(f: Basis, n: u32, c: Seq<Literal>)
    requires
        learned_ok(f, n),
        c.len() >= 1,
        learned_lits_ok(n, c),
        up_entails(steps(f), c),
    ensures
        learned_ok(with_learned(f, c), n),
{
    let g = with_learned(f, c);
    assert forall|i: int| 0 <= i < g.learned.len() implies {
        &&& (#[trigger] g.learned[i]).len() >= 1
        &&& learned_lits_ok(n, g.learned[i])
        &&& up_entails(g.clauses + g.learned.take(i), g.learned[i])
    } by {
        assert(g.learned.take(i) =~= f.learned.take(i));
        if i < f.learned.len() {
            assert(g.learned[i] == f.learned[i]);
        } else {
            assert(f.learned.take(i) =~= f.learned);
        }
    }
}

} // verus!
