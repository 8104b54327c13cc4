//! The proof log of an unsatisfiable instance is accepted by the verifier.

use vstd::prelude::*;

#[allow(unused_imports)]
use crate::akx::literal::{Literal, MAX_VAR};
#[allow(unused_imports)]
use crate::akx::logic;
#[allow(unused_imports)]
use crate::certify::drup;
#[allow(unused_imports)]
use crate::sat::cdcl;
#[allow(unused_imports)]
use crate::sat::instance;
#[allow(unused_imports)]
use crate::sat::trace;

verus! {

/// No clause has a literal twice.
pub open spec fn no_repeats(clauses: Seq<Seq<i32>>) -> bool {
    forall|i: int| 0 <= i < clauses.len() ==> (#[trigger] clauses[i]).no_duplicates()
}

/// A DIMACS literal has the truth value of its literal.
proof fn same_truth(m: trace::World, x: Literal, l: i32)
    requires
        1 <= x.var() < MAX_VAR,
        l == logic::to_dimacs(x),
    ensures
        drup::lit_false(m, l) == trace::is_false(m, x),
        drup::lit_true(m, l) == trace::is_true(m, x),
        logic::dimacs_var(l) == x.var(),
{
}

/// A clause that is quiet for the verifier is stable for the solver.
proof fn quiet_is_stable(m: trace::World, v: Seq<i32>, c: Seq<Literal>)
    requires
        drup::quiet(m, v),
        cdcl::dimacs_of(v, c),
        c.no_duplicates(),
        forall|k: int| 0 <= k < c.len() ==> 1 <= (#[trigger] c[k]).var() < MAX_VAR,
    ensures
        trace::stable(m, c),
{
    assert forall|k: int| 0 <= k < c.len() implies drup::lit_false(m, #[trigger] v[k])
        == trace::is_false(m, c[k]) by {
        same_truth(m, c[k], v[k]);
    }
    if trace::all_false(m, c) {
        assert forall|k: int| 0 <= k < v.len() implies drup::lit_false(m, #[trigger] v[k]) by {
            assert(trace::is_false(m, c[k]));
        }
        assert(drup::falsified(m, v));
    }
    assert forall|x: Literal| c.contains(x) && #[trigger] trace::only_left(m, c, x) implies
        trace::is_true(m, x) by {
        let k = choose|k: int| 0 <= k < c.len() && c[k] == x;
        same_truth(m, x, v[k]);
        assert forall|j: int| 0 <= j < v.len() && j != k implies drup::lit_false(
            m,
            #[trigger] v[j],
        ) by {
            assert(c[j] != c[k]);
            assert(trace::is_false(m, c[j]));
        }
        if !m.contains_key(x.var() as int) {
            assert(drup::unit_at(m, v, k));
        } else if !trace::is_true(m, x) {
            assert(trace::is_false(m, x));
            assert forall|j: int| 0 <= j < v.len() implies drup::lit_false(
                m,
                #[trigger] v[j],
            ) by {
                if j == k {
                    assert(v[j] == v[k]);
                }
            }
            assert(drup::falsified(m, v));
        }
    }
}

/// Assuming literals over distinct variables makes each of them true.
proof fn assumed_true(lits: Seq<i32>, k: int)
    requires
        0 <= k < lits.len(),
        forall|i: int, j: int|
            0 <= i < j < lits.len() ==> logic::dimacs_var(#[trigger] lits[i]) != logic::dimacs_var(
                #[trigger] lits[j],
            ),
    ensures
        drup::lit_true(drup::assume_all(lits), lits[k]),
    decreases lits.len(),
{
    let rest = lits.drop_last();
    if k < rest.len() {
        assert(rest[k] == lits[k]);
        assert forall|i: int, j: int| 0 <= i < j < rest.len() implies logic::dimacs_var(
            #[trigger] rest[i],
        ) != logic::dimacs_var(#[trigger] rest[j]) by {
            assert(rest[i] == lits[i] && rest[j] == lits[j]);
        }
        assumed_true(rest, k);
        assert(logic::dimacs_var(lits[k]) != logic::dimacs_var(lits[lits.len() - 1]));
    }
}

/// What holds of one learned clause.
proof fn learned_at(f: Seq<Seq<Literal>>, learned: Seq<Seq<Literal>>, n: u32, i: int)
    requires
        trace::learned_ok((trace::Basis { clauses: f, learned }), n),
        0 <= i < learned.len(),
    ensures
        learned[i].len() >= 1,
        trace::learned_lits_ok(n, learned[i]),
        trace::up_entails(f + learned.take(i), learned[i]),
{
    let b = trace::Basis { clauses: f, learned };
    assert(b.learned[i].len() >= 1);
}

/// The clauses that the verifier has before step `i` and those that the
/// solver had are the same.
proof fn bases_agree(
    num_vars: u32,
    clauses: Seq<Seq<i32>>,
    steps: Seq<Seq<i32>>,
    learned: Seq<Seq<Literal>>,
    i: int,
    m: trace::World,
)
    requires
        instance::loadable(num_vars, clauses),
        no_repeats(clauses),
        trace::learned_ok(
            (trace::Basis { clauses: instance::formula_of(clauses), learned }),
            num_vars,
        ),
        0 <= i <= learned.len(),
        i <= steps.len(),
        forall|j: int| 0 <= j < learned.len() ==> cdcl::dimacs_of(#[trigger] steps[j], learned[j]),
        learned.len() <= steps.len(),
        forall|c: int|
            0 <= c < (clauses + steps.take(i)).len() ==> drup::quiet(
                m,
                #[trigger] (clauses + steps.take(i))[c],
            ),
    ensures
        trace::all_stable(m, instance::formula_of(clauses) + learned.take(i)),
{
    let db = clauses + steps.take(i);
    let f = instance::formula_of(clauses);
    let d = f + learned.take(i);
    assert forall|j: int| 0 <= j < d.len() implies trace::stable(m, #[trigger] d[j]) by {
        assert(drup::quiet(m, db[j]));
        if j < clauses.len() {
            let v = clauses[j];
            let c = instance::lits_of(v);
            assert(db[j] == v && d[j] == c);
            assert(instance::clause_ok(num_vars, v));
            assert forall|k: int| 0 <= k < c.len() implies 1 <= (#[trigger] c[k]).var() < MAX_VAR
                && v[k] == logic::to_dimacs(c[k]) by {
                literal_form(v[k], num_vars);
            }
            assert(c.no_duplicates()) by {
                assert forall|p: int, q: int| 0 <= p < c.len() && 0 <= q < c.len() && p != q implies
                    c[p] != c[q] by {
                    assert(v[p] != v[q]);
                    assert(v[p] == logic::to_dimacs(c[p]) && v[q] == logic::to_dimacs(c[q]));
                }
            }
            quiet_is_stable(m, v, c);
        } else {
            let t = j - clauses.len();
            let v = steps[t];
            let c = learned[t];
            assert(db[j] == v && d[j] == c);
            learned_at(f, learned, num_vars, t);
            assert(c.no_duplicates()) by {
                assert forall|p: int, q: int| 0 <= p < c.len() && 0 <= q < c.len() && p != q implies
                    c[p] != c[q] by {
                    if p < q {
                        assert(c[p].var() != c[q].var());
                    } else {
                        assert(c[q].var() != c[p].var());
                    }
                }
            }
            quiet_is_stable(m, v, c);
        }
    }
}

proof fn literal_form(l: i32, num_vars: u32)
    requires
        l != 0,
        logic::dimacs_var(l) <= num_vars < MAX_VAR,
    ensures
        1 <= instance::lit_of(l).var() <= num_vars,
        l == logic::to_dimacs(instance::lit_of(l)),
{
    let raw = instance::lit_of(l).0;
    if l > 0 {
        assert(raw == l * 2);
    } else {
        assert(raw == -l * 2 + 1);
    }
}

/// Every clause that the verifier has is within the variables.
proof fn in_range(
    num_vars: u32,
    clauses: Seq<Seq<i32>>,
    steps: Seq<Seq<i32>>,
    learned: Seq<Seq<Literal>>,
)
    requires
        instance::loadable(num_vars, clauses),
        forall|j: int|
            0 <= j < learned.len() ==> trace::learned_lits_ok(num_vars, #[trigger] learned[j]),
        forall|j: int| 0 <= j < learned.len() ==> cdcl::dimacs_of(#[trigger] steps[j], learned[j]),
        steps.len() == learned.len() + 1,
        steps.last().len() == 0,
    ensures
        drup::all_in_range(num_vars, clauses + steps),
{
    let all = clauses + steps;
    assert forall|i: int, j: int| 0 <= i < all.len() && 0 <= j < all[i].len() implies
        logic::dimacs_var(#[trigger] all[i][j]) <= num_vars by {
        if i < clauses.len() {
            assert(instance::clause_ok(num_vars, clauses[i]));
            assert(clauses[i][j] != 0);
        } else {
            let t = i - clauses.len();
            assert(all[i] == steps[t]);
            assert(t < learned.len());
            assert(cdcl::dimacs_of(steps[t], learned[t]));
            assert(trace::learned_lits_ok(num_vars, learned[t]));
            assert(steps[t][j] == logic::to_dimacs(learned[t][j]));
            assert(1 <= learned[t][j].var() <= num_vars);
        }
    }
}

/// A log that refutes an instance by unit propagation is accepted by the
/// verifier, step by step up to the final empty clause. No clause has a
/// literal twice: the verifier does not take such a clause for a unit.
pub proof fn certified_log_is_accepted(
    num_vars: u32,
    clauses: Seq<Seq<i32>>,
    log: Seq<Vec<i32>>,
)
    requires
        instance::loadable(num_vars, clauses),
        no_repeats(clauses),
        cdcl::certified(instance::formula_of(clauses), num_vars, log),
    ensures
        drup::refutation(clauses, logic::clause_views(log), log.len() as int),
        log.len() <= usize::MAX ==> drup::drup_result(
            num_vars,
            clauses,
            logic::clause_views(log),
            Ok(log.len() as usize),
        ),
{
    let f = instance::formula_of(clauses);
    let steps = logic::clause_views(log);
    let learned = choose|learned: Seq<Seq<Literal>>| #[trigger]
        cdcl::seals(f, num_vars, log, learned);
    let n = learned.len() as int;
    assert forall|j: int| 0 <= j < learned.len() implies cdcl::dimacs_of(
        #[trigger] steps[j],
        learned[j],
    ) by {
        assert(log.drop_last()[j] == log[j]);
        assert(cdcl::dimacs_of(log.drop_last()[j]@, learned[j]));
    }
    assert(steps.last().len() == 0) by {
        assert(steps[n] == log[n]@);
    }
    assert forall|j: int| 0 <= j < learned.len() implies trace::learned_lits_ok(
        num_vars,
        #[trigger] learned[j],
    ) by {
        learned_at(f, learned, num_vars, j);
    }
    in_range(num_vars, clauses, steps, learned);
    assert forall|t: int| 0 <= t < n implies (#[trigger] steps[t]).len() > 0 && drup::rup(
        clauses,
        steps,
        t,
    ) by {
        learned_at(f, learned, num_vars, t);
        step_accepted(num_vars, clauses, steps, learned, t);
    }
    let db = clauses + steps.take(n);
    let start = drup::assume_all(drup::negated(steps[n]));
    if !drup::refutes(db, start) {
        prefix_in_range(num_vars, clauses, steps, n);
        let rest = drup::propagation_ends(db, num_vars, start, seq![start]);
        bases_agree(num_vars, clauses, steps, learned, n, rest);
        assert(learned.take(n) =~= learned);
        assert(false);
    }
    assert(drup::rup(clauses, steps, n));
}

/// The literals of such a log are nonzero.
pub proof fn certified_log_is_nonzero(num_vars: u32, clauses: Seq<Seq<i32>>, log: Seq<Vec<i32>>)
    requires
        cdcl::certified(instance::formula_of(clauses), num_vars, log),
    ensures
        forall|i: int, j: int|
            0 <= i < logic::clause_views(log).len() && 0 <= j < logic::clause_views(log)[i].len()
                ==> #[trigger] logic::clause_views(log)[i][j] != 0,
{
    let f = instance::formula_of(clauses);
    let steps = logic::clause_views(log);
    let learned = choose|learned: Seq<Seq<Literal>>| #[trigger]
        cdcl::seals(f, num_vars, log, learned);
    assert forall|i: int, j: int| 0 <= i < steps.len() && 0 <= j < steps[i].len() implies
        #[trigger] steps[i][j] != 0 by {
        assert(steps[i] == log[i]@);
        if i < learned.len() {
            assert(log.drop_last()[i] == log[i]);
            assert(cdcl::dimacs_of(log.drop_last()[i]@, learned[i]));
            learned_at(f, learned, num_vars, i);
            assert(1 <= learned[i][j].var() <= num_vars);
            assert(steps[i][j] == logic::to_dimacs(learned[i][j]));
        }
    }
}

proof fn prefix_in_range(num_vars: u32, clauses: Seq<Seq<i32>>, steps: Seq<Seq<i32>>, i: int)
    requires
        drup::all_in_range(num_vars, clauses + steps),
        0 <= i <= steps.len(),
    ensures
        drup::all_in_range(num_vars, clauses + steps.take(i)),
{
    let all = clauses + steps;
    let part = clauses + steps.take(i);
    assert forall|p: int, j: int| 0 <= p < part.len() && 0 <= j < part[p].len() implies
        logic::dimacs_var(#[trigger] part[p][j]) <= num_vars by {
        assert(part[p] == all[p]);
        assert(logic::dimacs_var(all[p][j]) <= num_vars);
    }
}

/// A learned clause is accepted in its place.
proof fn step_accepted(
    num_vars: u32,
    clauses: Seq<Seq<i32>>,
    steps: Seq<Seq<i32>>,
    learned: Seq<Seq<Literal>>,
    t: int,
)
    requires
        instance::loadable(num_vars, clauses),
        no_repeats(clauses),
        trace::learned_ok(
            (trace::Basis { clauses: instance::formula_of(clauses), learned }),
            num_vars,
        ),
        forall|j: int| 0 <= j < learned.len() ==> cdcl::dimacs_of(#[trigger] steps[j], learned[j]),
        0 <= t < learned.len(),
        learned.len() <= steps.len(),
        drup::all_in_range(num_vars, clauses + steps),
    ensures
        drup::rup(clauses, steps, t),
{
    let v = steps[t];
    let c = learned[t];
    learned_at(instance::formula_of(clauses), learned, num_vars, t);
    let db = clauses + steps.take(t);
    let neg = drup::negated(v);
    let start = drup::assume_all(neg);
    if !drup::refutes(db, start) {
        prefix_in_range(num_vars, clauses, steps, t);
        let rest = drup::propagation_ends(db, num_vars, start, seq![start]);
        bases_agree(num_vars, clauses, steps, learned, t, rest);
        assert(trace::up_entails(instance::formula_of(clauses) + learned.take(t), c));
        assert forall|k: int| 0 <= k < c.len() implies trace::is_false(rest, #[trigger] c[k]) by {
            assert(1 <= c[k].var() <= num_vars);
            assert(v[k] == logic::to_dimacs(c[k]));
            same_truth(rest, c[k], v[k]);
            assert(neg[k] == (-v[k]) as i32);
            assert forall|i: int, j: int| 0 <= i < j < neg.len() implies logic::dimacs_var(
                #[trigger] neg[i],
            ) != logic::dimacs_var(#[trigger] neg[j]) by {
                assert(neg[i] == (-v[i]) as i32 && neg[j] == (-v[j]) as i32);
                assert(v[i] == logic::to_dimacs(c[i]) && v[j] == logic::to_dimacs(c[j]));
                assert(c[i].var() != c[j].var());
                assert(1 <= c[i].var() <= num_vars && 1 <= c[j].var() <= num_vars);
            }
            assumed_true(neg, k);
            assert(start.contains_key(logic::dimacs_var(neg[k])));
            assert(logic::dimacs_var(neg[k]) == logic::dimacs_var(v[k]));
            assert(drup::lit_true(rest, neg[k]));
            assert(drup::lit_false(rest, v[k]));
        }
        assert(trace::all_false(rest, c));
        assert(false);
    }
}

} // verus!
