//! Facts about resolving a falsified clause with the antecedents on the
//! trail: what conflict analysis rests on.

use crate::lemmas::{
    lemma_count_zero, lemma_position, lemma_prefix, lemma_sole_witness_count, lemma_status_unit,
    sole_witness,
};
use crate::model::{
    assigned, count_at_level, falsified, follows_from, forced_within_level, has_antecedent, has_var,
    holds, is_at_level, is_resolvent, level_of, lit_false, no_pivot, position, reaches_uip,
    record_of, respects_antecedents, satisfies_clause, search_invariant, step_ok, weight, Lit,
    Record, Trail,
};
use vstd::arithmetic::power2::{lemma_pow2_pos, lemma_pow2_unfold, pow2};
use vstd::prelude::*;

verus! {

/// Of an antecedent: one literal is on the variable it forced and is true;
/// every other is false, on another variable, and was assigned earlier.
pub proof fn lemma_antecedent(db: Seq<Seq<Lit>>, vars: Set<Seq<char>>, tr: Trail, p: int) -> (u: int)
    requires
        search_invariant(db, vars, tr),
        0 <= p < tr.entries.len(),
        tr.entries[p].1.antecedent is Some,
    ensures
        0 <= u < tr.entries[p].1.antecedent->0.len(),
        tr.entries[p].1.antecedent->0[u].var == tr.entries[p].0,
        tr.entries[p].1.antecedent->0[u].neg == !tr.entries[p].1.value,
        forall|j: int|
            0 <= j < tr.entries[p].1.antecedent->0.len() && j != u ==> {
                &&& lit_false(tr.entries, #[trigger] tr.entries[p].1.antecedent->0[j])
                &&& position(tr.entries, tr.entries[p].1.antecedent->0[j].var) < p
                &&& tr.entries[p].1.antecedent->0[j].var != tr.entries[p].0
            },
{
    let t = tr.entries;
    let a = t[p].1.antecedent->0;
    let before = t.take(p);
    assert(step_ok(db, t, p));
    lemma_status_unit(a, before);
    lemma_prefix(t, p);
    lemma_position(t, p);
    let u = crate::model::unit_index(a, before);
    assert forall|j: int| 0 <= j < a.len() && j != u implies {
        &&& lit_false(t, #[trigger] a[j])
        &&& position(t, a[j].var) < p
        &&& a[j].var != t[p].0
    } by {
        assert(lit_false(before, a[j]));
        assert(assigned(before, a[j].var));
    }
    u
}

/// Resolving a falsified clause with the antecedent of one of its
/// variables gives a falsified clause.
pub proof fn lemma_resolvent_falsified(
    db: Seq<Seq<Lit>>,
    vars: Set<Seq<char>>,
    tr: Trail,
    c: Seq<Lit>,
    p: int,
    r: Seq<Lit>,
)
    requires
        search_invariant(db, vars, tr),
        falsified(c, tr.entries),
        0 <= p < tr.entries.len(),
        tr.entries[p].1.antecedent is Some,
        is_resolvent(c, tr.entries[p].1.antecedent->0, tr.entries[p].0, r),
    ensures
        falsified(r, tr.entries),
{
    let t = tr.entries;
    let a = t[p].1.antecedent->0;
    let u = lemma_antecedent(db, vars, tr, p);
    assert forall|i: int| 0 <= i < r.len() implies lit_false(t, #[trigger] r[i]) by {
        let l = r[i];
        assert(r.contains(l));
        if c.contains(l) {
            let k = choose|k: int| 0 <= k < c.len() && c[k] == l;
            assert(lit_false(t, c[k]));
        } else {
            let k = choose|k: int| 0 <= k < a.len() && a[k] == l;
            assert(lit_false(t, a[k]));
        }
    }
}

/// What follows from the conflict clause and the antecedents still follows
/// after one more resolution.
pub proof fn lemma_resolvent_follows(
    db: Seq<Seq<Lit>>,
    vars: Set<Seq<char>>,
    tr: Trail,
    k0: Seq<Lit>,
    c: Seq<Lit>,
    p: int,
    r: Seq<Lit>,
)
    requires
        search_invariant(db, vars, tr),
        falsified(c, tr.entries),
        follows_from(k0, tr.entries, c),
        0 <= p < tr.entries.len(),
        tr.entries[p].1.antecedent is Some,
        is_resolvent(c, tr.entries[p].1.antecedent->0, tr.entries[p].0, r),
    ensures
        follows_from(k0, tr.entries, r),
{
    let t = tr.entries;
    let a = t[p].1.antecedent->0;
    let x = t[p].0;
    let u = lemma_antecedent(db, vars, tr, p);
    lemma_position(t, p);
    assert forall|m: spec_fn(Seq<char>) -> bool| #[trigger]
        respects_antecedents(m, t) && satisfies_clause(m, k0) implies satisfies_clause(m, r) by {
        assert(satisfies_clause(m, c));
        assert(satisfies_clause(m, a)) by {
            assert(t[p].1.antecedent matches Some(b) ==> satisfies_clause(m, b));
        }
        let i = choose|i: int| 0 <= i < c.len() && holds(m, #[trigger] c[i]);
        let j = choose|j: int| 0 <= j < a.len() && holds(m, #[trigger] a[j]);
        if c[i].var != x {
            assert(c.contains(c[i]));
            assert(r.contains(c[i]));
            let n = choose|n: int| 0 <= n < r.len() && r[n] == c[i];
            assert(holds(m, r[n]));
        } else {
            assert(lit_false(t, c[i]));
            if j == u {
                assert(false);
            }
            assert(a.contains(a[j]));
            assert(r.contains(a[j]));
            let n = choose|n: int| 0 <= n < r.len() && r[n] == a[j];
            assert(holds(m, r[n]));
        }
    }
}

/// The weight of a clause up to place `n` is below 2 to the `n`.
pub proof fn lemma_weight_bound(c: Seq<Lit>, t: Seq<(Seq<char>, Record)>, n: nat)
    ensures
        weight(c, t, n) < pow2(n),
    decreases n,
{
    if n == 0 {
        lemma_pow2_pos(0);
    } else {
        lemma_weight_bound(c, t, (n - 1) as nat);
        lemma_pow2_unfold(n);
    }
}

/// A clause that loses the variable at place `p`, and gains none above it,
/// loses weight.
pub proof fn lemma_weight_drop(c1: Seq<Lit>, c2: Seq<Lit>, t: Seq<(Seq<char>, Record)>, n: nat, p: int)
    requires
        0 <= p < n,
        has_var(c1, t[p].0),
        !has_var(c2, t[p].0),
        forall|q: int| p < q < n ==> (has_var(c2, (#[trigger] t[q]).0) ==> has_var(c1, t[q].0)),
    ensures
        weight(c2, t, n) < weight(c1, t, n),
    decreases n,
{
    if n == p + 1 {
        lemma_weight_bound(c2, t, p as nat);
    } else {
        lemma_weight_drop(c1, c2, t, (n - 1) as nat, p);
        assert(has_var(c2, t[n - 1].0) ==> has_var(c1, t[n - 1].0));
    }
}

/// Resolving a clause with the antecedent of one of its variables gives a
/// clause of less weight.
pub proof fn lemma_resolvent_weight(
    db: Seq<Seq<Lit>>,
    vars: Set<Seq<char>>,
    tr: Trail,
    c: Seq<Lit>,
    p: int,
    r: Seq<Lit>,
)
    requires
        search_invariant(db, vars, tr),
        0 <= p < tr.entries.len(),
        has_var(c, tr.entries[p].0),
        tr.entries[p].1.antecedent is Some,
        is_resolvent(c, tr.entries[p].1.antecedent->0, tr.entries[p].0, r),
    ensures
        weight(r, tr.entries, tr.entries.len()) < weight(c, tr.entries, tr.entries.len()),
{
    let t = tr.entries;
    let a = t[p].1.antecedent->0;
    let x = t[p].0;
    let u = lemma_antecedent(db, vars, tr, p);
    if has_var(r, x) {
        let i = choose|i: int| 0 <= i < r.len() && (#[trigger] r[i]).var == x;
        assert(r.contains(r[i]));
    }
    assert forall|q: int| p < q < t.len() && has_var(r, (#[trigger] t[q]).0) implies has_var(c, t[q].0) by {
        {
            let i = choose|i: int| 0 <= i < r.len() && (#[trigger] r[i]).var == t[q].0;
            let l = r[i];
            assert(r.contains(l));
            if c.contains(l) {
                let k = choose|k: int| 0 <= k < c.len() && c[k] == l;
                assert(c[k].var == t[q].0);
            } else {
                let k = choose|k: int| 0 <= k < a.len() && a[k] == l;
                assert(position(t, a[k].var) < p);
                lemma_position(t, q);
            }
        }
    }
    lemma_weight_drop(c, r, t, t.len(), p);
}

/// Of two records of one level the later was forced.
pub proof fn lemma_one_decision_per_level(db: Seq<Seq<Lit>>, vars: Set<Seq<char>>, tr: Trail, p: int, q: int)
    requires
        search_invariant(db, vars, tr),
        0 <= p < q < tr.entries.len(),
        tr.entries[p].1.dl == tr.entries[q].1.dl,
    ensures
        tr.entries[q].1.antecedent is Some,
{
    let t = tr.entries;
    assert(step_ok(db, t, q));
    assert(t[p].1.dl <= t[q - 1].1.dl);
}

/// Where analysis has not arrived yet but can, some literal of the level
/// was forced: there is something to resolve with.
pub proof fn lemma_uip_pivot(db: Seq<Seq<Lit>>, vars: Set<Seq<char>>, tr: Trail, c: Seq<Lit>)
    requires
        search_invariant(db, vars, tr),
        falsified(c, tr.entries),
        reaches_uip(c, tr.entries, tr.dl),
        count_at_level(c, tr.entries, tr.dl) != 1,
    ensures
        !no_pivot(c, tr.entries, tr.dl),
{
    let t = tr.entries;
    let dl = tr.dl;
    if exists|i: int, j: int|
        0 <= i < c.len() && 0 <= j < c.len() && level_of(t, #[trigger] c[i]) == dl && level_of(
            t,
            #[trigger] c[j],
        ) == dl && c[i].var != c[j].var {
        let (i, j) = choose|i: int, j: int|
            0 <= i < c.len() && 0 <= j < c.len() && level_of(t, #[trigger] c[i]) == dl && level_of(
                t,
                #[trigger] c[j],
            ) == dl && c[i].var != c[j].var;
        assert(lit_false(t, c[i]));
        assert(lit_false(t, c[j]));
        let p = position(t, c[i].var);
        let q = position(t, c[j].var);
        if p < q {
            lemma_one_decision_per_level(db, vars, tr, p, q);
            assert(has_antecedent(t, c[j]));
        } else {
            lemma_one_decision_per_level(db, vars, tr, q, p);
            assert(has_antecedent(t, c[i]));
        }
    } else {
        let i = choose|i: int|
            0 <= i < c.len() && level_of(t, #[trigger] c[i]) == dl && forced_within_level(t, c[i], dl);
        assert(has_antecedent(t, c[i]));
    }
}

/// From a clause from which analysis arrives, one resolution gives a
/// clause from which it arrives.
pub proof fn lemma_resolvent_uip(
    db: Seq<Seq<Lit>>,
    vars: Set<Seq<char>>,
    tr: Trail,
    c: Seq<Lit>,
    i: int,
    r: Seq<Lit>,
)
    requires
        search_invariant(db, vars, tr),
        falsified(c, tr.entries),
        falsified(r, tr.entries),
        reaches_uip(c, tr.entries, tr.dl),
        count_at_level(c, tr.entries, tr.dl) != 1,
        0 <= i < c.len(),
        level_of(tr.entries, c[i]) == tr.dl,
        has_antecedent(tr.entries, c[i]),
        is_resolvent(c, record_of(tr.entries, c[i].var).antecedent->0, c[i].var, r),
    ensures
        reaches_uip(r, tr.entries, tr.dl),
{
    let t = tr.entries;
    let dl = tr.dl;
    let x = c[i].var;
    let a = record_of(t, x).antecedent->0;
    let at = is_at_level(t, dl);
    // a literal of the level that the resolution keeps
    let s: Lit = if exists|i1: int, j1: int|
        0 <= i1 < c.len() && 0 <= j1 < c.len() && level_of(t, #[trigger] c[i1]) == dl && level_of(
            t,
            #[trigger] c[j1],
        ) == dl && c[i1].var != c[j1].var {
        let (i1, j1) = choose|i1: int, j1: int|
            0 <= i1 < c.len() && 0 <= j1 < c.len() && level_of(t, #[trigger] c[i1]) == dl && level_of(
                t,
                #[trigger] c[j1],
            ) == dl && c[i1].var != c[j1].var;
        if c[i1].var != x {
            assert(c.contains(c[i1]));
            c[i1]
        } else {
            assert(c.contains(c[j1]));
            c[j1]
        }
    } else {
        let i3 = choose|i3: int|
            0 <= i3 < c.len() && level_of(t, #[trigger] c[i3]) == dl && forced_within_level(t, c[i3], dl);
        if c[i3].var != x {
            assert(c.contains(c[i3]));
            c[i3]
        } else {
            let k = choose|k: int| 0 <= k < a.len() && (#[trigger] a[k]).var != x && level_of(t, a[k]) == dl;
            assert(a.contains(a[k]));
            a[k]
        }
    };
    assert(r.contains(s));
    assert(level_of(t, s) == dl);
    let n1 = choose|n: int| 0 <= n < r.len() && r[n] == s;
    assert(at(r[n1]));
    lemma_count_zero(r, at);
    if count_at_level(r, t, dl) != 1 {
        if sole_witness(r, at, n1) {
            lemma_sole_witness_count(r, at, n1);
        }
        let n2 = choose|n2: int| 0 <= n2 < r.len() && n2 != n1 && at(#[trigger] r[n2]);
        assert(lit_false(t, r[n1]));
        assert(lit_false(t, r[n2]));
        if r[n1].var == r[n2].var {
            assert(r[n1] == r[n2]);
        }
        assert(level_of(t, r[n1]) == dl && level_of(t, r[n2]) == dl && r[n1].var != r[n2].var);
    }
}

/// From a clause from which analysis does not arrive, one resolution
/// gives a clause without any literal of the level.
pub proof fn lemma_resolvent_without_uip(
    db: Seq<Seq<Lit>>,
    vars: Set<Seq<char>>,
    tr: Trail,
    c: Seq<Lit>,
    i: int,
    r: Seq<Lit>,
)
    requires
        search_invariant(db, vars, tr),
        !reaches_uip(c, tr.entries, tr.dl),
        0 <= i < c.len(),
        level_of(tr.entries, c[i]) == tr.dl,
        has_antecedent(tr.entries, c[i]),
        is_resolvent(c, record_of(tr.entries, c[i].var).antecedent->0, c[i].var, r),
    ensures
        count_at_level(r, tr.entries, tr.dl) == 0,
{
    let t = tr.entries;
    let dl = tr.dl;
    let x = c[i].var;
    let a = record_of(t, x).antecedent->0;
    let at = is_at_level(t, dl);
    lemma_count_zero(r, at);
    assert forall|n: int| 0 <= n < r.len() implies !at(#[trigger] r[n]) by {
        let l = r[n];
        assert(r.contains(l));
        if level_of(t, l) == dl {
            if c.contains(l) {
                let k = choose|k: int| 0 <= k < c.len() && c[k] == l;
                assert(level_of(t, c[i]) == dl && level_of(t, c[k]) == dl && c[i].var != c[k].var);
            } else {
                let k = choose|k: int| 0 <= k < a.len() && a[k] == l;
                assert(a[k].var != c[i].var && level_of(t, a[k]) == dl);
                assert(forced_within_level(t, c[i], dl));
            }
        }
    }
}

} // verus!
