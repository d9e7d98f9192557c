//! Facts about the search: what a conflict at level 0 means, what a
//! backjump leaves, and what a full trail without conflict is.

use crate::analysis::lemma_antecedent;
use crate::lemmas::{
    lemma_count_sole_witness, lemma_prefix, lemma_sole_unassigned, lemma_status_satisfied,
    lemma_status_unsatisfied, sole_unassigned,
};
use crate::model::{
    assigned, at_most, count_at_level, falsified, holds, is_at_level, is_backjump_level, learned,
    level_of, lit_false, lit_true, occurs, position, record_of, respects_antecedents, satisfiable,
    satisfies, satisfies_clause, search_invariant, stable, status, step_ok, Lit, Record, Trail,
};
use crate::solver::ClauseStatus;
use vstd::prelude::*;

verus! {

/// The `i`-th record of a trail was made at level `i + 1` at most.
pub proof fn lemma_level_bound(db: Seq<Seq<Lit>>, vars: Set<Seq<char>>, tr: Trail, i: int)
    requires
        search_invariant(db, vars, tr),
        0 <= i < tr.entries.len(),
    ensures
        tr.entries[i].1.dl <= i + 1,
    decreases i,
{
    assert(step_ok(db, tr.entries, i));
    if i > 0 {
        lemma_level_bound(db, vars, tr, i - 1);
    }
}

/// The current level is no more than the number of records.
pub proof fn lemma_level_at_most_len(db: Seq<Seq<Lit>>, vars: Set<Seq<char>>, tr: Trail)
    requires
        search_invariant(db, vars, tr),
    ensures
        tr.dl <= tr.entries.len(),
{
    if tr.entries.len() > 0 {
        lemma_level_bound(db, vars, tr, tr.entries.len() - 1);
    }
}

/// A clause more in the database leaves the trail in shape.
pub proof fn lemma_db_grows(db: Seq<Seq<Lit>>, vars: Set<Seq<char>>, tr: Trail, c: Seq<Lit>)
    requires
        search_invariant(db, vars, tr),
    ensures
        search_invariant(db.push(c), vars, tr),
{
    let t = tr.entries;
    assert forall|i: int| 0 <= i < t.len() implies #[trigger] step_ok(db.push(c), t, i) by {
        assert(step_ok(db, t, i));
        if t[i].1.antecedent is Some {
            let a = t[i].1.antecedent->0;
            let k = choose|k: int| 0 <= k < db.len() && db[k] == a;
            assert(db.push(c)[k] == a);
        }
    }
}

/// Every total assignment that satisfies the database gives a variable
/// recorded at level 0 the value that the trail gives it.
pub proof fn lemma_level_zero_implied(
    db: Seq<Seq<Lit>>,
    vars: Set<Seq<char>>,
    tr: Trail,
    m: spec_fn(Seq<char>) -> bool,
    i: int,
)
    requires
        search_invariant(db, vars, tr),
        satisfies(m, db),
        0 <= i < tr.entries.len(),
        tr.entries[i].1.dl == 0,
    ensures
        m(tr.entries[i].0) == tr.entries[i].1.value,
    decreases i,
{
    let t = tr.entries;
    assert(step_ok(db, t, i));
    if i > 0 {
        assert(0 <= t[i - 1].1.dl);
    }
    let a = t[i].1.antecedent->0;
    let n = choose|n: int| 0 <= n < db.len() && db[n] == a;
    assert(satisfies_clause(m, db[n]));
    let j = choose|j: int| 0 <= j < a.len() && holds(m, #[trigger] a[j]);
    let u = lemma_antecedent(db, vars, tr, i);
    if j != u {
        assert(lit_false(t, a[j]));
        let q = position(t, a[j].var);
        assert(t[q].1.dl <= t[i].1.dl);
        assert(0 <= t[q].1.dl);
        lemma_level_zero_implied(db, vars, tr, m, q);
        assert(false);
    }
}

/// A clause of the database that is falsified at level 0 shows that the
/// database has no satisfying assignment.
pub proof fn lemma_level_zero_conflict(db: Seq<Seq<Lit>>, vars: Set<Seq<char>>, tr: Trail, k: Seq<Lit>)
    requires
        search_invariant(db, vars, tr),
        tr.dl == 0,
        db.contains(k),
        falsified(k, tr.entries),
    ensures
        !satisfiable(db),
{
    let t = tr.entries;
    if satisfiable(db) {
        let m = choose|m: spec_fn(Seq<char>) -> bool| satisfies(m, db);
        let n = choose|n: int| 0 <= n < db.len() && db[n] == k;
        assert(satisfies_clause(m, db[n]));
        let i = choose|i: int| 0 <= i < k.len() && holds(m, #[trigger] k[i]);
        assert(lit_false(t, k[i]));
        let q = position(t, k[i].var);
        assert(0 <= t[q].1.dl <= tr.dl);
        lemma_level_zero_implied(db, vars, tr, m, q);
    }
}

/// Where levels never fall along the trail, the records at level `b` or
/// below are a prefix of it.
pub proof fn lemma_filter_prefix(t: Seq<(Seq<char>, Record)>, b: int) -> (k: int)
    requires
        forall|i: int, j: int| 0 <= i <= j < t.len() ==> (#[trigger] t[i]).1.dl <= (#[trigger] t[j]).1.dl,
    ensures
        0 <= k <= t.len(),
        t.filter(at_most(b)) == t.take(k),
        forall|i: int| 0 <= i < k ==> (#[trigger] t[i]).1.dl <= b,
        forall|i: int| k <= i < t.len() ==> (#[trigger] t[i]).1.dl > b,
    decreases t.len(),
{
    reveal(Seq::filter);
    if t.len() == 0 {
        assert(t.take(0) =~= t);
        0
    } else {
        let d = t.drop_last();
        let n = t.len() - 1;
        assert forall|i: int, j: int| 0 <= i <= j < d.len() implies (#[trigger] d[i]).1.dl <= (#[trigger] d[j]).1.dl by {
            assert(t[i].1.dl <= t[j].1.dl);
        }
        let k = lemma_filter_prefix(d, b);
        assert forall|i: int| 0 <= i < k implies (#[trigger] t[i]).1.dl <= b by {
            assert(d[i] == t[i]);
        }
        if t[n].1.dl <= b {
            if k < d.len() {
                assert(d[k].1.dl > b);
                assert(t[k].1.dl <= t[n].1.dl);
            }
            assert(d.take(k) =~= d);
            assert(t.take(t.len() as int) =~= t);
            assert(t.filter(at_most(b)) =~= d.push(t[n]));
            assert(d.push(t[n]) =~= t);
            t.len() as int
        } else {
            assert(t.filter(at_most(b)) =~= d.take(k));
            assert(d.take(k) =~= t.take(k));
            assert forall|i: int| k <= i < t.len() implies (#[trigger] t[i]).1.dl > b by {
                if i < n {
                    assert(d[i] == t[i]);
                }
            }
            k
        }
    }
}

/// After a backjump to a level of the trail, or to 0, the trail is in
/// shape at that level.
pub proof fn lemma_backjump(db: Seq<Seq<Lit>>, vars: Set<Seq<char>>, tr: Trail, b: int)
    requires
        search_invariant(db, vars, tr),
        0 <= b <= tr.dl,
        b == 0 || exists|i: int| 0 <= i < tr.entries.len() && (#[trigger] tr.entries[i]).1.dl == b,
    ensures
        search_invariant(db, vars, (Trail { entries: tr.entries.filter(at_most(b)), dl: b })),
{
    let t = tr.entries;
    let k = lemma_filter_prefix(t, b);
    let u = t.take(k);
    lemma_prefix(t, k);
    assert forall|i: int| 0 <= i < u.len() implies #[trigger] step_ok(db, u, i) by {
        assert(step_ok(db, t, i));
        assert(u.take(i) =~= t.take(i));
        assert(u[i] == t[i]);
        if i > 0 {
            assert(u[i - 1] == t[i - 1]);
        }
    }
    assert forall|i: int, j: int| 0 <= i <= j < u.len() implies (#[trigger] u[i]).1.dl <= (#[trigger] u[j]).1.dl by {
        assert(t[i].1.dl <= t[j].1.dl);
    }
    assert forall|i: int| 0 <= i < u.len() implies 0 <= (#[trigger] u[i]).1.dl <= b by {
        assert(0 <= t[i].1.dl);
    }
    assert forall|i: int| 0 <= i < u.len() implies vars.contains((#[trigger] u[i]).0) by {
        assert(vars.contains(t[i].0));
    }
    if k > 0 {
        assert(u[k - 1] == t[k - 1]);
        if b != 0 {
            let i = choose|i: int| 0 <= i < t.len() && (#[trigger] t[i]).1.dl == b;
            assert(i < k);
            assert(t[i].1.dl <= t[k - 1].1.dl);
        } else {
            assert(0 <= t[k - 1].1.dl);
        }
    } else {
        if b != 0 {
            let i = choose|i: int| 0 <= i < t.len() && (#[trigger] t[i]).1.dl == b;
            assert(t[i].1.dl > b);
        }
    }
}

/// A clause with exactly one literal of the current level is unit once the
/// trail is cut back to the clause's second-highest level.
pub proof fn lemma_asserting(db: Seq<Seq<Lit>>, vars: Set<Seq<char>>, tr: Trail, l: Seq<Lit>, b: int)
    requires
        search_invariant(db, vars, tr),
        tr.dl > 0,
        falsified(l, tr.entries),
        count_at_level(l, tr.entries, tr.dl) == 1,
        is_backjump_level(l, tr.entries, b),
    ensures
        b < tr.dl,
        status(l, tr.entries.filter(at_most(b))) == ClauseStatus::Unit,
{
    let t = tr.entries;
    let k = lemma_filter_prefix(t, b);
    let cut = t.take(k);
    lemma_prefix(t, k);
    let u = lemma_count_sole_witness(l, is_at_level(t, tr.dl));
    assert(level_of(t, l[u]) == tr.dl);
    assert forall|i: int| 0 <= i < l.len() implies level_of(t, #[trigger] l[i]) <= tr.dl by {
        assert(lit_false(t, l[i]));
        let q = position(t, l[i].var);
        assert(0 <= t[q].1.dl <= tr.dl);
    }
    if b != 0 {
        let (i, j) = choose|i: int, j: int|
            0 <= i < l.len() && 0 <= j < l.len() && level_of(t, #[trigger] l[i]) == b && level_of(
                t,
                #[trigger] l[j],
            ) > b;
        assert(level_of(t, l[j]) <= tr.dl);
    }
    assert(lit_false(t, l[u]));
    assert(!assigned(cut, l[u].var)) by {
        let q = position(t, l[u].var);
        if q < k {
            assert(t[q].1.dl <= b);
        }
    }
    assert forall|j: int| 0 <= j < l.len() && j != u implies lit_false(cut, #[trigger] l[j]) by {
        assert(lit_false(t, l[j]));
        assert(!is_at_level(t, tr.dl)(l[j]));
        assert(level_of(t, l[j]) <= b || level_of(t, l[u]) <= level_of(t, l[j]));
        let q = position(t, l[j].var);
        if q >= k {
            assert(t[q].1.dl > b);
        }
        assert(assigned(cut, l[j].var));
    }
    assert(sole_unassigned(l, cut, u));
    lemma_sole_unassigned(l, cut, u);
}

/// Where every variable of a clause is assigned and the clause is neither
/// unit nor unsatisfied, it is satisfied.
pub proof fn lemma_total_stable(db: Seq<Seq<Lit>>, t: Seq<(Seq<char>, Record)>, j: int)
    requires
        stable(db, t),
        0 <= j < db.len(),
        forall|i: int| 0 <= i < db[j].len() ==> assigned(t, (#[trigger] db[j][i]).var),
    ensures
        status(db[j], t) == ClauseStatus::Satisfied,
{
    let c = db[j];
    lemma_status_satisfied(c, t);
    lemma_status_unsatisfied(c, t);
    if status(c, t) != ClauseStatus::Satisfied {
        assert forall|i: int| 0 <= i < c.len() implies lit_false(t, #[trigger] c[i]) by {
            assert(assigned(t, c[i].var));
            assert(!lit_true(t, c[i]));
        }
    }
}

/// Where every clause is satisfied under the trail, the total assignment
/// that makes true the variables that the trail makes true satisfies them.
pub proof fn lemma_satisfied_model(db: Seq<Seq<Lit>>, t: Seq<(Seq<char>, Record)>)
    requires
        forall|j: int| 0 <= j < db.len() ==> status(#[trigger] db[j], t) == ClauseStatus::Satisfied,
    ensures
        satisfies(|v: Seq<char>| assigned(t, v) && record_of(t, v).value, db),
        satisfiable(db),
{
    let m = |v: Seq<char>| assigned(t, v) && record_of(t, v).value;
    assert forall|j: int| 0 <= j < db.len() implies satisfies_clause(m, #[trigger] db[j]) by {
        lemma_status_satisfied(db[j], t);
        let i = choose|i: int| 0 <= i < db[j].len() && lit_true(t, #[trigger] db[j][i]);
        assert(holds(m, db[j][i]));
    }
    assert(satisfies(m, db));
}

/// What the driver needs at a conflict above level 0: with the learned
/// clause in the database and the trail cut back to the backjump level, the
/// state is again one of a search, and the database still follows from the
/// clauses that the search began with.
pub proof fn lemma_learn_and_jump(
    db0: Seq<Seq<Lit>>,
    db: Seq<Seq<Lit>>,
    vars: Set<Seq<char>>,
    tr: Trail,
    k: Seq<Lit>,
    l: Seq<Lit>,
    b: int,
)
    requires
        search_invariant(db, vars, tr),
        forall|v: Seq<char>| occurs(db, v) ==> vars.contains(v),
        forall|m: spec_fn(Seq<char>) -> bool| #[trigger] satisfies(m, db0) ==> satisfies(m, db),
        db.contains(k),
        learned(k, tr, b, l),
    ensures
        search_invariant(db.push(l), vars, (Trail { entries: tr.entries.filter(at_most(b)), dl: b })),
        forall|v: Seq<char>| occurs(db.push(l), v) ==> vars.contains(v),
        forall|m: spec_fn(Seq<char>) -> bool| #[trigger] satisfies(m, db0) ==> satisfies(m, db.push(l)),
        0 <= b <= tr.dl,
{
    let t = tr.entries;
    assert forall|i: int| 0 <= i < l.len() implies 0 <= level_of(t, #[trigger] l[i]) <= tr.dl by {
        assert(lit_false(t, l[i]));
        let q = position(t, l[i].var);
        assert(0 <= t[q].1.dl <= tr.dl);
    }
    if b != 0 {
        let (i, j) = choose|i: int, j: int|
            0 <= i < l.len() && 0 <= j < l.len() && level_of(t, #[trigger] l[i]) == b && level_of(
                t,
                #[trigger] l[j],
            ) > b;
        assert(lit_false(t, l[i]));
        let q = position(t, l[i].var);
        assert(t[q].1.dl == b);
    }
    lemma_backjump(db, vars, tr, b);
    lemma_db_grows(db, vars, (Trail { entries: t.filter(at_most(b)), dl: b }), l);
    let grown = db.push(l);
    assert forall|v: Seq<char>| occurs(grown, v) implies vars.contains(v) by {
        let (j, i) = choose|j: int, i: int|
            0 <= j < grown.len() && 0 <= i < grown[j].len() && (#[trigger] grown[j][i]).var == v;
        if j < db.len() {
            assert(db[j][i].var == v);
            assert(occurs(db, v));
        } else {
            assert(lit_false(t, l[i]));
            let q = position(t, l[i].var);
            assert(vars.contains(t[q].0));
        }
    }
    assert forall|m: spec_fn(Seq<char>) -> bool| #[trigger] satisfies(m, db0) implies satisfies(m, grown) by {
        assert(satisfies(m, db));
        let n = choose|n: int| 0 <= n < db.len() && db[n] == k;
        assert(satisfies_clause(m, db[n]));
        assert forall|i: int| 0 <= i < t.len() implies ((#[trigger] t[i]).1.antecedent matches Some(a)
            ==> satisfies_clause(m, a)) by {
            assert(step_ok(db, t, i));
            if t[i].1.antecedent is Some {
                let a = t[i].1.antecedent->0;
                let n2 = choose|n2: int| 0 <= n2 < db.len() && db[n2] == a;
                assert(satisfies_clause(m, db[n2]));
            }
        }
        assert(respects_antecedents(m, t));
        assert(satisfies_clause(m, l));
        assert forall|j: int| 0 <= j < grown.len() implies satisfies_clause(m, #[trigger] grown[j]) by {
            if j < db.len() {
                assert(satisfies_clause(m, db[j]));
            }
        }
    }
}

} // verus!
