//! What holds of the solver whatever the formula and whatever the choices of
//! the search, stated over the model and proved from it.

use crate::lemmas::{
    lemma_count_sole_witness, lemma_prefix, lemma_sole_unassigned, lemma_status_unit,
    lemma_status_unsatisfied,
};
use crate::model::{
    assigned, at_most, distinct, falsified, forces, is_at_level, is_backjump_level, is_resolvent,
    learned, level_of,
    lit_false, lit_true, position, propagation, reaches_uip, record_of, search_invariant, status,
    step_ok, unit_index, unit_literal, Lit, Record, Trail,
};
use crate::search::{lemma_asserting, lemma_filter_prefix};
use crate::solver::{ClauseStatus, UnitPropagationResult};
use vstd::prelude::*;

verus! {

/// Every variable on the trail was assigned at a level from 0 to the
/// current one.
pub proof fn law_levels_within_current(db: Seq<Seq<Lit>>, vars: Set<Seq<char>>, tr: Trail, v: Seq<char>)
    requires
        search_invariant(db, vars, tr),
        assigned(tr.entries, v),
    ensures
        0 <= record_of(tr.entries, v).dl <= tr.dl,
{
    let i = position(tr.entries, v);
    assert(0 <= tr.entries[i].1.dl <= tr.dl);
}

/// The antecedent of a propagated variable was unit under the trail as it
/// stood just before the variable was assigned, and its one unassigned
/// literal was on that variable.
pub proof fn law_antecedent_was_unit(db: Seq<Seq<Lit>>, vars: Set<Seq<char>>, tr: Trail, v: Seq<char>)
    requires
        search_invariant(db, vars, tr),
        assigned(tr.entries, v),
        record_of(tr.entries, v).antecedent is Some,
    ensures
        status(record_of(tr.entries, v).antecedent->0, tr.entries.take(position(tr.entries, v)))
            == ClauseStatus::Unit,
        unit_literal(record_of(tr.entries, v).antecedent->0, tr.entries.take(position(tr.entries, v))).var
            == v,
        !assigned(tr.entries.take(position(tr.entries, v)), v),
{
    let t = tr.entries;
    let i = position(t, v);
    assert(step_ok(db, t, i));
    lemma_status_unit(t[i].1.antecedent->0, t.take(i));
}

/// The clause that analysis learns from a conflict above level 0 is unit
/// once it is in the database and the trail is cut back to the level that
/// analysis gave, provided the conflict clause is one from which analysis
/// arrives at a single literal of the conflict level.
pub proof fn law_learned_clause_is_asserting(
    db: Seq<Seq<Lit>>,
    vars: Set<Seq<char>>,
    tr: Trail,
    k: Seq<Lit>,
    b: int,
    l: Seq<Lit>,
)
    requires
        search_invariant(db, vars, tr),
        tr.dl > 0,
        falsified(k, tr.entries),
        reaches_uip(k, tr.entries, tr.dl),
        learned(k, tr, b, l),
    ensures
        b < tr.dl,
        status(l, tr.entries.filter(at_most(b))) == ClauseStatus::Unit,
{
    lemma_asserting(db, vars, tr, l, b);
}

/// After the backjump, propagation that ends without conflict has made the
/// learned clause's one literal of the conflict level true, at the level
/// jumped back to.
pub proof fn law_asserted_literal_is_propagated(
    db: Seq<Seq<Lit>>,
    vars: Set<Seq<char>>,
    tr: Trail,
    k: Seq<Lit>,
    b: int,
    l: Seq<Lit>,
    after: Trail,
)
    requires
        search_invariant(db, vars, tr),
        tr.dl > 0,
        falsified(k, tr.entries),
        reaches_uip(k, tr.entries, tr.dl),
        learned(k, tr, b, l),
        propagation(
            db.push(l),
            (Trail { entries: tr.entries.filter(at_most(b)), dl: b }),
            after,
            UnitPropagationResult::Unresolved,
            None,
        ),
        distinct(after.entries),
    ensures
        exists|i: int|
            0 <= i < l.len() && level_of(tr.entries, #[trigger] l[i]) == tr.dl && lit_true(after.entries, l[i])
                && level_of(after.entries, l[i]) == b,
{
    let t = tr.entries;
    let cut = t.filter(at_most(b));
    let u = after.entries;
    lemma_asserting(db, vars, tr, l, b);
    lemma_status_unit(l, cut);
    let i = unit_index(l, cut);
    lemma_prefix(u, cut.len() as int);
    let grown = db.push(l);
    assert(grown[db.len() as int] == l);
    assert(status(l, u) == ClauseStatus::Satisfied || status(l, u) == ClauseStatus::Unresolved);
    assert forall|j: int| 0 <= j < l.len() && j != i implies lit_false(u, #[trigger] l[j]) by {
        assert(lit_false(cut, l[j]));
    }
    if !assigned(u, l[i].var) {
        lemma_sole_unassigned(l, u, i);
    }
    if lit_false(u, l[i]) {
        lemma_status_unsatisfied(l, u);
    }
    let p = position(u, l[i].var);
    assert(p >= cut.len());
    assert(u[p].1.dl == b);
    // the literal is the one of the conflict level
    let w = lemma_count_sole_witness(l, is_at_level(t, tr.dl));
    if w != i {
        assert(lit_false(t, l[w]));
        let k2 = lemma_filter_prefix(t, b);
        lemma_prefix(t, k2);
        assert(lit_false(cut, l[w]));
        let q = position(t, l[w].var);
        assert(t[q].1.dl <= b);
    }
}

/// A clause has one backjump level under a trail, and no other.
pub proof fn law_backjump_level_is_determined(c: Seq<Lit>, t: Seq<(Seq<char>, Record)>, b1: int, b2: int)
    requires
        is_backjump_level(c, t, b1),
        is_backjump_level(c, t, b2),
    ensures
        b1 == b2,
{
    if b1 < b2 {
        let (i, j) = choose|i: int, j: int|
            0 <= i < c.len() && 0 <= j < c.len() && level_of(t, #[trigger] c[i]) == b2 && level_of(
                t,
                #[trigger] c[j],
            ) > b2;
        assert(level_of(t, c[i]) <= b1 || level_of(t, c[j]) <= level_of(t, c[i]));
    }
    if b2 < b1 {
        let (i, j) = choose|i: int, j: int|
            0 <= i < c.len() && 0 <= j < c.len() && level_of(t, #[trigger] c[i]) == b1 && level_of(
                t,
                #[trigger] c[j],
            ) > b1;
        assert(level_of(t, c[i]) <= b2 || level_of(t, c[j]) <= level_of(t, c[i]));
    }
}

/// Propagation that has come to rest changes nothing when it is run again:
/// the second run leaves the trail as it is and reports no conflict.
pub proof fn law_propagation_is_idempotent(
    db: Seq<Seq<Lit>>,
    start: Trail,
    first: Trail,
    second: Trail,
    result: UnitPropagationResult,
    conflict: Option<Seq<Lit>>,
)
    requires
        propagation(db, start, first, UnitPropagationResult::Unresolved, None),
        propagation(db, first, second, result, conflict),
    ensures
        second == first,
        result == UnitPropagationResult::Unresolved,
        conflict is None,
{
    let t = first.entries;
    let u = second.entries;
    if t.len() < u.len() {
        let i = t.len() as int;
        let a = u[i].1.antecedent->0;
        assert(forces(a, u.take(i), u[i].0, u[i].1.value));
        let j = choose|j: int| 0 <= j < db.len() && db[j] == a;
        assert(status(db[j], t) == ClauseStatus::Unit);
    }
    assert(u.take(t.len() as int) =~= u);
    if result == UnitPropagationResult::Conflict {
        let k = conflict->0;
        let j = choose|j: int| 0 <= j < db.len() && db[j] == k;
        lemma_status_unsatisfied(db[j], u);
    }
}

/// Resolving a clause with itself gives the clause without its literals on
/// the pivot, of either sign.
pub proof fn law_resolve_with_itself(a: Seq<Lit>, x: Seq<char>, r: Seq<Lit>)
    requires
        is_resolvent(a, a, x, r),
    ensures
        r.no_duplicates(),
        forall|l: Lit| #[trigger] r.contains(l) <==> (a.contains(l) && l.var != x),
        !r.contains((Lit { var: x, neg: false })),
        !r.contains((Lit { var: x, neg: true })),
{
}

} // verus!
