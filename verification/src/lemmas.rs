//! Facts about the model: looking up the trail, counting literals and
//! classifying clauses.

use crate::model::{
    assigned, count_if, distinct, falsified, forces, is_false_under, is_true_under, lit_false,
    lit_true, position, record_of, search_invariant, status, step_ok, unit_index, Lit, Record,
    Trail,
};
use crate::solver::ClauseStatus;
use vstd::prelude::*;

verus! {

// ---------------------------------------------------------------------
// Looking up the trail
// ---------------------------------------------------------------------

/// In a trail without repetition a record is found where it stands.
pub proof fn lemma_position(t: Seq<(Seq<char>, Record)>, i: int)
    requires
        distinct(t),
        0 <= i < t.len(),
    ensures
        assigned(t, t[i].0),
        position(t, t[i].0) == i,
        record_of(t, t[i].0) == t[i].1,
{
    let v = t[i].0;
    let p = position(t, v);
    assert(0 <= p < t.len() && t[p].0 == v);
    if p < i {
        assert(t[p].0 != t[i].0);
    }
    if i < p {
        assert(t[i].0 != t[p].0);
    }
}

/// A new record at the end leaves the older ones as they were.
pub proof fn lemma_push(t: Seq<(Seq<char>, Record)>, e: (Seq<char>, Record))
    requires
        distinct(t),
        !assigned(t, e.0),
    ensures
        distinct(t.push(e)),
        assigned(t.push(e), e.0),
        record_of(t.push(e), e.0) == e.1,
        forall|v: Seq<char>| #[trigger] assigned(t.push(e), v) <==> (assigned(t, v) || v == e.0),
        forall|v: Seq<char>| assigned(t, v) ==> #[trigger] record_of(t.push(e), v) == record_of(t, v),
        forall|l: Lit| assigned(t, l.var) ==> #[trigger] lit_true(t.push(e), l) == lit_true(t, l),
        forall|l: Lit| assigned(t, l.var) ==> #[trigger] lit_false(t.push(e), l) == lit_false(t, l),
{
    let u = t.push(e);
    assert forall|i: int, j: int| 0 <= i < j < u.len() implies (#[trigger] u[i]).0 != (#[trigger] u[j]).0 by {
        if j == t.len() {
            assert(t[i].0 != e.0);
        } else {
            assert(t[i].0 != t[j].0);
        }
    }
    assert(u[t.len() as int] == e);
    lemma_position(u, t.len() as int);
    assert forall|v: Seq<char>| #[trigger] assigned(u, v) <==> (assigned(t, v) || v == e.0) by {
        if assigned(t, v) {
            let i = position(t, v);
            assert(u[i].0 == v);
        }
        if assigned(u, v) {
            let i = position(u, v);
            if i < t.len() {
                assert(t[i].0 == v);
            }
        }
    }
    assert forall|v: Seq<char>| assigned(t, v) implies #[trigger] record_of(u, v) == record_of(t, v) by {
        let i = position(t, v);
        assert(u[i] == t[i]);
        lemma_position(u, i);
    }
}

/// A prefix of the trail holds the records that stand in it, unchanged.
pub proof fn lemma_prefix(t: Seq<(Seq<char>, Record)>, k: int)
    requires
        distinct(t),
        0 <= k <= t.len(),
    ensures
        distinct(t.take(k)),
        forall|v: Seq<char>| #[trigger] assigned(t.take(k), v) <==> (assigned(t, v) && position(t, v) < k),
        forall|v: Seq<char>| assigned(t.take(k), v) ==> #[trigger] record_of(t.take(k), v) == record_of(t, v),
        forall|l: Lit| #[trigger] lit_true(t.take(k), l) ==> lit_true(t, l),
        forall|l: Lit| #[trigger] lit_false(t.take(k), l) ==> lit_false(t, l),
{
    let u = t.take(k);
    assert forall|i: int, j: int| 0 <= i < j < u.len() implies (#[trigger] u[i]).0 != (#[trigger] u[j]).0 by {
        assert(t[i].0 != t[j].0);
    }
    assert forall|v: Seq<char>| #[trigger] assigned(u, v) <==> (assigned(t, v) && position(t, v) < k) by {
        if assigned(u, v) {
            let i = position(u, v);
            assert(t[i].0 == v);
            lemma_position(t, i);
        }
        if assigned(t, v) && position(t, v) < k {
            let i = position(t, v);
            assert(u[i].0 == v);
        }
    }
    assert forall|v: Seq<char>| assigned(u, v) implies #[trigger] record_of(u, v) == record_of(t, v) by {
        let i = position(u, v);
        assert(t[i] == u[i]);
        lemma_position(t, i);
    }
}

// ---------------------------------------------------------------------
// Counting
// ---------------------------------------------------------------------

/// The count is no more than the length.
pub proof fn lemma_count_le(c: Seq<Lit>, p: spec_fn(Lit) -> bool)
    ensures
        count_if(c, p) <= c.len(),
    decreases c.len(),
{
    if c.len() > 0 {
        lemma_count_le(c.drop_last(), p);
    }
}

/// The count is zero exactly when no literal meets the predicate.
pub proof fn lemma_count_zero(c: Seq<Lit>, p: spec_fn(Lit) -> bool)
    ensures
        count_if(c, p) == 0 <==> forall|i: int| 0 <= i < c.len() ==> !p(#[trigger] c[i]),
    decreases c.len(),
{
    if c.len() > 0 {
        let d = c.drop_last();
        lemma_count_zero(d, p);
        if count_if(c, p) == 0 {
            assert forall|i: int| 0 <= i < c.len() implies !p(#[trigger] c[i]) by {
                if i < d.len() {
                    assert(d[i] == c[i]);
                }
            }
        }
        if forall|i: int| 0 <= i < c.len() ==> !p(#[trigger] c[i]) {
            assert forall|i: int| 0 <= i < d.len() implies !p(#[trigger] d[i]) by {
                assert(d[i] == c[i]);
            }
            assert(!p(c[c.len() - 1]));
        }
    }
}

/// The count is the length exactly when every literal meets the predicate.
pub proof fn lemma_count_full(c: Seq<Lit>, p: spec_fn(Lit) -> bool)
    ensures
        count_if(c, p) == c.len() <==> forall|i: int| 0 <= i < c.len() ==> p(#[trigger] c[i]),
    decreases c.len(),
{
    if c.len() > 0 {
        let d = c.drop_last();
        lemma_count_full(d, p);
        lemma_count_le(d, p);
        if count_if(c, p) == c.len() {
            assert forall|i: int| 0 <= i < c.len() implies p(#[trigger] c[i]) by {
                if i < d.len() {
                    assert(d[i] == c[i]);
                }
            }
        }
        if forall|i: int| 0 <= i < c.len() ==> p(#[trigger] c[i]) {
            assert forall|i: int| 0 <= i < d.len() implies p(#[trigger] d[i]) by {
                assert(d[i] == c[i]);
            }
            assert(p(c[c.len() - 1]));
        }
    }
}

/// The `i`-th literal fails the predicate and every other meets it.
pub open spec fn sole_exception(c: Seq<Lit>, p: spec_fn(Lit) -> bool, i: int) -> bool {
    &&& 0 <= i < c.len()
    &&& !p(c[i])
    &&& forall|j: int| 0 <= j < c.len() && j != i ==> p(#[trigger] c[j])
}

/// Where one literal alone fails the predicate, the count is one short of
/// the length.
pub proof fn lemma_sole_exception_count(c: Seq<Lit>, p: spec_fn(Lit) -> bool, i: int)
    requires
        sole_exception(c, p, i),
    ensures
        count_if(c, p) == c.len() - 1,
    decreases c.len(),
{
    let d = c.drop_last();
    let n = c.len() - 1;
    if i == n {
        assert forall|j: int| 0 <= j < d.len() implies p(#[trigger] d[j]) by {
            assert(d[j] == c[j]);
        }
        lemma_count_full(d, p);
    } else {
        assert(p(c[n]));
        assert(d[i] == c[i]);
        assert forall|j: int| 0 <= j < d.len() && j != i implies p(#[trigger] d[j]) by {
            assert(d[j] == c[j]);
        }
        lemma_sole_exception_count(d, p, i);
    }
}

/// Where the count is one short of the length, one literal alone fails the
/// predicate.
pub proof fn lemma_count_sole_exception(c: Seq<Lit>, p: spec_fn(Lit) -> bool) -> (i: int)
    requires
        count_if(c, p) == c.len() - 1,
    ensures
        sole_exception(c, p, i),
    decreases c.len(),
{
    let d = c.drop_last();
    let n = c.len() - 1;
    lemma_count_le(d, p);
    if p(c.last()) {
        let i = lemma_count_sole_exception(d, p);
        assert(c[i] == d[i]);
        assert forall|j: int| 0 <= j < c.len() && j != i implies p(#[trigger] c[j]) by {
            if j < d.len() {
                assert(d[j] == c[j]);
            }
        }
        i
    } else {
        lemma_count_full(d, p);
        assert forall|j: int| 0 <= j < c.len() && j != n implies p(#[trigger] c[j]) by {
            assert(d[j] == c[j]);
        }
        n
    }
}

/// Those that meet the predicate and those that do not make up the clause.
pub proof fn lemma_count_complement(c: Seq<Lit>, p: spec_fn(Lit) -> bool)
    ensures
        count_if(c, p) + count_if(c, |l: Lit| !p(l)) == c.len(),
    decreases c.len(),
{
    if c.len() > 0 {
        lemma_count_complement(c.drop_last(), p);
    }
}

/// The `i`-th literal meets the predicate and no other does.
pub open spec fn sole_witness(c: Seq<Lit>, p: spec_fn(Lit) -> bool, i: int) -> bool {
    &&& 0 <= i < c.len()
    &&& p(c[i])
    &&& forall|j: int| 0 <= j < c.len() && j != i ==> !p(#[trigger] c[j])
}

/// Where one literal alone meets the predicate, the count is one.
pub proof fn lemma_sole_witness_count(c: Seq<Lit>, p: spec_fn(Lit) -> bool, i: int)
    requires
        sole_witness(c, p, i),
    ensures
        count_if(c, p) == 1,
{
    let q = |l: Lit| !p(l);
    lemma_count_complement(c, p);
    assert(!q(c[i]));
    assert forall|j: int| 0 <= j < c.len() && j != i implies q(#[trigger] c[j]) by {
        assert(!p(c[j]));
    }
    lemma_sole_exception_count(c, q, i);
}

/// Where the count is one, one literal alone meets the predicate.
pub proof fn lemma_count_sole_witness(c: Seq<Lit>, p: spec_fn(Lit) -> bool) -> (i: int)
    requires
        count_if(c, p) == 1,
    ensures
        sole_witness(c, p, i),
{
    let q = |l: Lit| !p(l);
    lemma_count_complement(c, p);
    let i = lemma_count_sole_exception(c, q);
    assert(p(c[i]));
    assert forall|j: int| 0 <= j < c.len() && j != i implies !p(#[trigger] c[j]) by {
        assert(q(c[j]));
    }
    i
}

// ---------------------------------------------------------------------
// Classification
// ---------------------------------------------------------------------

/// The `i`-th literal of the clause is unassigned and every other is false.
pub open spec fn sole_unassigned(c: Seq<Lit>, t: Seq<(Seq<char>, Record)>, i: int) -> bool {
    &&& 0 <= i < c.len()
    &&& !assigned(t, c[i].var)
    &&& forall|j: int| 0 <= j < c.len() && j != i ==> lit_false(t, #[trigger] c[j])
}

/// A clause is satisfied exactly when one of its literals is true.
pub proof fn lemma_status_satisfied(c: Seq<Lit>, t: Seq<(Seq<char>, Record)>)
    ensures
        status(c, t) == ClauseStatus::Satisfied <==> exists|i: int|
            0 <= i < c.len() && lit_true(t, #[trigger] c[i]),
{
    lemma_count_zero(c, is_true_under(t));
    if exists|i: int| 0 <= i < c.len() && lit_true(t, #[trigger] c[i]) {
        let i = choose|i: int| 0 <= i < c.len() && lit_true(t, #[trigger] c[i]);
        assert(is_true_under(t)(c[i]));
    }
    if status(c, t) == ClauseStatus::Satisfied {
        let i = choose|i: int| 0 <= i < c.len() && is_true_under(t)(#[trigger] c[i]);
        assert(lit_true(t, c[i]));
    }
}

/// A clause is unsatisfied exactly when all its literals are false.
pub proof fn lemma_status_unsatisfied(c: Seq<Lit>, t: Seq<(Seq<char>, Record)>)
    ensures
        status(c, t) == ClauseStatus::Unsatisfied <==> falsified(c, t),
{
    let pt = is_true_under(t);
    let pf = is_false_under(t);
    lemma_count_zero(c, pt);
    lemma_count_full(c, pf);
    if falsified(c, t) {
        assert forall|i: int| 0 <= i < c.len() implies pf(#[trigger] c[i]) by {
            assert(lit_false(t, c[i]));
        }
        assert forall|i: int| 0 <= i < c.len() implies !pt(#[trigger] c[i]) by {
            assert(lit_false(t, c[i]));
        }
    }
    if status(c, t) == ClauseStatus::Unsatisfied {
        assert forall|i: int| 0 <= i < c.len() implies lit_false(t, #[trigger] c[i]) by {
            assert(pf(c[i]));
        }
    }
}

/// In a unit clause the unassigned literal is the only one that is not
/// false.
pub proof fn lemma_status_unit(c: Seq<Lit>, t: Seq<(Seq<char>, Record)>)
    requires
        status(c, t) == ClauseStatus::Unit,
    ensures
        sole_unassigned(c, t, unit_index(c, t)),
{
    let pt = is_true_under(t);
    let pf = is_false_under(t);
    lemma_count_zero(c, pt);
    let i = lemma_count_sole_exception(c, pf);
    assert(!pt(c[i]));
    assert(!assigned(t, c[i].var));
    assert forall|j: int| 0 <= j < c.len() && j != i implies lit_false(t, #[trigger] c[j]) by {
        assert(pf(c[j]));
    }
    let u = unit_index(c, t);
    assert(0 <= u < c.len() && !assigned(t, c[u].var));
    if u != i {
        assert(lit_false(t, c[u]));
    }
}

/// A clause with one unassigned literal, all others false, is unit, and
/// that literal is its unit literal.
pub proof fn lemma_sole_unassigned(c: Seq<Lit>, t: Seq<(Seq<char>, Record)>, i: int)
    requires
        sole_unassigned(c, t, i),
    ensures
        status(c, t) == ClauseStatus::Unit,
        unit_index(c, t) == i,
{
    let pt = is_true_under(t);
    let pf = is_false_under(t);
    lemma_count_zero(c, pt);
    assert forall|j: int| 0 <= j < c.len() implies !pt(#[trigger] c[j]) by {
        if j != i {
            assert(lit_false(t, c[j]));
        }
    }
    assert(!pf(c[i]));
    assert forall|j: int| 0 <= j < c.len() && j != i implies pf(#[trigger] c[j]) by {
        assert(lit_false(t, c[j]));
    }
    lemma_sole_exception_count(c, pf, i);
    let u = unit_index(c, t);
    assert(0 <= u < c.len() && !assigned(t, c[u].var));
    if u != i {
        assert(lit_false(t, c[u]));
    }
}

// ---------------------------------------------------------------------
// The trail and the variables of the formula
// ---------------------------------------------------------------------

/// A trail over the listed variables is no longer than the list, and as
/// long exactly when every listed variable is assigned.
pub proof fn lemma_trail_bounded(t: Seq<(Seq<char>, Record)>, list: Seq<Seq<char>>)
    requires
        distinct(t),
        list.no_duplicates(),
        forall|i: int| 0 <= i < t.len() ==> list.to_set().contains((#[trigger] t[i]).0),
    ensures
        t.len() <= list.len(),
        t.len() == list.len() <==> forall|v: Seq<char>| #[trigger] list.to_set().contains(v) ==> assigned(t, v),
{
    let vars = t.map_values(|e: (Seq<char>, Record)| e.0);
    assert forall|i: int, j: int| 0 <= i < vars.len() && 0 <= j < vars.len() && i != j implies vars[i] != vars[j] by {
        if i < j {
            assert(t[i].0 != t[j].0);
        } else {
            assert(t[j].0 != t[i].0);
        }
    }
    vars.unique_seq_to_set();
    list.unique_seq_to_set();
    vstd::seq_lib::seq_to_set_is_finite(vars);
    vstd::seq_lib::seq_to_set_is_finite(list);
    assert forall|v: Seq<char>| vars.to_set().contains(v) implies list.to_set().contains(v) by {
        let i = choose|i: int| 0 <= i < vars.len() && vars[i] == v;
        assert(t[i].0 == v);
    }
    vstd::set_lib::lemma_len_subset(vars.to_set(), list.to_set());
    if t.len() == list.len() {
        vstd::set_lib::lemma_subset_equality(vars.to_set(), list.to_set());
        assert forall|v: Seq<char>| list.to_set().contains(v) implies assigned(t, v) by {
            assert(vars.to_set().contains(v));
            let i = choose|i: int| 0 <= i < vars.len() && vars[i] == v;
            assert(t[i].0 == v);
        }
    }
    if forall|v: Seq<char>| #[trigger] list.to_set().contains(v) ==> assigned(t, v) {
        assert forall|v: Seq<char>| list.to_set().contains(v) implies vars.to_set().contains(v) by {
            assert(assigned(t, v));
            let i = position(t, v);
            assert(vars[i] == v);
        }
        assert(vars.to_set() =~= list.to_set());
    }
}

/// A record forced by a clause of the database, put at the end of the
/// trail at the current level, keeps the shape of the trail.
pub proof fn lemma_extend_forced(
    db: Seq<Seq<Lit>>,
    vars: Set<Seq<char>>,
    tr: Trail,
    v: Seq<char>,
    value: bool,
    a: Seq<Lit>,
)
    requires
        search_invariant(db, vars, tr),
        forces(a, tr.entries, v, value),
        db.contains(a),
        vars.contains(v),
    ensures
        !assigned(tr.entries, v),
        search_invariant(
            db,
            vars,
            (Trail { entries: tr.entries.push((v, (Record { value, antecedent: Some(a), dl: tr.dl }))), dl: tr.dl }),
        ),
{
    let t = tr.entries;
    let e = (v, (Record { value, antecedent: Some(a), dl: tr.dl }));
    let u = t.push(e);
    lemma_status_unit(a, t);
    lemma_push(t, e);
    assert(u.take(t.len() as int) =~= t);
    assert forall|i: int| 0 <= i < u.len() implies #[trigger] step_ok(db, u, i) by {
        if i < t.len() {
            assert(step_ok(db, t, i));
            assert(u.take(i) =~= t.take(i));
            assert(u[i] == t[i]);
            if i > 0 {
                assert(u[i - 1] == t[i - 1]);
            }
        }
    }
    assert forall|i: int, j: int| 0 <= i <= j < u.len() implies (#[trigger] u[i]).1.dl <= (#[trigger] u[j]).1.dl by {
        if j < t.len() {
            assert(t[i].1.dl <= t[j].1.dl);
        } else if i < t.len() {
            assert(0 <= t[i].1.dl <= tr.dl);
        }
    }
    assert forall|i: int| 0 <= i < u.len() implies 0 <= (#[trigger] u[i]).1.dl <= tr.dl by {
        if i < t.len() {
            assert(0 <= t[i].1.dl <= tr.dl);
        }
    }
    assert forall|i: int| 0 <= i < u.len() implies vars.contains((#[trigger] u[i]).0) by {
        if i < t.len() {
            assert(vars.contains(t[i].0));
        }
    }
}

/// A decision on an unassigned variable, put at the end of the trail at the
/// next level, keeps the shape of the trail.
pub proof fn lemma_extend_decision(
    db: Seq<Seq<Lit>>,
    vars: Set<Seq<char>>,
    tr: Trail,
    v: Seq<char>,
    value: bool,
)
    requires
        search_invariant(db, vars, tr),
        !assigned(tr.entries, v),
        vars.contains(v),
    ensures
        search_invariant(
            db,
            vars,
            (Trail {
                entries: tr.entries.push((v, (Record { value, antecedent: None, dl: tr.dl + 1 }))),
                dl: tr.dl + 1,
            }),
        ),
{
    let t = tr.entries;
    let e = (v, (Record { value, antecedent: None, dl: tr.dl + 1 }));
    let u = t.push(e);
    lemma_push(t, e);
    assert forall|i: int| 0 <= i < u.len() implies #[trigger] step_ok(db, u, i) by {
        if i < t.len() {
            assert(step_ok(db, t, i));
            assert(u.take(i) =~= t.take(i));
            assert(u[i] == t[i]);
            if i > 0 {
                assert(u[i - 1] == t[i - 1]);
            }
        }
    }
    assert forall|i: int, j: int| 0 <= i <= j < u.len() implies (#[trigger] u[i]).1.dl <= (#[trigger] u[j]).1.dl by {
        if j < t.len() {
            assert(t[i].1.dl <= t[j].1.dl);
        } else if i < t.len() {
            assert(0 <= t[i].1.dl <= tr.dl);
        }
    }
    assert forall|i: int| 0 <= i < u.len() implies 0 <= (#[trigger] u[i]).1.dl <= tr.dl + 1 by {
        if i < t.len() {
            assert(0 <= t[i].1.dl <= tr.dl);
        }
    }
    assert forall|i: int| 0 <= i < u.len() implies vars.contains((#[trigger] u[i]).0) by {
        if i < t.len() {
            assert(vars.contains(t[i].0));
        }
    }
}

} // verus!
