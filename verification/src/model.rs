//! The mathematical model that the contracts of this crate speak of.
//!
//! A literal is a pair of a name and a sign, a clause a sequence of literals,
//! and the trail a sequence of records in the order in which they were made.

use crate::solver::{ClauseStatus, UnitPropagationResult};
use vstd::prelude::*;

verus! {

/// A literal: a variable name and whether it is negated.
pub struct Lit {
    pub var: Seq<char>,
    pub neg: bool,
}

/// What the trail records of one variable.
pub struct Record {
    pub value: bool,
    /// The clause that forced the value; `None` for a decision.
    pub antecedent: Option<Seq<Lit>>,
    pub dl: int,
}

/// The trail: its records, oldest first, and the current decision level.
pub struct Trail {
    pub entries: Seq<(Seq<char>, Record)>,
    pub dl: int,
}

/// A formula: its clauses and the set of its variables.
pub struct Cnf {
    pub clauses: Seq<Seq<Lit>>,
    pub variables: Set<Seq<char>>,
}

// ---------------------------------------------------------------------
// Text
// ---------------------------------------------------------------------

/// The text of a literal: its name, behind a `¬` when it is negated.
pub open spec fn lit_text(l: Lit) -> Seq<char> {
    if l.neg {
        seq!['¬'] + l.var
    } else {
        l.var
    }
}

/// The parts in order, with the separator between each two neighbours.
pub open spec fn join(parts: Seq<Seq<char>>, sep: Seq<char>) -> Seq<char>
    decreases parts.len(),
{
    if parts.len() == 0 {
        Seq::empty()
    } else if parts.len() == 1 {
        parts[0]
    } else {
        join(parts.drop_last(), sep) + sep + parts.last()
    }
}

/// The text of a clause: its literals joined by ` ∨ `.
pub open spec fn clause_text(c: Seq<Lit>) -> Seq<char> {
    join(c.map_values(|l: Lit| lit_text(l)), seq![' ', '∨', ' '])
}

/// The text of a formula: its clauses joined by ` ∧ `.
pub open spec fn formula_text(db: Seq<Seq<Lit>>) -> Seq<char> {
    join(db.map_values(|c: Seq<Lit>| clause_text(c)), seq![' ', '∧', ' '])
}

// ---------------------------------------------------------------------
// Variables of a formula
// ---------------------------------------------------------------------

/// Some literal of some clause is on `v`.
pub open spec fn occurs(db: Seq<Seq<Lit>>, v: Seq<char>) -> bool {
    exists|j: int, i: int| 0 <= j < db.len() && 0 <= i < db[j].len() && (#[trigger] db[j][i]).var == v
}

/// The variables that occur in the clauses.
pub open spec fn variables_of(db: Seq<Seq<Lit>>) -> Set<Seq<char>> {
    Set::new(|v: Seq<char>| occurs(db, v))
}

// ---------------------------------------------------------------------
// The trail as a mapping
// ---------------------------------------------------------------------

/// The trail holds a record of `v`.
pub open spec fn assigned(t: Seq<(Seq<char>, Record)>, v: Seq<char>) -> bool {
    exists|i: int| 0 <= i < t.len() && (#[trigger] t[i]).0 == v
}

/// Where the record of `v` stands in the trail.
pub open spec fn position(t: Seq<(Seq<char>, Record)>, v: Seq<char>) -> int {
    choose|i: int| 0 <= i < t.len() && (#[trigger] t[i]).0 == v
}

/// The record of `v`.
pub open spec fn record_of(t: Seq<(Seq<char>, Record)>, v: Seq<char>) -> Record {
    t[position(t, v)].1
}

/// No variable has two records.
pub open spec fn distinct(t: Seq<(Seq<char>, Record)>) -> bool {
    forall|i: int, j: int| 0 <= i < j < t.len() ==> (#[trigger] t[i]).0 != (#[trigger] t[j]).0
}

/// The literal is true under the trail: its variable is assigned, and the
/// value differs from the negation flag.
pub open spec fn lit_true(t: Seq<(Seq<char>, Record)>, l: Lit) -> bool {
    assigned(t, l.var) && record_of(t, l.var).value != l.neg
}

/// The literal is false under the trail: its variable is assigned, and the
/// value equals the negation flag.
pub open spec fn lit_false(t: Seq<(Seq<char>, Record)>, l: Lit) -> bool {
    assigned(t, l.var) && record_of(t, l.var).value == l.neg
}

/// The decision level at which the literal's variable was assigned.
pub open spec fn level_of(t: Seq<(Seq<char>, Record)>, l: Lit) -> int {
    record_of(t, l.var).dl
}

/// The predicate that keeps the records made at level `b` or below.
pub open spec fn at_most(b: int) -> spec_fn((Seq<char>, Record)) -> bool {
    |e: (Seq<char>, Record)| e.1.dl <= b
}

/// Every literal of the clause is false under the trail.
pub open spec fn falsified(c: Seq<Lit>, t: Seq<(Seq<char>, Record)>) -> bool {
    forall|i: int| 0 <= i < c.len() ==> lit_false(t, #[trigger] c[i])
}

// ---------------------------------------------------------------------
// Counting and classification
// ---------------------------------------------------------------------

/// The literals that are true under the trail.
pub open spec fn is_true_under(t: Seq<(Seq<char>, Record)>) -> spec_fn(Lit) -> bool {
    |l: Lit| lit_true(t, l)
}

/// The literals that are false under the trail.
pub open spec fn is_false_under(t: Seq<(Seq<char>, Record)>) -> spec_fn(Lit) -> bool {
    |l: Lit| lit_false(t, l)
}

/// The literals whose variable was assigned at level `dl`.
pub open spec fn is_at_level(t: Seq<(Seq<char>, Record)>, dl: int) -> spec_fn(Lit) -> bool {
    |l: Lit| level_of(t, l) == dl
}

/// How many literals of the clause meet the predicate, each occurrence counted.
pub open spec fn count_if(c: Seq<Lit>, p: spec_fn(Lit) -> bool) -> nat
    decreases c.len(),
{
    if c.len() == 0 {
        0
    } else {
        count_if(c.drop_last(), p) + if p(c.last()) {
            1nat
        } else {
            0nat
        }
    }
}

/// How many literals of the clause are true under the trail.
pub open spec fn count_true(c: Seq<Lit>, t: Seq<(Seq<char>, Record)>) -> nat {
    count_if(c, is_true_under(t))
}

/// How many literals of the clause are false under the trail.
pub open spec fn count_false(c: Seq<Lit>, t: Seq<(Seq<char>, Record)>) -> nat {
    count_if(c, is_false_under(t))
}

/// How many literals of the clause were assigned at level `dl`.
pub open spec fn count_at_level(c: Seq<Lit>, t: Seq<(Seq<char>, Record)>, dl: int) -> nat {
    count_if(c, is_at_level(t, dl))
}

/// The class of a clause under the trail, decided in this order: satisfied
/// when a literal is true, unsatisfied when all are false, unit when all but
/// one are false, unresolved otherwise.
pub open spec fn status(c: Seq<Lit>, t: Seq<(Seq<char>, Record)>) -> ClauseStatus {
    if count_true(c, t) > 0 {
        ClauseStatus::Satisfied
    } else if count_false(c, t) == c.len() {
        ClauseStatus::Unsatisfied
    } else if count_false(c, t) == c.len() - 1 {
        ClauseStatus::Unit
    } else {
        ClauseStatus::Unresolved
    }
}

/// Where an unassigned literal stands in the clause.
pub open spec fn unit_index(c: Seq<Lit>, t: Seq<(Seq<char>, Record)>) -> int {
    choose|i: int| 0 <= i < c.len() && !assigned(t, (#[trigger] c[i]).var)
}

/// The unassigned literal of a unit clause.
pub open spec fn unit_literal(c: Seq<Lit>, t: Seq<(Seq<char>, Record)>) -> Lit {
    c[unit_index(c, t)]
}

/// The clause is unit under `before`, and its unassigned literal is on `v`
/// and is made true by `value`.
pub open spec fn forces(c: Seq<Lit>, before: Seq<(Seq<char>, Record)>, v: Seq<char>, value: bool) -> bool {
    &&& status(c, before) == ClauseStatus::Unit
    &&& unit_literal(c, before).var == v
    &&& value == !unit_literal(c, before).neg
}

// ---------------------------------------------------------------------
// The shape of a trail that a search has built
// ---------------------------------------------------------------------

/// The level of the record before the `i`-th, and 0 before the first.
pub open spec fn level_before(t: Seq<(Seq<char>, Record)>, i: int) -> int {
    if i <= 0 {
        0
    } else {
        t[i - 1].1.dl
    }
}

/// The `i`-th record is either a decision that opens the next level, or was
/// forced, at the level reached so far, by a clause of the database that was
/// unit under the records before it.
pub open spec fn step_ok(db: Seq<Seq<Lit>>, t: Seq<(Seq<char>, Record)>, i: int) -> bool {
    match t[i].1.antecedent {
        None => t[i].1.dl == level_before(t, i) + 1,
        Some(a) => {
            &&& t[i].1.dl == level_before(t, i)
            &&& forces(a, t.take(i), t[i].0, t[i].1.value)
            &&& db.contains(a)
        },
    }
}

/// What holds of the trail at every point of a search: each variable has
/// one record at most and is a variable of the formula; levels start at 0,
/// never fall, rise by one with each decision and end at the current level;
/// every other record was forced by a clause of the database.
pub open spec fn search_invariant(db: Seq<Seq<Lit>>, vars: Set<Seq<char>>, tr: Trail) -> bool {
    let t = tr.entries;
    &&& distinct(t)
    &&& 0 <= tr.dl
    &&& tr.dl == level_before(t, t.len() as int)
    &&& forall|i: int| 0 <= i < t.len() ==> vars.contains((#[trigger] t[i]).0)
    &&& forall|i: int| 0 <= i < t.len() ==> 0 <= (#[trigger] t[i]).1.dl <= tr.dl
    &&& forall|i: int, j: int| 0 <= i <= j < t.len() ==> (#[trigger] t[i]).1.dl <= (#[trigger] t[j]).1.dl
    &&& forall|i: int| 0 <= i < t.len() ==> #[trigger] step_ok(db, t, i)
}

// ---------------------------------------------------------------------
// Unit propagation
// ---------------------------------------------------------------------

/// The record that a unit clause forces at level `dl`: its unassigned
/// literal made true, with the clause as antecedent.
pub open spec fn forced_record(c: Seq<Lit>, t: Seq<(Seq<char>, Record)>, dl: int) -> (Seq<char>, Record) {
    (unit_literal(c, t).var, Record { value: !unit_literal(c, t).neg, antecedent: Some(c), dl })
}

/// One pass over the clauses from the `j`-th on: the trail with what each
/// unit clause forced, in turn, and the place of the first clause that was
/// met with all its literals false, where the pass ends.
pub open spec fn scan(db: Seq<Seq<Lit>>, t: Seq<(Seq<char>, Record)>, dl: int, j: int) -> (
    Seq<(Seq<char>, Record)>,
    Option<int>,
)
    decreases db.len() - j,
{
    if j < 0 || j >= db.len() {
        (t, None)
    } else if status(db[j], t) == ClauseStatus::Unsatisfied {
        (t, Some(j))
    } else if status(db[j], t) == ClauseStatus::Unit {
        scan(db, t.push(forced_record(db[j], t, dl)), dl, j + 1)
    } else {
        scan(db, t, dl, j + 1)
    }
}

/// Passes over all the clauses, one after another, until one meets a
/// falsified clause or forces nothing; `passes` is how many may follow the
/// first.
pub open spec fn propagate(db: Seq<Seq<Lit>>, t: Seq<(Seq<char>, Record)>, dl: int, passes: nat) -> (
    Seq<(Seq<char>, Record)>,
    Option<int>,
)
    decreases passes,
{
    let (u, conflict) = scan(db, t, dl, 0);
    if conflict is Some || u.len() == t.len() || passes == 0 {
        (u, conflict)
    } else {
        propagate(db, u, dl, (passes - 1) as nat)
    }
}

/// `after` is `before` with records added at the end, each at level `dl`
/// and forced by a clause of the database under the records before it.
pub open spec fn extends(
    db: Seq<Seq<Lit>>,
    before: Seq<(Seq<char>, Record)>,
    after: Seq<(Seq<char>, Record)>,
    dl: int,
) -> bool {
    &&& before.len() <= after.len()
    &&& after.take(before.len() as int) == before
    &&& forall|i: int|
        before.len() <= i < after.len() ==> {
            &&& (#[trigger] after[i]).1.dl == dl
            &&& after[i].1.antecedent matches Some(a)
            &&& db.contains(a)
            &&& forces(a, after.take(i), after[i].0, after[i].1.value)
        }
}

/// No clause of the database is unit or unsatisfied under the trail.
pub open spec fn stable(db: Seq<Seq<Lit>>, t: Seq<(Seq<char>, Record)>) -> bool {
    forall|j: int|
        0 <= j < db.len() ==> {
            ||| status(#[trigger] db[j], t) == ClauseStatus::Satisfied
            ||| status(db[j], t) == ClauseStatus::Unresolved
        }
}

/// What unit propagation does to the trail and what it reports: the trail
/// grows by forced records at the current level; then either nothing is left
/// to propagate, or the reported clause of the database has all its literals
/// false.
pub open spec fn propagation(
    db: Seq<Seq<Lit>>,
    before: Trail,
    after: Trail,
    result: UnitPropagationResult,
    conflict: Option<Seq<Lit>>,
) -> bool {
    &&& after.dl == before.dl
    &&& extends(db, before.entries, after.entries, before.dl)
    &&& match result {
        UnitPropagationResult::Unresolved => conflict is None && stable(db, after.entries),
        UnitPropagationResult::Conflict => {
            &&& conflict matches Some(k)
            &&& db.contains(k)
            &&& falsified(k, after.entries)
        },
    }
}

// ---------------------------------------------------------------------
// Resolution
// ---------------------------------------------------------------------

/// `r` holds, each once, the literals of `a` and of `b` that are not on `x`.
pub open spec fn is_resolvent(a: Seq<Lit>, b: Seq<Lit>, x: Seq<char>, r: Seq<Lit>) -> bool {
    &&& r.no_duplicates()
    &&& forall|l: Lit| #[trigger] r.contains(l) <==> ((a.contains(l) || b.contains(l)) && l.var != x)
}

// ---------------------------------------------------------------------
// Truth under a total assignment
// ---------------------------------------------------------------------

/// The literal is true under the total assignment `m`.
pub open spec fn holds(m: spec_fn(Seq<char>) -> bool, l: Lit) -> bool {
    m(l.var) != l.neg
}

/// Some literal of the clause is true under the total assignment.
pub open spec fn satisfies_clause(m: spec_fn(Seq<char>) -> bool, c: Seq<Lit>) -> bool {
    exists|i: int| 0 <= i < c.len() && holds(m, #[trigger] c[i])
}

/// Every clause is true under the total assignment.
pub open spec fn satisfies(m: spec_fn(Seq<char>) -> bool, db: Seq<Seq<Lit>>) -> bool {
    forall|j: int| 0 <= j < db.len() ==> satisfies_clause(m, #[trigger] db[j])
}

/// Some total assignment makes every clause true.
pub open spec fn satisfiable(db: Seq<Seq<Lit>>) -> bool {
    exists|m: spec_fn(Seq<char>) -> bool| satisfies(m, db)
}

// ---------------------------------------------------------------------
// Conflict analysis
// ---------------------------------------------------------------------

/// The total assignment makes every antecedent on the trail true.
pub open spec fn respects_antecedents(m: spec_fn(Seq<char>) -> bool, t: Seq<(Seq<char>, Record)>) -> bool {
    forall|i: int|
        0 <= i < t.len() ==> ((#[trigger] t[i]).1.antecedent matches Some(a) ==> satisfies_clause(m, a))
}

/// Every total assignment that makes `k` and the antecedents on the trail
/// true makes `l` true: `l` can be had from them by resolution.
pub open spec fn follows_from(k: Seq<Lit>, t: Seq<(Seq<char>, Record)>, l: Seq<Lit>) -> bool {
    forall|m: spec_fn(Seq<char>) -> bool| #[trigger]
        respects_antecedents(m, t) && satisfies_clause(m, k) ==> satisfies_clause(m, l)
}

/// The variable of the literal was forced, not decided.
pub open spec fn has_antecedent(t: Seq<(Seq<char>, Record)>, l: Lit) -> bool {
    record_of(t, l.var).antecedent is Some
}

/// The variable of `l` was forced by a clause that holds a literal on
/// another variable assigned at level `dl`.
pub open spec fn forced_within_level(t: Seq<(Seq<char>, Record)>, l: Lit, dl: int) -> bool {
    record_of(t, l.var).antecedent matches Some(a) && exists|k: int|
        0 <= k < a.len() && (#[trigger] a[k]).var != l.var && level_of(t, a[k]) == dl
}

/// The clauses from which analysis at level `dl` arrives at a clause with
/// exactly one literal of that level: those that have exactly one such
/// literal, or such literals on two variables, or one whose variable was
/// forced by a clause with another literal of that level.
pub open spec fn reaches_uip(c: Seq<Lit>, t: Seq<(Seq<char>, Record)>, dl: int) -> bool {
    ||| count_at_level(c, t, dl) == 1
    ||| exists|i: int, j: int|
        0 <= i < c.len() && 0 <= j < c.len() && level_of(t, #[trigger] c[i]) == dl && level_of(
            t,
            #[trigger] c[j],
        ) == dl && c[i].var != c[j].var
    ||| exists|i: int| 0 <= i < c.len() && level_of(t, #[trigger] c[i]) == dl && forced_within_level(t, c[i], dl)
}

/// No literal of the clause that was assigned at level `dl` was forced.
pub open spec fn no_pivot(c: Seq<Lit>, t: Seq<(Seq<char>, Record)>, dl: int) -> bool {
    forall|i: int| 0 <= i < c.len() ==> !(level_of(t, #[trigger] c[i]) == dl && has_antecedent(t, c[i]))
}

/// `b` is the second-highest decision level among the literals of the
/// clause, or 0 where they are all of one level.
pub open spec fn is_backjump_level(c: Seq<Lit>, t: Seq<(Seq<char>, Record)>, b: int) -> bool {
    &&& 0 <= b
    &&& forall|i: int, j: int|
        0 <= i < c.len() && 0 <= j < c.len() ==> level_of(t, #[trigger] c[i]) <= b || level_of(
            t,
            #[trigger] c[j],
        ) <= level_of(t, c[i])
    &&& b == 0 || exists|i: int, j: int|
        0 <= i < c.len() && 0 <= j < c.len() && level_of(t, #[trigger] c[i]) == b && level_of(
            t,
            #[trigger] c[j],
        ) > b
}

/// What conflict analysis gives for the falsified clause `k`: a clause `l`
/// and a level `b`. `l` is falsified too and follows from `k` and the
/// antecedents; it is `k` itself where `k` needs no resolution or admits
/// none; it has exactly one literal of the current level where `k` is a
/// clause from which analysis arrives there, and only then: otherwise
/// analysis ran out of forced literals of that level; and `b` is its
/// second-highest level.
pub open spec fn learned(k: Seq<Lit>, tr: Trail, b: int, l: Seq<Lit>) -> bool {
    &&& falsified(l, tr.entries)
    &&& follows_from(k, tr.entries, l)
    &&& is_backjump_level(l, tr.entries, b)
    &&& count_at_level(l, tr.entries, tr.dl) == 1 || no_pivot(l, tr.entries, tr.dl)
    &&& reaches_uip(k, tr.entries, tr.dl) <==> count_at_level(l, tr.entries, tr.dl) == 1
    &&& count_at_level(k, tr.entries, tr.dl) == 1 || no_pivot(k, tr.entries, tr.dl) ==> l == k
}

/// How far the variables of the clause reach up the trail: the sum of
/// 2 to the `i` over the places `i` below `n` whose variable is in the clause.
pub open spec fn weight(c: Seq<Lit>, t: Seq<(Seq<char>, Record)>, n: nat) -> nat
    decreases n,
{
    if n == 0 {
        0
    } else {
        weight(c, t, (n - 1) as nat) + if has_var(c, t[n - 1].0) {
            vstd::arithmetic::power2::pow2((n - 1) as nat)
        } else {
            0nat
        }
    }
}

/// Some literal of the clause is on `v`.
pub open spec fn has_var(c: Seq<Lit>, v: Seq<char>) -> bool {
    exists|i: int| 0 <= i < c.len() && (#[trigger] c[i]).var == v
}

} // verus!
