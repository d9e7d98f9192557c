//! The solver: the trail, the clause evaluator, unit propagation, conflict
//! analysis and the search loop.

use crate::analysis::{
    lemma_resolvent_falsified, lemma_resolvent_follows, lemma_resolvent_uip, lemma_resolvent_weight,
    lemma_resolvent_without_uip, lemma_uip_pivot,
};
use crate::lemmas::{
    lemma_count_zero, lemma_extend_decision, lemma_extend_forced, lemma_position, lemma_push,
    lemma_status_unit, lemma_status_unsatisfied, lemma_trail_bounded,
};
use crate::model::{
    assigned, at_most, count_at_level, count_if, distinct, extends, falsified, follows_from,
    forced_record, forces, has_antecedent, has_var, is_at_level, is_backjump_level, is_false_under,
    is_resolvent, is_true_under, learned, level_of, lit_false, no_pivot, occurs, position,
    propagate, propagation, reaches_uip, record_of, satisfiable, satisfies, satisfies_clause, scan,
    search_invariant, stable, status, unit_index, weight, Lit, Record, Trail,
};
use crate::random::pick_at_random;
use crate::search::{
    lemma_learn_and_jump, lemma_level_at_most_len, lemma_level_zero_conflict, lemma_satisfied_model,
    lemma_total_stable,
};
use crate::wff::{literals_view, names, Clause, Formula, Literal};
use vstd::prelude::*;

verus! {

/// What is recorded of one assigned variable.
#[derive(Debug)]
pub struct Assignment {
    pub value: bool,
    /// The clause that forced the value; `None` for a decision.
    pub antecedent: Option<Clause>,
    /// The decision level at which the value was set.
    pub dl: i32,
}

/// The antecedent as a sequence of literals.
pub open spec fn antecedent_view(a: Option<Clause>) -> Option<Seq<Lit>> {
    match a {
        Some(c) => Some(c@),
        None => None,
    }
}

impl View for Assignment {
    type V = Record;

    open spec fn view(&self) -> Record {
        Record { value: self.value, antecedent: antecedent_view(self.antecedent), dl: self.dl as int }
    }
}

impl Clone for Assignment {
    fn clone(&self) -> (res: Self)
        ensures
            res@ == self@,
    {
        let antecedent = match &self.antecedent {
            Some(c) => Some(c.clone()),
            None => None,
        };
        Assignment { value: self.value, antecedent, dl: self.dl }
    }
}

impl Assignment {
    /// A record of the three.
    pub fn new(value: bool, antecedent: Option<Clause>, dl: i32) -> (res: Assignment)
        ensures
            res.value == value,
            res.antecedent == antecedent,
            res.dl == dl,
    {
        Assignment { value, antecedent, dl }
    }
}

/// The records as the model has them.
pub open spec fn entries_view(v: Seq<(String, Assignment)>) -> Seq<(Seq<char>, Record)> {
    v.map_values(|e: (String, Assignment)| (e.0@, e.1@))
}

/// The trail: one record for each assigned variable, oldest first, and the
/// current decision level.
#[derive(Debug)]
pub struct Assignments {
    pub assignments: Vec<(String, Assignment)>,
    pub dl: i32,
}

impl View for Assignments {
    type V = Trail;

    open spec fn view(&self) -> Trail {
        Trail { entries: entries_view(self.assignments@), dl: self.dl as int }
    }
}

impl Assignments {
    /// No variable has two records, and every record was made at a level
    /// from 0 to the current one.
    pub open spec fn wf(&self) -> bool {
        &&& distinct(self@.entries)
        &&& 0 <= self@.dl
        &&& forall|i: int| 0 <= i < self@.entries.len() ==> 0 <= (#[trigger] self@.entries[i]).1.dl <= self@.dl
    }

    /// The empty trail at level 0.
    pub fn new() -> (res: Assignments)
        ensures
            res@.entries == Seq::<(Seq<char>, Record)>::empty(),
            res@.dl == 0,
            res.wf(),
    {
        let res = Assignments { assignments: Vec::new(), dl: 0 };
        assert(res@.entries =~= Seq::<(Seq<char>, Record)>::empty());
        res
    }

    /// Where the record of the variable stands, if it has one.
    fn find(&self, variable: &String) -> (res: Option<usize>)
        ensures
            match res {
                Some(i) => 0 <= i < self@.entries.len() && self@.entries[i as int].0 == variable@,
                None => !assigned(self@.entries, variable@),
            },
    {
        let mut i: usize = 0;
        while i < self.assignments.len()
            invariant
                0 <= i <= self.assignments.len(),
                forall|k: int| 0 <= k < i ==> (#[trigger] self@.entries[k]).0 != variable@,
            decreases self.assignments.len() - i,
        {
            if self.assignments[i].0 == *variable {
                return Some(i);
            }
            i += 1;
        }
        None
    }

    /// Records the value of an unassigned variable at the current level.
    pub fn assign(&mut self, variable: String, value: bool, antecedent: Option<Clause>)
        requires
            old(self).wf(),
            !assigned(old(self)@.entries, variable@),
        ensures
            final(self)@.entries == old(self)@.entries.push(
                (variable@, (Record { value, antecedent: antecedent_view(antecedent), dl: old(self)@.dl })),
            ),
            final(self)@.dl == old(self)@.dl,
            final(self).wf(),
    {
        let ghost before = self@.entries;
        let ghost entry = (variable@, (Record { value, antecedent: antecedent_view(antecedent), dl: self@.dl }));
        let assignment = Assignment::new(value, antecedent, self.dl);
        self.assignments.push((variable, assignment));
        proof {
            assert(self@.entries =~= before.push(entry));
            lemma_push(before, entry);
        }
    }

    /// Erases the record of the variable, if it has one.
    pub fn remove(&mut self, variable: &String)
        requires
            old(self).wf(),
        ensures
            assigned(old(self)@.entries, variable@) ==> final(self)@.entries == old(self)@.entries.remove(
                position(old(self)@.entries, variable@),
            ),
            !assigned(old(self)@.entries, variable@) ==> final(self)@.entries == old(self)@.entries,
            !assigned(final(self)@.entries, variable@),
            final(self)@.dl == old(self)@.dl,
            final(self).wf(),
    {
        let ghost before = self@.entries;
        match self.find(variable) {
            Some(i) => {
                self.assignments.remove(i);
                proof {
                    lemma_position(before, i as int);
                    assert(self@.entries =~= before.remove(i as int));
                    lemma_remove(before, i as int);
                }
            },
            None => {},
        }
    }

    /// The record of the variable, if it has one.
    pub fn get(&self, variable: &String) -> (res: Option<&Assignment>)
        requires
            self.wf(),
        ensures
            res is Some <==> assigned(self@.entries, variable@),
            res matches Some(a) ==> a@ == record_of(self@.entries, variable@),
    {
        match self.find(variable) {
            Some(i) => {
                proof {
                    lemma_position(self@.entries, i as int);
                }
                Some(&self.assignments[i].1)
            },
            None => None,
        }
    }
}

/// Taking one record out leaves the others as they were.
pub proof fn lemma_remove(t: Seq<(Seq<char>, Record)>, k: int)
    requires
        distinct(t),
        0 <= k < t.len(),
    ensures
        distinct(t.remove(k)),
        !assigned(t.remove(k), t[k].0),
        forall|i: int| 0 <= i < t.remove(k).len() ==> (#[trigger] t.remove(k)[i]) == t[if i < k { i } else { i + 1 }],
{
    let u = t.remove(k);
    assert forall|i: int, j: int| 0 <= i < j < u.len() implies (#[trigger] u[i]).0 != (#[trigger] u[j]).0 by {
        let a = if i < k { i } else { i + 1 };
        let b = if j < k { j } else { j + 1 };
        assert(t[a].0 != t[b].0);
    }
    if assigned(u, t[k].0) {
        let i = position(u, t[k].0);
        let a = if i < k { i } else { i + 1 };
        assert(u[i] == t[a]);
        if a < k {
            assert(t[a].0 != t[k].0);
        } else {
            assert(t[k].0 != t[a].0);
        }
    }
}

/// Whether the literal is among the literals.
fn contains_literal(list: &Vec<Literal>, literal: &Literal) -> (res: bool)
    ensures
        res == literals_view(list@).contains(literal@),
{
    let mut i: usize = 0;
    while i < list.len()
        invariant
            0 <= i <= list.len(),
            forall|k: int| 0 <= k < i ==> literals_view(list@)[k] != literal@,
        decreases list.len() - i,
    {
        if list[i] == *literal {
            assert(literals_view(list@)[i as int] == literal@);
            return true;
        }
        i += 1;
    }
    false
}

/// Adds to `result` the literals of `source` that are not on `pivot` and
/// that it does not hold yet.
fn gather(result: &mut Vec<Literal>, source: &Clause, pivot: &String)
    requires
        literals_view(old(result)@).no_duplicates(),
    ensures
        literals_view(final(result)@).no_duplicates(),
        forall|l: Lit| #[trigger]
            literals_view(final(result)@).contains(l) <==> (literals_view(old(result)@).contains(l) || (
            source@.contains(l) && l.var != pivot@)),
{
    let ghost before = literals_view(result@);
    let mut i: usize = 0;
    while i < source.literals.len()
        invariant
            0 <= i <= source.literals.len(),
            before == literals_view(old(result)@),
            literals_view(result@).no_duplicates(),
            forall|l: Lit| #[trigger]
                literals_view(result@).contains(l) <==> (before.contains(l) || (exists|k: int|
                    0 <= k < i && #[trigger] source@[k] == l && l.var != pivot@)),
        decreases source.literals.len() - i,
    {
        let literal = &source.literals[i];
        let ghost held = literals_view(result@);
        assert(source@[i as int] == literal@);
        if literal.value != *pivot && !contains_literal(result, literal) {
            result.push(literal.clone());
            assert(literals_view(result@) =~= held.push(literal@));
        }
        proof {
            let now = literals_view(result@);
            assert forall|l: Lit| #[trigger] now.contains(l) <==> (before.contains(l) || (exists|k: int|
                0 <= k < i + 1 && #[trigger] source@[k] == l && l.var != pivot@)) by {
                if held.contains(l) {
                    let k = choose|k: int| 0 <= k < held.len() && held[k] == l;
                    assert(now[k] == l);
                }
                if now.contains(l) && !held.contains(l) {
                    let k = choose|k: int| 0 <= k < now.len() && now[k] == l;
                    assert(k == held.len());
                    assert(l == literal@);
                }
                if l == literal@ && l.var != pivot@ {
                    if !held.contains(l) {
                        assert(now[now.len() - 1] == l);
                    }
                }
            }
        }
        i += 1;
    }
    proof {
        assert forall|l: Lit| #[trigger]
            literals_view(result@).contains(l) <==> (before.contains(l) || (source@.contains(l) && l.var
                != pivot@)) by {
            if source@.contains(l) {
                let k = choose|k: int| 0 <= k < source@.len() && source@[k] == l;
                assert(source@[k] == l);
            }
        }
    }
}

/// The verdict of a search: `Satisfied`, or `Unresolved` where no
/// satisfying assignment was found.
#[derive(Debug, Clone, Copy, PartialEq, Eq, Structural)]
pub enum SolverResult {
    Satisfied,
    Unresolved,
}

/// How a clause stands under the trail.
#[derive(Debug, Clone, Copy, PartialEq, Eq, Structural)]
pub enum ClauseStatus {
    Satisfied,
    Unsatisfied,
    Unit,
    Unresolved,
}

/// How unit propagation ended.
#[derive(Debug, Clone, Copy, PartialEq, Eq, Structural)]
pub enum UnitPropagationResult {
    Conflict,
    Unresolved,
}

/// A solver for one formula.
#[derive(Debug)]
pub struct CdclSolver {
    pub formula: Formula,
    pub assignments: Assignments,
    pub sat: SolverResult,
}

impl CdclSolver {
    /// The formula and the trail are well formed, and the trail is over the
    /// variables of the formula.
    pub open spec fn wf(&self) -> bool {
        &&& self.formula.wf()
        &&& self.assignments.wf()
        &&& forall|i: int|
            0 <= i < self.assignments@.entries.len() ==> self.formula@.variables.contains(
                (#[trigger] self.assignments@.entries[i]).0,
            )
    }

    /// The state is one that a search reaches: the formula is well formed
    /// and the trail has the shape that decisions and propagation give it.
    pub open spec fn consistent(&self) -> bool {
        &&& self.formula.wf()
        &&& search_invariant(self.formula@.clauses, self.formula@.variables, self.assignments@)
    }

    /// A solver for the formula, with an empty trail at level 0 and no verdict yet.
    pub fn new(formula: Formula) -> (res: CdclSolver)
        ensures
            res.formula == formula,
            res.assignments@.entries == Seq::<(Seq<char>, Record)>::empty(),
            res.assignments@.dl == 0,
            res.sat == SolverResult::Unresolved,
            formula.wf() ==> res.consistent(),
    {
        CdclSolver { formula, assignments: Assignments::new(), sat: SolverResult::Unresolved }
    }

    /// The trail.
    pub fn assignments(&self) -> (res: &Assignments)
        ensures
            res == &self.assignments,
    {
        &self.assignments
    }

    /// The verdict.
    pub fn sat(&self) -> (res: &SolverResult)
        ensures
            *res == self.sat,
    {
        &self.sat
    }

    /// Classifies the clause under the trail.
    pub fn clause_status(&self, clause: &Clause) -> (res: ClauseStatus)
        requires
            self.assignments.wf(),
        ensures
            res == status(clause@, self.assignments@.entries),
    {
        let ghost t = self.assignments@.entries;
        let n = clause.literals.len();
        let mut false_count: usize = 0;
        let mut true_count: usize = 0;
        let mut i: usize = 0;
        while i < n
            invariant
                0 <= i <= n,
                n == clause.literals.len(),
                self.assignments.wf(),
                t == self.assignments@.entries,
                true_count == count_if(clause@.take(i as int), is_true_under(t)),
                false_count == count_if(clause@.take(i as int), is_false_under(t)),
                true_count + false_count <= i,
            decreases n - i,
        {
            let literal = &clause.literals[i];
            proof {
                let next = clause@.take(i as int + 1);
                assert(next.drop_last() =~= clause@.take(i as int));
                assert(next.last() == literal@);
            }
            match self.assignments.get(&literal.value) {
                Some(assignment) => {
                    if assignment.value == literal.negation {
                        false_count += 1;
                    } else {
                        true_count += 1;
                    }
                },
                None => {},
            }
            i += 1;
        }
        assert(clause@.take(n as int) =~= clause@);
        if true_count > 0 {
            ClauseStatus::Satisfied
        } else if false_count == n {
            ClauseStatus::Unsatisfied
        } else if n > 0 && false_count == n - 1 {
            ClauseStatus::Unit
        } else {
            ClauseStatus::Unresolved
        }
    }

    /// Appends the clause to the clause database.
    pub fn add_learned_clause(&mut self, clause: Clause)
        ensures
            final(self).formula.clauses@ == old(self).formula.clauses@.push(clause),
            final(self).formula.variables == old(self).formula.variables,
            final(self).assignments == old(self).assignments,
            final(self).sat == old(self).sat,
    {
        self.formula.clauses.push(clause);
    }

    /// Whether every variable of the formula has a value.
    pub fn all_variables_assigned(&self) -> (res: bool)
        requires
            self.wf(),
        ensures
            res <==> forall|v: Seq<char>| #[trigger]
                self.formula@.variables.contains(v) ==> assigned(self.assignments@.entries, v),
            res <==> self.assignments@.entries.len() == self.formula.variables@.len(),
    {
        proof {
            lemma_trail_bounded(self.assignments@.entries, names(self.formula.variables@));
            assert(self.formula@.variables == names(self.formula.variables@).to_set());
        }
        self.assignments.assignments.len() == self.formula.variables.len()
    }

    /// Where the first literal without a value stands in the clause.
    fn first_unassigned(&self, clause: &Clause) -> (res: Option<usize>)
        requires
            self.assignments.wf(),
        ensures
            match res {
                Some(k) => {
                    &&& k < clause@.len()
                    &&& !assigned(self.assignments@.entries, clause@[k as int].var)
                    &&& forall|m: int| 0 <= m < k ==> assigned(self.assignments@.entries, (#[trigger] clause@[m]).var)
                },
                None => forall|m: int|
                    0 <= m < clause@.len() ==> assigned(self.assignments@.entries, (#[trigger] clause@[m]).var),
            },
    {
        let mut k: usize = 0;
        while k < clause.literals.len()
            invariant
                0 <= k <= clause.literals.len(),
                self.assignments.wf(),
                forall|m: int| 0 <= m < k ==> assigned(self.assignments@.entries, (#[trigger] clause@[m]).var),
            decreases clause.literals.len() - k,
        {
            if self.assignments.get(&clause.literals[k].value).is_none() {
                return Some(k);
            }
            k += 1;
        }
        None
    }

    /// Scans the clause database until no clause is unit, giving each unit
    /// clause's unassigned literal the value that makes it true, with that
    /// clause as antecedent, at the current level. Ends at once, with the
    /// clause, when it meets one whose literals are all false.
    pub fn unit_propagation(&mut self) -> (res: (UnitPropagationResult, Option<Clause>))
        requires
            old(self).wf(),
        ensures
            final(self).formula == old(self).formula,
            final(self).sat == old(self).sat,
            final(self).wf(),
            propagation(
                old(self).formula@.clauses,
                old(self).assignments@,
                final(self).assignments@,
                res.0,
                antecedent_view(res.1),
            ),
            old(self).consistent() ==> final(self).consistent(),
            ({
                let (entries, place) = propagate(
                    old(self).formula@.clauses,
                    old(self).assignments@.entries,
                    old(self).assignments@.dl,
                    (old(self).formula.variables@.len() - old(self).assignments@.entries.len()) as nat,
                );
                &&& final(self).assignments@.entries == entries
                &&& match place {
                    Some(j) => res.0 == UnitPropagationResult::Conflict && antecedent_view(res.1) == Some(
                        old(self).formula@.clauses[j],
                    ),
                    None => res.0 == UnitPropagationResult::Unresolved,
                }
            }),
    {
        let ghost db = self.formula@.clauses;
        let ghost vars = self.formula@.variables;
        let ghost start = self.assignments@;
        let ghost passes0 = (self.formula.variables@.len() - self.assignments@.entries.len()) as nat;
        let ghost mut passes = passes0;
        let ghost formula0 = self.formula;
        let ghost sat0 = self.sat;
        let ghost was_consistent = self.consistent();
        proof {
            assert(start.entries.take(start.entries.len() as int) =~= start.entries);
            lemma_trail_bounded(self.assignments@.entries, names(self.formula.variables@));
        }
        let mut finished = false;
        while !finished
            invariant
                formula0 == old(self).formula,
                sat0 == old(self).sat,
                start == old(self).assignments@,
                was_consistent == old(self).consistent(),
                self.formula == formula0,
                self.sat == sat0,
                self.wf(),
                db == self.formula@.clauses,
                vars == self.formula@.variables,
                self.assignments@.dl == start.dl,
                extends(db, start.entries, self.assignments@.entries, start.dl),
                finished ==> stable(db, self.assignments@.entries),
                was_consistent ==> self.consistent(),
                self.assignments@.entries.len() <= self.formula.variables@.len(),
                passes0 == (old(self).formula.variables@.len() - old(self).assignments@.entries.len()) as nat,
                self.formula.variables@.len() - self.assignments@.entries.len() <= passes,
                !finished ==> propagate(db, start.entries, start.dl, passes0) == propagate(
                    db,
                    self.assignments@.entries,
                    start.dl,
                    passes,
                ),
                finished ==> propagate(db, start.entries, start.dl, passes0) == (
                    self.assignments@.entries,
                    None::<int>,
                ),
            decreases
                    self.formula.variables@.len() - self.assignments@.entries.len(),
                    if finished { 0int } else { 1int },
        {
            finished = true;
            let ghost pass = self.assignments@.entries;
            let mut j: usize = 0;
            while j < self.formula.clauses.len()
                invariant
                    0 <= j <= self.formula.clauses.len(),
                    formula0 == old(self).formula,
                    sat0 == old(self).sat,
                    start == old(self).assignments@,
                    was_consistent == old(self).consistent(),
                    self.formula == formula0,
                    self.sat == sat0,
                    self.wf(),
                    db == self.formula@.clauses,
                    vars == self.formula@.variables,
                    self.assignments@.dl == start.dl,
                    extends(db, start.entries, self.assignments@.entries, start.dl),
                    was_consistent ==> self.consistent(),
                    pass.len() <= self.assignments@.entries.len(),
                    finished ==> self.assignments@.entries == pass,
                    finished ==> forall|k: int|
                        0 <= k < j ==> {
                            ||| status(#[trigger] db[k], self.assignments@.entries) == ClauseStatus::Satisfied
                            ||| status(db[k], self.assignments@.entries) == ClauseStatus::Unresolved
                        },
                    !finished ==> pass.len() < self.assignments@.entries.len(),
                    passes0 == (old(self).formula.variables@.len() - old(self).assignments@.entries.len()) as nat,
                    propagate(db, start.entries, start.dl, passes0) == propagate(db, pass, start.dl, passes),
                    scan(db, pass, start.dl, 0) == scan(db, self.assignments@.entries, start.dl, j as int),
                decreases self.formula.clauses.len() - j,
            {
                let clause = &self.formula.clauses[j];
                assert(db[j as int] == clause@);
                let ghost t = self.assignments@.entries;
                match self.clause_status(clause) {
                    ClauseStatus::Satisfied | ClauseStatus::Unresolved => {},
                    ClauseStatus::Unsatisfied => {
                        proof {
                            lemma_status_unsatisfied(clause@, t);
                        }
                        return (UnitPropagationResult::Conflict, Some(clause.clone()));
                    },
                    ClauseStatus::Unit => {
                        finished = false;
                        proof {
                            lemma_status_unit(clause@, t);
                        }
                        match self.first_unassigned(clause) {
                            Some(k) => {
                                let literal = &clause.literals[k];
                                assert(k as int == unit_index(clause@, t)) by {
                                    if k as int != unit_index(clause@, t) {
                                        assert(lit_false(t, clause@[k as int]));
                                    }
                                }
                                assert(literal@ == clause@[k as int]);
                                let ghost v = literal@.var;
                                let ghost value = !literal@.neg;
                                assert(forces(clause@, t, v, value));
                                assert(forced_record(clause@, t, start.dl) == (
                                    v,
                                    (Record { value, antecedent: Some(clause@), dl: start.dl }),
                                ));
                                assert(occurs(db, v));
                                proof {
                                    if was_consistent {
                                        lemma_extend_forced(db, vars, self.assignments@, v, value, clause@);
                                    }
                                }
                                self.assignments.assign(
                                    literal.value.clone(),
                                    !literal.negation,
                                    Some(clause.clone()),
                                );
                                proof {
                                    let u = self.assignments@.entries;
                                    assert(u.take(t.len() as int) =~= t);
                                    assert(u.take(start.entries.len() as int) =~= t.take(start.entries.len() as int));
                                    assert forall|i: int| start.entries.len() <= i < u.len() implies {
                                        &&& (#[trigger] u[i]).1.dl == start.dl
                                        &&& u[i].1.antecedent matches Some(a)
                                        &&& db.contains(a)
                                        &&& forces(a, u.take(i), u[i].0, u[i].1.value)
                                    } by {
                                        if i < t.len() {
                                            assert(u[i] == t[i]);
                                            assert(u.take(i) =~= t.take(i));
                                        }
                                    }
                                    assert forall|i: int| 0 <= i < u.len() implies vars.contains((#[trigger] u[i]).0) by {
                                        if i < t.len() {
                                            assert(u[i] == t[i]);
                                        }
                                    }
                                }
                            },
                            None => {
                                assert(false);
                            },
                        }
                    },
                }
                j += 1;
            }
            proof {
                lemma_trail_bounded(self.assignments@.entries, names(self.formula.variables@));
                if !finished {
                    passes = (passes - 1) as nat;
                }
            }
        }
        (UnitPropagationResult::Unresolved, None)
    }

    /// Removes every record made above level `b`.
    pub fn backtrack(&mut self, b: i32)
        requires
            old(self).assignments.wf(),
        ensures
            final(self).formula == old(self).formula,
            final(self).sat == old(self).sat,
            final(self).assignments@.dl == old(self).assignments@.dl,
            final(self).assignments@.entries == old(self).assignments@.entries.filter(at_most(b as int)),
            forall|i: int|
                0 <= i < final(self).assignments@.entries.len()
                    ==> (#[trigger] final(self).assignments@.entries[i]).1.dl <= b,
            final(self).assignments.wf(),
            old(self).wf() ==> final(self).wf(),
    {
        let ghost before = self.assignments@.entries;
        let ghost keep = at_most(b as int);
        let mut i: usize = self.assignments.assignments.len();
        proof {
            assert(before.skip(i as int) =~= Seq::<(Seq<char>, Record)>::empty());
            reveal(Seq::filter);
            assert(before.skip(i as int).filter(keep) =~= Seq::<(Seq<char>, Record)>::empty());
            assert(before.take(i as int) =~= before);
        }
        while i > 0
            invariant
                0 <= i <= before.len(),
                before == old(self).assignments@.entries,
                keep == at_most(b as int),
                self.formula == old(self).formula,
                self.sat == old(self).sat,
                self.assignments@.dl == old(self).assignments@.dl,
                old(self).assignments.wf(),
                i <= self.assignments@.entries.len(),
                self.assignments@.entries == before.take(i as int) + before.skip(i as int).filter(keep),
                distinct(self.assignments@.entries),
                forall|k: int|
                    0 <= k < self.assignments@.entries.len() ==> before.contains(
                        #[trigger] self.assignments@.entries[k],
                    ),
                forall|k: int|
                    i <= k < self.assignments@.entries.len() ==> (#[trigger] self.assignments@.entries[k]).1.dl
                        <= b,
            decreases i,
        {
            i -= 1;
            let ghost held = self.assignments@.entries;
            let ghost rest = before.skip(i as int + 1);
            proof {
                assert(held[i as int] == before[i as int]);
                assert(before.skip(i as int) =~= seq![before[i as int]] + rest);
                rest.lemma_filter_prepend(before[i as int], keep);
            }
            if self.assignments.assignments[i].1.dl > b {
                self.assignments.assignments.remove(i);
                proof {
                    let now = self.assignments@.entries;
                    assert(now =~= held.remove(i as int));
                    lemma_remove(held, i as int);
                    assert(now =~= before.take(i as int) + rest.filter(keep));
                    assert(before.skip(i as int).filter(keep) =~= rest.filter(keep));
                }
            } else {
                proof {
                    assert(held =~= before.take(i as int) + (seq![before[i as int]] + rest.filter(keep)));
                }
            }
        }
        proof {
            let now = self.assignments@.entries;
            assert(before.take(0) =~= Seq::<(Seq<char>, Record)>::empty());
            assert(before.skip(0) =~= before);
            assert(now =~= before.filter(keep));
            assert forall|k: int| 0 <= k < now.len() implies 0 <= (#[trigger] now[k]).1.dl <= self.assignments@.dl by {
                assert(before.contains(now[k]));
                let m = choose|m: int| 0 <= m < before.len() && before[m] == now[k];
                assert(0 <= before[m].1.dl <= self.assignments@.dl);
            }
            if old(self).wf() {
                assert forall|k: int| 0 <= k < now.len() implies self.formula@.variables.contains(
                    (#[trigger] now[k]).0,
                ) by {
                    assert(before.contains(now[k]));
                    let m = choose|m: int| 0 <= m < before.len() && before[m] == now[k];
                    assert(self.formula@.variables.contains(before[m].0));
                }
            }
        }
    }

    /// The literals of `a` and of `b`, each once, without those on `x`.
    pub fn resolve(&self, a: &Clause, b: &Clause, x: &str) -> (res: Clause)
        ensures
            is_resolvent(a@, b@, x@, res@),
    {
        let pivot: String = x.to_owned();
        let mut literals: Vec<Literal> = Vec::new();
        assert(literals_view(literals@) =~= Seq::<Lit>::empty());
        gather(&mut literals, a, &pivot);
        gather(&mut literals, b, &pivot);
        Clause::new(literals)
    }

    /// Counts the literals of the clause that were assigned at the current
    /// level, and finds the first of them that was forced.
    fn scan_level(&self, clause: &Clause) -> (res: (usize, Option<usize>))
        requires
            self.assignments.wf(),
            falsified(clause@, self.assignments@.entries),
        ensures
            res.0 == count_at_level(clause@, self.assignments@.entries, self.assignments@.dl),
            match res.1 {
                Some(i) => {
                    &&& i < clause@.len()
                    &&& level_of(self.assignments@.entries, clause@[i as int]) == self.assignments@.dl
                    &&& has_antecedent(self.assignments@.entries, clause@[i as int])
                },
                None => no_pivot(clause@, self.assignments@.entries, self.assignments@.dl),
            },
    {
        let ghost t = self.assignments@.entries;
        let ghost at = is_at_level(t, self.assignments@.dl);
        let mut count: usize = 0;
        let mut pivot: Option<usize> = None;
        let mut i: usize = 0;
        while i < clause.literals.len()
            invariant
                0 <= i <= clause.literals.len(),
                self.assignments.wf(),
                falsified(clause@, self.assignments@.entries),
                t == self.assignments@.entries,
                at == is_at_level(t, self.assignments@.dl),
                count <= i,
                count == count_if(clause@.take(i as int), at),
                match pivot {
                    Some(p) => {
                        &&& p < i
                        &&& level_of(t, clause@[p as int]) == self.assignments@.dl
                        &&& has_antecedent(t, clause@[p as int])
                    },
                    None => forall|m: int|
                        0 <= m < i ==> !(level_of(t, #[trigger] clause@[m]) == self.assignments@.dl
                            && has_antecedent(t, clause@[m])),
                },
            decreases clause.literals.len() - i,
        {
            let literal = &clause.literals[i];
            proof {
                let next = clause@.take(i as int + 1);
                assert(next.drop_last() =~= clause@.take(i as int));
                assert(next.last() == literal@);
                assert(lit_false(t, clause@[i as int]));
            }
            match self.assignments.get(&literal.value) {
                Some(assignment) => {
                    if assignment.dl == self.assignments.dl {
                        count += 1;
                        if pivot.is_none() && assignment.antecedent.is_some() {
                            pivot = Some(i);
                        }
                    }
                },
                None => {},
            }
            i += 1;
        }
        assert(clause@.take(i as int) =~= clause@);
        (count, pivot)
    }

    /// The second-highest decision level among the literals of the clause,
    /// or 0 where they are all of one level.
    fn backjump_level(&self, clause: &Clause) -> (res: i32)
        requires
            self.assignments.wf(),
            falsified(clause@, self.assignments@.entries),
        ensures
            is_backjump_level(clause@, self.assignments@.entries, res as int),
    {
        let ghost t = self.assignments@.entries;
        let mut top: i32 = 0;
        let mut i: usize = 0;
        while i < clause.literals.len()
            invariant
                0 <= i <= clause.literals.len(),
                self.assignments.wf(),
                falsified(clause@, self.assignments@.entries),
                t == self.assignments@.entries,
                0 <= top,
                forall|m: int| 0 <= m < i ==> 0 <= level_of(t, #[trigger] clause@[m]) <= top,
                top == 0 || exists|m: int| 0 <= m < i && level_of(t, #[trigger] clause@[m]) == top,
            decreases clause.literals.len() - i,
        {
            proof {
                assert(lit_false(t, clause@[i as int]));
                let q = position(t, clause@[i as int].var);
                assert(0 <= t[q].1.dl);
            }
            match self.assignments.get(&clause.literals[i].value) {
                Some(assignment) => {
                    if assignment.dl > top {
                        top = assignment.dl;
                    }
                },
                None => {},
            }
            i += 1;
        }
        let mut second: i32 = 0;
        let mut j: usize = 0;
        while j < clause.literals.len()
            invariant
                0 <= j <= clause.literals.len(),
                self.assignments.wf(),
                falsified(clause@, self.assignments@.entries),
                t == self.assignments@.entries,
                0 <= second,
                forall|m: int| 0 <= m < clause@.len() ==> 0 <= level_of(t, #[trigger] clause@[m]) <= top,
                top == 0 || exists|m: int| 0 <= m < clause@.len() && level_of(t, #[trigger] clause@[m]) == top,
                forall|m: int|
                    0 <= m < j ==> level_of(t, #[trigger] clause@[m]) == top || level_of(t, clause@[m])
                        <= second,
                second == 0 || (second < top && exists|m: int|
                    0 <= m < j && level_of(t, #[trigger] clause@[m]) == second),
            decreases clause.literals.len() - j,
        {
            proof {
                assert(lit_false(t, clause@[j as int]));
            }
            match self.assignments.get(&clause.literals[j].value) {
                Some(assignment) => {
                    if assignment.dl < top && assignment.dl > second {
                        second = assignment.dl;
                    }
                },
                None => {},
            }
            j += 1;
        }
        proof {
            let c = clause@;
            let b = second as int;
            assert forall|i: int, j: int| 0 <= i < c.len() && 0 <= j < c.len() implies level_of(t, #[trigger] c[i])
                <= b || level_of(t, #[trigger] c[j]) <= level_of(t, c[i]) by {
                assert(level_of(t, c[j]) <= top);
            }
            if b != 0 {
                let i = choose|m: int| 0 <= m < c.len() && level_of(t, #[trigger] c[m]) == second;
                let j = choose|m: int| 0 <= m < c.len() && level_of(t, #[trigger] c[m]) == top;
                assert(level_of(t, c[i]) == b && level_of(t, c[j]) > b);
            }
        }
        second
    }

    /// From a clause that the trail falsifies, derives the clause to learn
    /// and the level to jump back to: resolves the clause with the
    /// antecedent of its first forced literal of the current level, again
    /// and again, until one literal of that level is left or none of them
    /// was forced. At level 0 there is nothing to learn: `(-1, None)`.
    pub fn conflict_analysis(&self, clause: &Clause) -> (res: (i32, Option<Clause>))
        requires
            self.consistent(),
            falsified(clause@, self.assignments@.entries),
        ensures
            self.assignments@.dl == 0 ==> res.0 == -1 && res.1 is None,
            self.assignments@.dl > 0 ==> {
                &&& res.1 matches Some(l)
                &&& learned(clause@, self.assignments@, res.0 as int, l@)
            },
    {
        if self.assignments.dl == 0 {
            return (-1, None);
        }
        let ghost db = self.formula@.clauses;
        let ghost vars = self.formula@.variables;
        let ghost tr = self.assignments@;
        let ghost t = tr.entries;
        let mut current = clause.clone();
        let mut done = false;
        let ghost mut resolved = false;
        while !done
            invariant
                self.consistent(),
                db == self.formula@.clauses,
                vars == self.formula@.variables,
                tr == self.assignments@,
                t == tr.entries,
                falsified(current@, t),
                follows_from(clause@, t, current@),
                reaches_uip(clause@, t, tr.dl) ==> reaches_uip(current@, t, tr.dl),
                !reaches_uip(clause@, t, tr.dl) && resolved ==> count_at_level(current@, t, tr.dl) == 0,
                !resolved ==> current@ == clause@,
                resolved ==> !(count_at_level(clause@, t, tr.dl) == 1 || no_pivot(clause@, t, tr.dl)),
                done ==> count_at_level(current@, t, tr.dl) == 1 || no_pivot(current@, t, tr.dl),
            decreases weight(current@, t, t.len()), if done { 0int } else { 1int },
        {
            let (count, pivot) = self.scan_level(&current);
            if count == 1 {
                done = true;
            } else {
                match pivot {
                    None => {
                        done = true;
                    },
                    Some(i) => {
                        let literal = &current.literals[i];
                        let assignment = self.assignments.get(&literal.value).unwrap();
                        let antecedent = assignment.antecedent.as_ref().unwrap();
                        let next = self.resolve(&current, antecedent, literal.value.as_str());
                        proof {
                            let c = current@;
                            let x = c[i as int].var;
                            assert(lit_false(t, c[i as int]));
                            let p = position(t, x);
                            assert(t[p].1.antecedent == Some(antecedent@));
                            assert(has_var(c, t[p].0));
                            lemma_resolvent_falsified(db, vars, tr, c, p, next@);
                            lemma_resolvent_follows(db, vars, tr, clause@, c, p, next@);
                            lemma_resolvent_weight(db, vars, tr, c, p, next@);
                            if reaches_uip(clause@, t, tr.dl) {
                                lemma_resolvent_uip(db, vars, tr, c, i as int, next@);
                            } else {
                                if resolved {
                                    lemma_count_zero(c, is_at_level(t, tr.dl));
                                    assert(is_at_level(t, tr.dl)(c[i as int]));
                                }
                                lemma_resolvent_without_uip(db, vars, tr, c, i as int, next@);
                            }
                            resolved = true;
                        }
                        current = next;
                    },
                }
            }
        }
        let b = self.backjump_level(&current);
        proof {
            if reaches_uip(clause@, t, tr.dl) && count_at_level(current@, t, tr.dl) != 1 {
                lemma_uip_pivot(db, vars, tr, current@);
            }
        }
        (b, Some(current))
    }

    /// Picks at random a variable of the formula that has no value yet, and
    /// a polarity for it.
    pub fn pick_branching_variable(&self) -> (res: (String, bool))
        requires
            self.wf(),
            exists|v: Seq<char>| self.formula@.variables.contains(v) && !assigned(self.assignments@.entries, v),
        ensures
            self.formula@.variables.contains(res.0@),
            !assigned(self.assignments@.entries, res.0@),
    {
        let ghost t = self.assignments@.entries;
        let ghost list = names(self.formula.variables@);
        let mut unassigned: Vec<&String> = Vec::new();
        let mut i: usize = 0;
        while i < self.formula.variables.len()
            invariant
                0 <= i <= self.formula.variables.len(),
                self.wf(),
                t == self.assignments@.entries,
                list == names(self.formula.variables@),
                forall|k: int|
                    0 <= k < unassigned@.len() ==> list.contains((#[trigger] unassigned@[k])@) && !assigned(
                        t,
                        unassigned@[k]@,
                    ),
                forall|k: int| 0 <= k < i && !assigned(t, #[trigger] list[k]) ==> unassigned@.len() > 0,
            decreases self.formula.variables.len() - i,
        {
            let variable = &self.formula.variables[i];
            assert(list[i as int] == variable@);
            if self.assignments.get(variable).is_none() {
                unassigned.push(variable);
            }
            i += 1;
        }
        proof {
            let v = choose|v: Seq<char>| self.formula@.variables.contains(v) && !assigned(t, v);
            assert(list.contains(v));
            let k = choose|k: int| 0 <= k < list.len() && list[k] == v;
            assert(!assigned(t, list[k]));
        }
        let (choice, polarity) = pick_at_random(&unassigned);
        let variable = choice.unwrap();
        proof {
            let k = choose|k: int| 0 <= k < unassigned@.len() && unassigned@[k] == variable;
            assert(list.contains(unassigned@[k]@));
        }
        (variable.clone(), polarity)
    }

    /// Decides the formula. Propagates; then, while a variable is without a
    /// value, decides one at a new level and propagates again, and at each
    /// conflict learns a clause and jumps back, until the trail is full or
    /// a conflict at level 0 shows that nothing satisfies the formula.
    ///
    /// Every conflict adds a clause to the database, and between two
    /// conflicts the trail only grows: the search ends, if by nothing else,
    /// by the room that the database has.
    pub fn solve(&mut self)
        requires
            old(self).consistent(),
            old(self).assignments@.dl == 0,
            old(self).sat == SolverResult::Unresolved,
            old(self).formula.variables@.len() <= i32::MAX,
        ensures
            final(self).formula.variables == old(self).formula.variables,
            old(self).formula@.clauses.len() <= final(self).formula@.clauses.len(),
            final(self).formula@.clauses.take(old(self).formula@.clauses.len() as int) == old(
                self,
            ).formula@.clauses,
            final(self).consistent(),
            final(self).sat == SolverResult::Satisfied <==> satisfiable(old(self).formula@.clauses),
            final(self).sat == SolverResult::Satisfied ==> {
                &&& forall|v: Seq<char>| #[trigger]
                    final(self).formula@.variables.contains(v) ==> assigned(final(self).assignments@.entries, v)
                &&& forall|j: int|
                    0 <= j < final(self).formula@.clauses.len() ==> status(
                        #[trigger] final(self).formula@.clauses[j],
                        final(self).assignments@.entries,
                    ) == ClauseStatus::Satisfied
            },
    {
        let ghost db0 = self.formula@.clauses;
        let ghost vars = self.formula@.variables;
        let (reason, _) = self.unit_propagation();
        if matches!(reason, UnitPropagationResult::Conflict) {
            proof {
                let k = choose|k: Seq<Lit>| self.formula@.clauses.contains(k) && falsified(k, self.assignments@.entries);
                lemma_level_zero_conflict(db0, vars, self.assignments@, k);
                assert(self.formula@.clauses.take(db0.len() as int) =~= db0);
            }
            return ;
        }
        proof {
            assert(self.formula@.clauses.take(db0.len() as int) =~= db0);
            lemma_trail_bounded(self.assignments@.entries, names(self.formula.variables@));
        }
        while !self.all_variables_assigned()
            invariant
                db0 == old(self).formula@.clauses,
                vars == old(self).formula@.variables,
                self.formula.variables == old(self).formula.variables,
                self.formula.variables@.len() <= i32::MAX,
                self.consistent(),
                self.wf(),
                self.sat == SolverResult::Unresolved,
                db0.len() <= self.formula@.clauses.len(),
                self.formula@.clauses.take(db0.len() as int) == db0,
                forall|m: spec_fn(Seq<char>) -> bool| #[trigger] satisfies(m, db0) ==> satisfies(m, self.formula@.clauses),
                stable(self.formula@.clauses, self.assignments@.entries),
                self.assignments@.entries.len() <= self.formula.variables@.len(),
            decreases
                    usize::MAX - self.formula.clauses.len(),
                    self.formula.variables@.len() - self.assignments@.entries.len(),
        {
            let ghost clauses_before = self.formula.clauses.len();
            let ghost records_before = self.assignments@.entries.len();
            proof {
                assert(self.formula@.variables == names(self.formula.variables@).to_set());
                assert(exists|v: Seq<char>| self.formula@.variables.contains(v) && !assigned(self.assignments@.entries, v));
                lemma_level_at_most_len(self.formula@.clauses, self.formula@.variables, self.assignments@);
            }
            let (var, val) = self.pick_branching_variable();
            proof {
                lemma_extend_decision(self.formula@.clauses, self.formula@.variables, self.assignments@, var@, val);
            }
            self.assignments.dl = self.assignments.dl + 1;
            self.assignments.assign(var, val, None);
            proof {
                assert forall|i: int| 0 <= i < self.assignments@.entries.len() implies self.formula@.variables.contains(
                    (#[trigger] self.assignments@.entries[i]).0,
                ) by {}
            }
            loop
                invariant
                    db0 == old(self).formula@.clauses,
                    vars == old(self).formula@.variables,
                    self.formula.variables == old(self).formula.variables,
                    self.formula.variables@.len() <= i32::MAX,
                    self.consistent(),
                    self.wf(),
                    self.sat == SolverResult::Unresolved,
                    db0.len() <= self.formula@.clauses.len(),
                    self.formula@.clauses.take(db0.len() as int) == db0,
                    forall|m: spec_fn(Seq<char>) -> bool| #[trigger] satisfies(m, db0) ==> satisfies(m, self.formula@.clauses),
                    clauses_before <= self.formula.clauses.len(),
                    self.formula.clauses.len() == clauses_before ==> records_before < self.assignments@.entries.len(),
                ensures
                    stable(self.formula@.clauses, self.assignments@.entries),
                decreases usize::MAX - self.formula.clauses.len(),
            {
                let (reason, clause) = self.unit_propagation();
                if !matches!(reason, UnitPropagationResult::Conflict) {
                    break ;
                }
                let conflict = clause.unwrap();
                let ghost db = self.formula@.clauses;
                let ghost tr = self.assignments@;
                let (b, learnt_clause) = self.conflict_analysis(&conflict);
                if b < 0 {
                    proof {
                        lemma_level_zero_conflict(db, vars, tr, conflict@);
                    }
                    return ;
                }
                let learnt = learnt_clause.unwrap();
                proof {
                    lemma_learn_and_jump(db0, db, vars, tr, conflict@, learnt@, b as int);
                }
                self.add_learned_clause(learnt);
                self.backtrack(b);
                self.assignments.dl = b;
                proof {
                    assert(self.formula.clauses.len() == self.formula.clauses@.len());
                    assert(self.formula@.clauses =~= db.push(learnt@));
                    assert(self.formula@.clauses.take(db0.len() as int) =~= db0);
                    assert(self.assignments@ == (Trail { entries: tr.entries.filter(at_most(b as int)), dl: b as int }));
                }
            }
            proof {
                lemma_trail_bounded(self.assignments@.entries, names(self.formula.variables@));
            }
        }
        proof {
            let db = self.formula@.clauses;
            let t = self.assignments@.entries;
            assert forall|j: int| 0 <= j < db.len() implies status(#[trigger] db[j], t) == ClauseStatus::Satisfied by {
                assert forall|i: int| 0 <= i < db[j].len() implies assigned(t, (#[trigger] db[j][i]).var) by {
                    assert(occurs(db, db[j][i].var));
                }
                lemma_total_stable(db, t, j);
            }
            lemma_satisfied_model(db, t);
            let m = choose|m: spec_fn(Seq<char>) -> bool| satisfies(m, db);
            assert(satisfies(m, db0)) by {
                assert forall|j: int| 0 <= j < db0.len() implies satisfies_clause(m, #[trigger] db0[j]) by {
                    assert(db.take(db0.len() as int)[j] == db[j]);
                    assert(satisfies_clause(m, db[j]));
                }
            }
        }
        self.sat = SolverResult::Satisfied;
    }
}

} // verus!
