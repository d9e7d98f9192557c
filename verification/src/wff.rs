//! Literals, clauses and formulas in conjunctive normal form.

use crate::model::{clause_text, formula_text, join, lit_text, occurs, variables_of, Cnf, Lit};
use vstd::prelude::*;
use vstd::string::*;

verus! {

/// A variable or its negation.
#[derive(Debug, Hash)]
pub struct Literal {
    pub value: String,
    pub negation: bool,
}

impl View for Literal {
    type V = Lit;

    open spec fn view(&self) -> Lit {
        Lit { var: self.value@, neg: self.negation }
    }
}

impl Clone for Literal {
    fn clone(&self) -> (res: Self)
        ensures
            res@ == self@,
    {
        Literal { value: self.value.clone(), negation: self.negation }
    }
}

impl PartialEq for Literal {
    fn eq(&self, other: &Literal) -> (res: bool) {
        self.value == other.value && self.negation == other.negation
    }
}

impl vstd::std_specs::cmp::PartialEqSpecImpl for Literal {
    open spec fn obeys_eq_spec() -> bool {
        true
    }

    open spec fn eq_spec(&self, other: &Literal) -> bool {
        self.value@ == other.value@ && self.negation == other.negation
    }
}

impl Eq for Literal {

}

impl Literal {
    /// The literal on the variable, negated where `negation` is set.
    pub fn new(value: String, negation: bool) -> (res: Literal)
        ensures
            res.value == value,
            res.negation == negation,
    {
        Literal { value, negation }
    }

    /// The same variable with the opposite sign.
    pub fn negate(&self) -> (res: Literal)
        ensures
            res@ == (Lit { var: self@.var, neg: !self@.neg }),
    {
        Literal { value: self.value.clone(), negation: !self.negation }
    }

    /// The name, behind a `¬` where the literal is negated.
    pub fn to_string(&self) -> (res: String)
        ensures
            res@ == lit_text(self@),
    {
        if self.negation {
            proof {
                reveal_strlit("¬");
            }
            let mut text = String::from_str("¬");
            text.append(self.value.as_str());
            assert(text@ =~= seq!['¬'] + self.value@);
            text
        } else {
            self.value.clone()
        }
    }
}

/// A disjunction of literals, in the order given.
#[derive(Debug)]
pub struct Clause {
    pub literals: Vec<Literal>,
}

/// The literals as the model has them.
pub open spec fn literals_view(v: Seq<Literal>) -> Seq<Lit> {
    v.map_values(|l: Literal| l@)
}

impl View for Clause {
    type V = Seq<Lit>;

    open spec fn view(&self) -> Seq<Lit> {
        literals_view(self.literals@)
    }
}

impl Clone for Clause {
    fn clone(&self) -> (res: Self)
        ensures
            res@ == self@,
    {
        let mut literals: Vec<Literal> = Vec::new();
        let mut i: usize = 0;
        while i < self.literals.len()
            invariant
                0 <= i <= self.literals.len(),
                literals@.len() == i,
                forall|k: int| 0 <= k < i ==> literals@[k]@ == self.literals@[k]@,
            decreases self.literals.len() - i,
        {
            literals.push(self.literals[i].clone());
            i += 1;
        }
        let res = Clause { literals };
        assert(res@ =~= self@);
        res
    }
}

impl Clause {
    /// The disjunction of the literals.
    pub fn new(literals: Vec<Literal>) -> (res: Clause)
        ensures
            res.literals == literals,
    {
        Clause { literals }
    }

    /// The literals, joined by ` ∨ `.
    pub fn to_string(&self) -> (res: String)
        ensures
            res@ == clause_text(self@),
    {
        let ghost parts = self@.map_values(|l: Lit| lit_text(l));
        let ghost sep = seq![' ', '∨', ' '];
        let mut result = String::new();
        let mut i: usize = 0;
        while i < self.literals.len()
            invariant
                0 <= i <= self.literals.len(),
                parts == self@.map_values(|l: Lit| lit_text(l)),
                sep == seq![' ', '∨', ' '],
                result@ == join(parts.take(i as int), sep),
            decreases self.literals.len() - i,
        {
            if i > 0 {
                proof {
                    reveal_strlit(" ∨ ");
                }
                result.append(" ∨ ");
                assert(" ∨ "@ =~= sep);
            }
            let text = self.literals[i].to_string();
            result.append(text.as_str());
            proof {
                let next = parts.take(i as int + 1);
                assert(next.drop_last() =~= parts.take(i as int));
                assert(next.last() == text@);
                if i == 0 {
                    assert(result@ =~= text@);
                }
            }
            i += 1;
        }
        assert(parts.take(i as int) =~= parts);
        result
    }
}

/// The names as sequences of characters.
pub open spec fn names(v: Seq<String>) -> Seq<Seq<char>> {
    v.map_values(|s: String| s@)
}

/// The clauses as sequences of literals.
pub open spec fn clauses_view(v: Seq<Clause>) -> Seq<Seq<Lit>> {
    v.map_values(|c: Clause| c@)
}

/// A conjunction of clauses, with the variables that they are over.
#[derive(Debug)]
pub struct Formula {
    pub clauses: Vec<Clause>,
    /// Each variable once.
    pub variables: Vec<String>,
}

impl View for Formula {
    type V = Cnf;

    open spec fn view(&self) -> Cnf {
        Cnf { clauses: clauses_view(self.clauses@), variables: names(self.variables@).to_set() }
    }
}

impl Clone for Formula {
    fn clone(&self) -> (res: Self)
        ensures
            res@ == self@,
            names(res.variables@) == names(self.variables@),
    {
        let mut clauses: Vec<Clause> = Vec::new();
        let mut i: usize = 0;
        while i < self.clauses.len()
            invariant
                0 <= i <= self.clauses.len(),
                clauses@.len() == i,
                forall|k: int| 0 <= k < i ==> clauses@[k]@ == self.clauses@[k]@,
            decreases self.clauses.len() - i,
        {
            clauses.push(self.clauses[i].clone());
            i += 1;
        }
        let mut variables: Vec<String> = Vec::new();
        let mut j: usize = 0;
        while j < self.variables.len()
            invariant
                0 <= j <= self.variables.len(),
                variables@.len() == j,
                forall|k: int| 0 <= k < j ==> variables@[k]@ == self.variables@[k]@,
            decreases self.variables.len() - j,
        {
            variables.push(self.variables[j].clone());
            j += 1;
        }
        let res = Formula { clauses, variables };
        assert(clauses_view(res.clauses@) =~= clauses_view(self.clauses@));
        assert(names(res.variables@) =~= names(self.variables@));
        res
    }
}

/// Whether the name is among the names.
pub fn contains_name(list: &Vec<String>, name: &String) -> (res: bool)
    ensures
        res == names(list@).contains(name@),
{
    let mut i: usize = 0;
    while i < list.len()
        invariant
            0 <= i <= list.len(),
            forall|k: int| 0 <= k < i ==> names(list@)[k] != name@,
        decreases list.len() - i,
    {
        if list[i] == *name {
            assert(names(list@)[i as int] == name@);
            return true;
        }
        i += 1;
    }
    false
}

impl Formula {
    /// No variable is listed twice, and every variable of a clause is listed.
    pub open spec fn wf(&self) -> bool {
        &&& names(self.variables@).no_duplicates()
        &&& forall|v: Seq<char>| occurs(self@.clauses, v) ==> self@.variables.contains(v)
    }

    /// The formula of the clauses; its variables are those that occur in them.
    pub fn new(clauses: Vec<Clause>) -> (res: Formula)
        ensures
            res.clauses == clauses,
            res@.variables == variables_of(res@.clauses),
            res.wf(),
    {
        let ghost db = clauses_view(clauses@);
        let mut variables: Vec<String> = Vec::new();
        let mut j: usize = 0;
        while j < clauses.len()
            invariant
                0 <= j <= clauses.len(),
                db == clauses_view(clauses@),
                names(variables@).no_duplicates(),
                forall|v: Seq<char>| names(variables@).contains(v) <==> occurs(db.take(j as int), v),
            decreases clauses.len() - j,
        {
            let clause = &clauses[j];
            let mut i: usize = 0;
            while i < clause.literals.len()
                invariant
                    0 <= i <= clause.literals.len(),
                    0 <= j < clauses.len(),
                    db == clauses_view(clauses@),
                    *clause == clauses@[j as int],
                    names(variables@).no_duplicates(),
                    forall|v: Seq<char>| names(variables@).contains(v) <==> (occurs(db.take(j as int), v)
                        || exists|k: int| 0 <= k < i && (#[trigger] clause@[k]).var == v),
                decreases clause.literals.len() - i,
            {
                let name = &clause.literals[i].value;
                let ghost before = names(variables@);
                if !contains_name(&variables, name) {
                    variables.push(name.clone());
                    assert(names(variables@) =~= before.push(name@));
                }
                proof {
                    let after = names(variables@);
                    assert(clause@[i as int].var == name@);
                    assert forall|v: Seq<char>| after.contains(v) <==> (occurs(db.take(j as int), v)
                        || exists|k: int| 0 <= k < i + 1 && (#[trigger] clause@[k]).var == v) by {
                        if after.contains(v) {
                            if !before.contains(v) {
                                assert(v == name@);
                            }
                        }
                        if before.contains(v) {
                            let k = choose|k: int| 0 <= k < before.len() && before[k] == v;
                            assert(after[k] == v);
                        }
                        if v == name@ {
                            if before.contains(v) {
                            } else {
                                assert(after[after.len() - 1] == v);
                            }
                        }
                    }
                }
                i += 1;
            }
            proof {
                let next = db.take(j as int + 1);
                assert(next[j as int] == clause@);
                assert forall|v: Seq<char>| names(variables@).contains(v) <==> occurs(next, v) by {
                    if occurs(next, v) {
                        let (a, b) = choose|a: int, b: int| 0 <= a < next.len() && 0 <= b < next[a].len() && (#[trigger] next[a][b]).var == v;
                        if a < j {
                            assert(db.take(j as int)[a][b].var == v);
                        } else {
                            assert(clause@[b].var == v);
                        }
                    }
                    if occurs(db.take(j as int), v) {
                        let (a, b) = choose|a: int, b: int| 0 <= a < j && 0 <= b < db.take(j as int)[a].len() && (#[trigger] db.take(j as int)[a][b]).var == v;
                        assert(next[a][b].var == v);
                    }
                    if exists|k: int| 0 <= k < clause@.len() && (#[trigger] clause@[k]).var == v {
                        let k = choose|k: int| 0 <= k < clause@.len() && (#[trigger] clause@[k]).var == v;
                        assert(next[j as int][k].var == v);
                    }
                }
            }
            j += 1;
        }
        let res = Formula { clauses, variables };
        proof {
            assert(db.take(j as int) =~= db);
            assert(res@.variables =~= variables_of(res@.clauses));
        }
        res
    }

    /// The clauses, joined by ` ∧ `.
    pub fn to_string(&self) -> (res: String)
        ensures
            res@ == formula_text(self@.clauses),
    {
        let ghost parts = self@.clauses.map_values(|c: Seq<Lit>| clause_text(c));
        let ghost sep = seq![' ', '∧', ' '];
        let mut result = String::new();
        let mut i: usize = 0;
        while i < self.clauses.len()
            invariant
                0 <= i <= self.clauses.len(),
                parts == self@.clauses.map_values(|c: Seq<Lit>| clause_text(c)),
                sep == seq![' ', '∧', ' '],
                result@ == join(parts.take(i as int), sep),
            decreases self.clauses.len() - i,
        {
            if i > 0 {
                proof {
                    reveal_strlit(" ∧ ");
                }
                result.append(" ∧ ");
                assert(" ∧ "@ =~= sep);
            }
            let text = self.clauses[i].to_string();
            result.append(text.as_str());
            proof {
                let next = parts.take(i as int + 1);
                assert(next.drop_last() =~= parts.take(i as int));
                assert(next.last() == text@);
                if i == 0 {
                    assert(result@ =~= text@);
                }
            }
            i += 1;
        }
        assert(parts.take(i as int) =~= parts);
        result
    }
}

} // verus!
