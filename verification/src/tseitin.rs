//! Encoding a formula, read as text, into clauses over fresh variables.
//!
//! Every distinct piece of the text gets a variable `t_1`, `t_2`, ... of its
//! own and the clauses that define it: for a literal, that the variable
//! holds exactly when the literal does; for a conjunction or a disjunction,
//! split at its first `∧` (or, where there is none, its first `∨`), that the
//! variable holds exactly when the two sides do, or one of them does.

use crate::model::{formula_text, variables_of, Lit};
use crate::text::{characters, decimal, decimal_text, is_space, is_whitespace};
use crate::wff::{clauses_view, literals_view, Clause, Formula, Literal};
use vstd::hash_map::StringHashMap;
use vstd::prelude::*;
use vstd::string::{StrSliceExecFns, StringExecFns};

verus! {

/// What an encoder remembers: how many variables it has made, and the
/// variable of each piece of text that it has met.
pub struct Names {
    pub counter: nat,
    pub memo: Map<Seq<char>, Seq<char>>,
}

/// The name of the `n`-th fresh variable.
pub open spec fn fresh_name(n: nat) -> Seq<char> {
    seq!['t', '_'] + decimal(n)
}

/// The text without the white space at its start.
pub open spec fn trim_start(s: Seq<char>) -> Seq<char>
    decreases s.len(),
{
    if s.len() > 0 && is_space(s[0]) {
        trim_start(s.skip(1))
    } else {
        s
    }
}

/// The text without the white space at its end.
pub open spec fn trim_end(s: Seq<char>) -> Seq<char>
    decreases s.len(),
{
    if s.len() > 0 && is_space(s.last()) {
        trim_end(s.drop_last())
    } else {
        s
    }
}

/// The text without the white space at its ends.
pub open spec fn trim(s: Seq<char>) -> Seq<char> {
    trim_end(trim_start(s))
}

/// Where `c` stands first in the text.
pub open spec fn first_index(s: Seq<char>, c: char) -> int {
    choose|i: int| 0 <= i < s.len() && s[i] == c && forall|k: int| 0 <= k < i ==> s[k] != c
}

/// The literal that a piece of text without `∧` and `∨` writes.
pub open spec fn atom(s: Seq<char>) -> Lit {
    if s.len() > 0 && s[0] == '¬' {
        Lit { var: s.skip(1), neg: true }
    } else {
        Lit { var: s, neg: false }
    }
}

/// The clauses that say that `var` holds exactly when `l` does.
pub open spec fn literal_clauses(var: Seq<char>, l: Lit) -> Seq<Seq<Lit>> {
    seq![
        seq![Lit { var, neg: true }, l],
        seq![Lit { var, neg: false }, Lit { var: l.var, neg: !l.neg }],
    ]
}

/// The clauses that say that `var` holds exactly when `left` and `right` do.
pub open spec fn and_clauses(var: Seq<char>, left: Seq<char>, right: Seq<char>) -> Seq<Seq<Lit>> {
    seq![
        seq![Lit { var, neg: true }, Lit { var: left, neg: false }],
        seq![Lit { var, neg: true }, Lit { var: right, neg: false }],
        seq![Lit { var, neg: false }, Lit { var: left, neg: true }, Lit { var: right, neg: true }],
    ]
}

/// The clauses that say that `var` holds exactly when `left` or `right` does.
pub open spec fn or_clauses(var: Seq<char>, left: Seq<char>, right: Seq<char>) -> Seq<Seq<Lit>> {
    seq![
        seq![Lit { var, neg: false }, Lit { var: left, neg: true }],
        seq![Lit { var, neg: false }, Lit { var: right, neg: true }],
        seq![Lit { var, neg: true }, Lit { var: left, neg: false }, Lit { var: right, neg: false }],
    ]
}

/// Trimming the start does not lengthen a text.
pub proof fn lemma_trim_start_len(s: Seq<char>)
    ensures
        trim_start(s).len() <= s.len(),
    decreases s.len(),
{
    if s.len() > 0 && is_space(s[0]) {
        lemma_trim_start_len(s.skip(1));
    }
}

/// Trimming the end does not lengthen a text.
pub proof fn lemma_trim_end_len(s: Seq<char>)
    ensures
        trim_end(s).len() <= s.len(),
    decreases s.len(),
{
    if s.len() > 0 && is_space(s.last()) {
        lemma_trim_end_len(s.drop_last());
    }
}

/// Trimming does not lengthen a text.
pub proof fn lemma_trim_len(s: Seq<char>)
    ensures
        trim(s).len() <= s.len(),
{
    lemma_trim_start_len(s);
    lemma_trim_end_len(trim_start(s));
}

/// The variable that stands for the text, with what the encoder remembers
/// afterwards and the clauses that it has added.
pub open spec fn encode_text(s: Seq<char>, names: Names, clauses: Seq<Seq<Lit>>) -> (Seq<char>, Names, Seq<Seq<Lit>>)
    decreases s.len(),
    via encode_text_decreases
{
    if names.memo.contains_key(s) {
        (names.memo[s], names, clauses)
    } else {
        let var = fresh_name(names.counter + 1);
        let named = Names { counter: names.counter + 1, memo: names.memo.insert(s, var) };
        if !s.contains('∧') && !s.contains('∨') {
            (var, named, clauses + literal_clauses(var, atom(s)))
        } else {
            let conjunction = s.contains('∧');
            let at = first_index(
                s,
                if conjunction {
                    '∧'
                } else {
                    '∨'
                },
            );
            let (left, names_left, clauses_left) = encode_text(trim(s.take(at)), named, clauses);
            let (right, names_right, clauses_right) = encode_text(trim(s.skip(at + 1)), names_left, clauses_left);
            (
                var,
                names_right,
                clauses_right + if conjunction {
                    and_clauses(var, left, right)
                } else {
                    or_clauses(var, left, right)
                },
            )
        }
    }
}

#[via_fn]
proof fn encode_text_decreases(s: Seq<char>, names: Names, clauses: Seq<Seq<Lit>>) {
    if !names.memo.contains_key(s) && !(!s.contains('∧') && !s.contains('∨')) {
        let c = if s.contains('∧') {
            '∧'
        } else {
            '∨'
        };
        lemma_first_index(s, c);
        let at = first_index(s, c);
        lemma_trim_len(s.take(at));
        lemma_trim_len(s.skip(at + 1));
    }
}

/// A character of the text has a first place in it.
pub proof fn lemma_first_index(s: Seq<char>, c: char)
    requires
        s.contains(c),
    ensures
        0 <= first_index(s, c) < s.len(),
        s[first_index(s, c)] == c,
        forall|k: int| 0 <= k < first_index(s, c) ==> s[k] != c,
{
    let j = choose|j: int| 0 <= j < s.len() && s[j] == c;
    lemma_first_below(s, c, j);
}

proof fn lemma_first_below(s: Seq<char>, c: char, j: int)
    requires
        0 <= j < s.len(),
        s[j] == c,
    ensures
        exists|i: int| 0 <= i < s.len() && s[i] == c && forall|k: int| 0 <= k < i ==> s[k] != c,
    decreases j,
{
    if exists|k: int| 0 <= k < j && s[k] == c {
        let k = choose|k: int| 0 <= k < j && s[k] == c;
        lemma_first_below(s, c, k);
    } else {
        assert(0 <= j < s.len() && s[j] == c && forall|k: int| 0 <= k < j ==> s[k] != c);
    }
}

/// The white space at the start of a text ends where its first other
/// character stands.
pub proof fn lemma_trim_start(s: Seq<char>, a: int)
    requires
        0 <= a <= s.len(),
        forall|k: int| 0 <= k < a ==> is_space(#[trigger] s[k]),
        a == s.len() || !is_space(s[a]),
    ensures
        trim_start(s) == s.skip(a),
    decreases a,
{
    if a == 0 {
        assert(s.skip(0) =~= s);
    } else {
        assert(is_space(s[0]));
        let rest = s.skip(1);
        assert forall|k: int| 0 <= k < a - 1 implies is_space(#[trigger] rest[k]) by {
            assert(is_space(s[k + 1]));
        }
        lemma_trim_start(rest, a - 1);
        assert(rest.skip(a - 1) =~= s.skip(a));
    }
}

/// The white space at the end of a text begins behind its last other
/// character.
pub proof fn lemma_trim_end(s: Seq<char>, b: int)
    requires
        0 <= b <= s.len(),
        forall|k: int| b <= k < s.len() ==> is_space(#[trigger] s[k]),
        b == 0 || !is_space(s[b - 1]),
    ensures
        trim_end(s) == s.take(b),
    decreases s.len() - b,
{
    if b == s.len() {
        assert(s.take(b) =~= s);
    } else {
        assert(is_space(s[s.len() - 1]));
        let rest = s.drop_last();
        assert forall|k: int| b <= k < rest.len() implies is_space(#[trigger] rest[k]) by {
            assert(is_space(s[k]));
        }
        lemma_trim_end(rest, b);
        assert(rest.take(b) =~= s.take(b));
    }
}

/// Gives each piece of a formula's text a variable and the clauses that
/// define it.
pub struct TseitinEncoder {
    variable_counter: usize,
    variable_map: StringHashMap<String>,
}

impl View for TseitinEncoder {
    type V = Names;

    closed spec fn view(&self) -> Names {
        Names {
            counter: self.variable_counter as nat,
            memo: self.variable_map@.map_values(|name: String| name@),
        }
    }
}

/// Where `c` stands first among the characters, if it is there.
fn find_first(chars: &Vec<char>, c: char) -> (res: Option<usize>)
    ensures
        match res {
            Some(i) => chars@.contains(c) && i == first_index(chars@, c),
            None => !chars@.contains(c),
        },
{
    let mut i: usize = 0;
    while i < chars.len()
        invariant
            0 <= i <= chars.len(),
            forall|k: int| 0 <= k < i ==> chars@[k] != c,
        decreases chars.len() - i,
    {
        if chars[i] == c {
            proof {
                assert(chars@.contains(c));
                lemma_first_index(chars@, c);
                let f = first_index(chars@, c);
                if f < i {
                    assert(chars@[f] != c);
                }
                if i < f {
                    assert(chars@[i as int] != c);
                }
            }
            return Some(i);
        }
        i += 1;
    }
    None
}

/// The part of the text from `from` to `to` without the white space at its
/// ends.
fn trimmed<'a>(text: &'a str, chars: &Vec<char>, from: usize, to: usize) -> (res: &'a str)
    requires
        chars@ == text@,
        from <= to <= chars@.len(),
    ensures
        res@ == trim(text@.subrange(from as int, to as int)),
{
    let ghost part = text@.subrange(from as int, to as int);
    let mut a: usize = from;
    while a < to && is_whitespace(chars[a])
        invariant
            from <= a <= to,
            to <= chars@.len(),
            forall|k: int| from <= k < a ==> is_space(#[trigger] chars@[k]),
        decreases to - a,
    {
        a += 1;
    }
    let mut b: usize = to;
    while b > a && is_whitespace(chars[b - 1])
        invariant
            a <= b <= to,
            to <= chars@.len(),
            forall|k: int| b <= k < to ==> is_space(#[trigger] chars@[k]),
        decreases b - a,
    {
        b -= 1;
    }
    proof {
        assert forall|k: int| 0 <= k < a - from implies is_space(#[trigger] part[k]) by {
            assert(is_space(chars@[k + from]));
        }
        lemma_trim_start(part, a - from);
        let rest = part.skip(a - from);
        assert forall|k: int| b - a <= k < rest.len() implies is_space(#[trigger] rest[k]) by {
            assert(is_space(chars@[k + a]));
        }
        if b > a {
            assert(rest[b - a - 1] == chars@[b - 1]);
        }
        lemma_trim_end(rest, b - a);
        assert(rest.take(b - a) =~= text@.subrange(a as int, b as int));
    }
    text.substring_char(a, b)
}

/// Adds the clauses that define `var` by the literal.
fn push_literal_clauses(clauses: &mut Vec<Clause>, var: &String, literal: &Literal)
    ensures
        clauses_view(final(clauses)@) == clauses_view(old(clauses)@) + literal_clauses(var@, literal@),
{
    let ghost held = clauses_view(clauses@);
    let first = vec![Literal::new(var.clone(), true), literal.clone()];
    let second = vec![Literal::new(var.clone(), false), literal.negate()];
    proof {
        assert(literals_view(first@) =~= literal_clauses(var@, literal@)[0]);
        assert(literals_view(second@) =~= literal_clauses(var@, literal@)[1]);
    }
    clauses.push(Clause::new(first));
    clauses.push(Clause::new(second));
    assert(clauses_view(clauses@) =~= held + literal_clauses(var@, literal@));
}

/// Adds the clauses that define `var` as the conjunction of the two.
fn push_and_clauses(clauses: &mut Vec<Clause>, var: &String, left: String, right: String)
    ensures
        clauses_view(final(clauses)@) == clauses_view(old(clauses)@) + and_clauses(var@, left@, right@),
{
    let ghost held = clauses_view(clauses@);
    let ghost gate = and_clauses(var@, left@, right@);
    let first = vec![Literal::new(var.clone(), true), Literal::new(left.clone(), false)];
    let second = vec![Literal::new(var.clone(), true), Literal::new(right.clone(), false)];
    let third = vec![Literal::new(var.clone(), false), Literal::new(left, true), Literal::new(right, true)];
    proof {
        assert(literals_view(first@) =~= gate[0]);
        assert(literals_view(second@) =~= gate[1]);
        assert(literals_view(third@) =~= gate[2]);
    }
    clauses.push(Clause::new(first));
    clauses.push(Clause::new(second));
    clauses.push(Clause::new(third));
    assert(clauses_view(clauses@) =~= held + gate);
}

/// Adds the clauses that define `var` as the disjunction of the two.
fn push_or_clauses(clauses: &mut Vec<Clause>, var: &String, left: String, right: String)
    ensures
        clauses_view(final(clauses)@) == clauses_view(old(clauses)@) + or_clauses(var@, left@, right@),
{
    let ghost held = clauses_view(clauses@);
    let ghost gate = or_clauses(var@, left@, right@);
    let first = vec![Literal::new(var.clone(), false), Literal::new(left.clone(), true)];
    let second = vec![Literal::new(var.clone(), false), Literal::new(right.clone(), true)];
    let third = vec![Literal::new(var.clone(), true), Literal::new(left, false), Literal::new(right, false)];
    proof {
        assert(literals_view(first@) =~= gate[0]);
        assert(literals_view(second@) =~= gate[1]);
        assert(literals_view(third@) =~= gate[2]);
    }
    clauses.push(Clause::new(first));
    clauses.push(Clause::new(second));
    clauses.push(Clause::new(third));
    assert(clauses_view(clauses@) =~= held + gate);
}

/// The literal that the text writes: its name, behind a `¬` where it is
/// negated.
fn read_atom(text: &str, chars: &Vec<char>) -> (res: Literal)
    requires
        chars@ == text@,
    ensures
        res@ == atom(text@),
{
    let n = chars.len();
    if n > 0 && chars[0] == '¬' {
        assert(text@.subrange(1, n as int) =~= text@.skip(1));
        Literal::new(String::from_str(text.substring_char(1, n)), true)
    } else {
        Literal::new(String::from_str(text), false)
    }
}

impl TseitinEncoder {
    /// An encoder that has made no variable yet.
    pub fn new() -> (res: Self)
        ensures
            res@ == (Names { counter: 0, memo: Map::empty() }),
    {
        let res = TseitinEncoder { variable_counter: 0, variable_map: StringHashMap::new() };
        assert(res@.memo =~= Map::<Seq<char>, Seq<char>>::empty());
        res
    }

    /// Makes the next fresh variable.
    fn new_variable(&mut self) -> (res: String)
        requires
            old(self)@.counter < usize::MAX,
        ensures
            final(self)@.counter == old(self)@.counter + 1,
            final(self)@.memo == old(self)@.memo,
            res@ == fresh_name(final(self)@.counter),
    {
        self.variable_counter = self.variable_counter + 1;
        proof {
            reveal_strlit("t_");
        }
        let mut name = String::from_str("t_");
        let digits = decimal_text(self.variable_counter as u64);
        name.append(digits.as_str());
        assert(name@ =~= fresh_name(self@.counter));
        name
    }

    /// Encodes the formula as it is written by `Formula::to_string`: the
    /// clauses that define a variable for each piece of the text, and a
    /// last clause that holds the variable of the whole text alone.
    pub fn encode(&mut self, formula: &Formula) -> (res: Formula)
        requires
            old(self)@.counter + 2 * formula_text(formula@.clauses).len() + 1 <= usize::MAX,
        ensures
            ({
                let (root, names, clauses) = encode_text(
                    formula_text(formula@.clauses),
                    old(self)@,
                    Seq::empty(),
                );
                &&& final(self)@ == names
                &&& res@.clauses == clauses.push(seq![Lit { var: root, neg: false }])
            }),
            res@.variables == variables_of(res@.clauses),
            res.wf(),
    {
        let mut clauses: Vec<Clause> = Vec::new();
        assert(clauses_view(clauses@) =~= Seq::<Seq<Lit>>::empty());
        let text = formula.to_string();
        let root_var = self.encode_recursive(text.as_str(), &mut clauses);
        let ghost held = clauses_view(clauses@);
        let ghost root = root_var@;
        let unit = vec![Literal::new(root_var, false)];
        assert(literals_view(unit@) =~= seq![Lit { var: root, neg: false }]);
        clauses.push(Clause::new(unit));
        assert(clauses_view(clauses@) =~= held.push(seq![Lit { var: root, neg: false }]));
        Formula::new(clauses)
    }

    /// Gives the text its variable: the one it has already, or a fresh one
    /// with the clauses that define it by the text's sides or by its literal.
    fn encode_recursive(&mut self, subformula: &str, clauses: &mut Vec<Clause>) -> (res: String)
        requires
            old(self)@.counter + 2 * subformula@.len() + 1 <= usize::MAX,
        ensures
            (res@, final(self)@, clauses_view(final(clauses)@)) == encode_text(
                subformula@,
                old(self)@,
                clauses_view(old(clauses)@),
            ),
            final(self)@.counter <= old(self)@.counter + 2 * subformula@.len() + 1,
        decreases subformula@.len(),
    {
        let ghost s = subformula@;
        let ghost names0 = self@;
        let ghost clauses0 = clauses_view(clauses@);
        match self.variable_map.get(subformula) {
            Some(var) => {
                return var.clone();
            },
            None => {},
        }
        let var = self.new_variable();
        self.variable_map.insert(String::from_str(subformula), var.clone());
        let ghost named = Names { counter: names0.counter + 1, memo: names0.memo.insert(s, var@) };
        assert(self@.memo =~= named.memo);
        let chars = characters(subformula);
        let n = chars.len();
        let conjunction = find_first(&chars, '∧');
        let disjunction = find_first(&chars, '∨');
        if conjunction.is_none() && disjunction.is_none() {
            let literal = read_atom(subformula, &chars);
            push_literal_clauses(clauses, &var, &literal);
        } else {
            let is_and = conjunction.is_some();
            let at = if is_and {
                conjunction.unwrap()
            } else {
                disjunction.unwrap()
            };
            proof {
                lemma_first_index(
                    s,
                    if is_and {
                        '∧'
                    } else {
                        '∨'
                    },
                );
                assert(s.subrange(0, at as int) =~= s.take(at as int));
                assert(s.subrange(at as int + 1, n as int) =~= s.skip(at as int + 1));
                lemma_trim_len(s.take(at as int));
                lemma_trim_len(s.skip(at as int + 1));
            }
            let left_text = trimmed(subformula, &chars, 0, at);
            let right_text = trimmed(subformula, &chars, at + 1, n);
            let left_var = self.encode_recursive(left_text, clauses);
            let right_var = self.encode_recursive(right_text, clauses);
            if is_and {
                push_and_clauses(clauses, &var, left_var, right_var);
            } else {
                push_or_clauses(clauses, &var, left_var, right_var);
            }
        }
        var
    }
}

} // verus!
