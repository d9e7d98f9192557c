//! Reading a formula in DIMACS CNF form.

use crate::model::{variables_of, Lit};
use crate::text::{
    characters, decimal, decimal_text, number, parse_number, rows, split, split_on, split_words,
    words,
};
use crate::wff::{clauses_view, literals_view, Clause, Formula, Literal};
use vstd::prelude::*;

verus! {

/// The line is a header or a comment: its first word is `p` or `c`.
pub open spec fn is_skipped(line_words: Seq<Seq<char>>) -> bool {
    line_words.len() > 0 && (line_words[0] == seq!['p'] || line_words[0] == seq!['c'])
}

/// The integers among the words, in order; other words are passed over.
pub open spec fn numbers(line_words: Seq<Seq<char>>) -> Seq<int>
    decreases line_words.len(),
{
    if line_words.len() == 0 {
        Seq::empty()
    } else {
        let before = numbers(line_words.drop_last());
        match number(line_words.last()) {
            Some(n) => before.push(n),
            None => before,
        }
    }
}

/// The integers that a line gives: none where it is a header or a comment.
pub open spec fn line_numbers(line: Seq<char>) -> Seq<int> {
    if is_skipped(words(line)) {
        Seq::empty()
    } else {
        numbers(words(line))
    }
}

/// The integers that the lines give, in order.
pub open spec fn text_numbers(lines: Seq<Seq<char>>) -> Seq<int>
    decreases lines.len(),
{
    if lines.len() == 0 {
        Seq::empty()
    } else {
        text_numbers(lines.drop_last()) + line_numbers(lines.last())
    }
}

/// The literal that a nonzero integer stands for: the variable named by its
/// absolute value, negated where the integer is negative.
pub open spec fn dimacs_literal(n: int) -> Lit {
    Lit { var: decimal((if n < 0 { -n } else { n }) as nat), neg: n < 0 }
}

/// The clauses that the integers have closed, and the literals of the
/// clause that is still open: each 0 closes a clause.
pub open spec fn group(nums: Seq<int>) -> (Seq<Seq<Lit>>, Seq<Lit>)
    decreases nums.len(),
{
    if nums.len() == 0 {
        (Seq::empty(), Seq::empty())
    } else {
        let (closed, open) = group(nums.drop_last());
        if nums.last() == 0 {
            (closed.push(open), Seq::empty())
        } else {
            (closed, open.push(dimacs_literal(nums.last())))
        }
    }
}

/// The clauses that a DIMACS text holds. Clauses run across lines; a clause
/// left open at the end counts where it has a literal.
pub open spec fn dimacs_clauses(s: Seq<char>) -> Seq<Seq<Lit>> {
    let (closed, open) = group(text_numbers(split_on(s, '\n')));
    if open.len() > 0 {
        closed.push(open)
    } else {
        closed
    }
}

/// Whether the word is the one character `c`.
fn is_word(word: &Vec<char>, c: char) -> (res: bool)
    ensures
        res == (word@ == seq![c]),
{
    let res = word.len() == 1 && word[0] == c;
    proof {
        if res {
            assert(word@ =~= seq![c]);
        }
    }
    res
}

/// Reads the clauses of a DIMACS CNF text. Lines whose first word is `p` or
/// `c` are passed over, and so is every word that is not a 32-bit integer.
pub fn parse_dimacs_cnf(content: &str) -> (res: Formula)
    ensures
        res@.clauses == dimacs_clauses(content@),
        res@.variables == variables_of(res@.clauses),
        res.wf(),
{
    let chars = characters(content);
    let lines = split(&chars, '\n');
    let ghost all = rows(lines@);
    let mut closed: Vec<Clause> = Vec::new();
    let mut open: Vec<Literal> = Vec::new();
    let mut i: usize = 0;
    proof {
        assert(all.take(0) =~= Seq::<Seq<char>>::empty());
        assert(clauses_view(closed@) =~= Seq::<Seq<Lit>>::empty());
        assert(literals_view(open@) =~= Seq::<Lit>::empty());
    }
    while i < lines.len()
        invariant
            0 <= i <= lines.len(),
            all == rows(lines@),
            all == split_on(content@, '\n'),
            (clauses_view(closed@), literals_view(open@)) == group(text_numbers(all.take(i as int))),
        decreases lines.len() - i,
    {
        let line_words = split_words(&lines[i]);
        let ghost ws = rows(line_words@);
        let ghost before = text_numbers(all.take(i as int));
        proof {
            let next = all.take(i as int + 1);
            assert(next.drop_last() =~= all.take(i as int));
            assert(next.last() == lines@[i as int]@);
            assert(ws == words(lines@[i as int]@));
        }
        let skipped = line_words.len() > 0 && (is_word(&line_words[0], 'p') || is_word(
            &line_words[0],
            'c',
        ));
        assert(skipped == is_skipped(ws));
        if !skipped {
            let mut k: usize = 0;
            proof {
                assert(ws.take(0) =~= Seq::<Seq<char>>::empty());
                assert(before + numbers(ws.take(0)) =~= before);
            }
            while k < line_words.len()
                invariant
                    0 <= k <= line_words.len(),
                    ws == rows(line_words@),
                    (clauses_view(closed@), literals_view(open@)) == group(before + numbers(ws.take(k as int))),
                decreases line_words.len() - k,
            {
                let ghost seen = before + numbers(ws.take(k as int));
                let ghost held = clauses_view(closed@);
                let ghost current = literals_view(open@);
                proof {
                    let next = ws.take(k as int + 1);
                    assert(next.drop_last() =~= ws.take(k as int));
                    assert(next.last() == line_words@[k as int]@);
                }
                match parse_number(&line_words[k]) {
                    Some(n) => {
                        proof {
                            assert(before + numbers(ws.take(k as int + 1)) =~= seen.push(n as int));
                            assert(seen.push(n as int).drop_last() =~= seen);
                        }
                        if n == 0 {
                            closed.push(Clause::new(open));
                            open = Vec::new();
                            proof {
                                assert(clauses_view(closed@) =~= held.push(current));
                                assert(literals_view(open@) =~= Seq::<Lit>::empty());
                            }
                        } else {
                            let magnitude: u64 = if n < 0 {
                                (0 - n as i64) as u64
                            } else {
                                n as u64
                            };
                            open.push(Literal::new(decimal_text(magnitude), n < 0));
                            proof {
                                assert(literals_view(open@) =~= current.push(dimacs_literal(n as int)));
                            }
                        }
                    },
                    None => {
                        assert(before + numbers(ws.take(k as int + 1)) =~= seen);
                    },
                }
                k += 1;
            }
            assert(ws.take(k as int) =~= ws);
        } else {
            assert(before + line_numbers(lines@[i as int]@) =~= before);
        }
        i += 1;
    }
    assert(all.take(i as int) =~= all);
    if open.len() > 0 {
        let ghost held = clauses_view(closed@);
        let ghost current = literals_view(open@);
        closed.push(Clause::new(open));
        assert(clauses_view(closed@) =~= held.push(current));
    }
    Formula::new(closed)
}

} // verus!
