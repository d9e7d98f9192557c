use cdcl::parse_dimacs_cnf;
use cdcl::solver::{CdclSolver, SolverResult};
use cdcl::text::{decimal_text, is_whitespace, parse_number, split, split_words};
use cdcl::tseitin::TseitinEncoder;
use cdcl::wff::{contains_name, Clause, Formula, Literal};

fn lit(name: &str, negation: bool) -> Literal {
    Literal::new(name.to_string(), negation)
}

fn chars(s: &str) -> Vec<char> {
    s.chars().collect()
}

fn texts(formula: &Formula) -> Vec<String> {
    formula.clauses.iter().map(|c| c.to_string()).collect()
}

#[test]
fn literal_holds_its_name_and_sign() {
    let l = Literal::new("x".to_string(), true);
    assert_eq!(l.value, "x");
    assert!(l.negation);
    assert_eq!(l, lit("x", true));
    assert_ne!(l, lit("x", false));
    assert_ne!(l, lit("y", true));
}

#[test]
fn negate_toggles_the_sign_and_keeps_the_name() {
    let l = lit("x", false);
    assert_eq!(l.negate(), lit("x", true));
    assert_eq!(l.negate().negate(), l);
}

#[test]
fn literal_text_puts_the_sign_first() {
    assert_eq!(lit("x", false).to_string(), "x");
    assert_eq!(lit("x", true).to_string(), "¬x");
    assert_eq!(lit("", true).to_string(), "¬");
}

#[test]
fn clause_text_joins_literals() {
    assert_eq!(Clause::new(vec![]).to_string(), "");
    assert_eq!(Clause::new(vec![lit("a", false)]).to_string(), "a");
    let c = Clause::new(vec![lit("a", false), lit("b", true), lit("c", false)]);
    assert_eq!(c.to_string(), "a ∨ ¬b ∨ c");
}

#[test]
fn formula_text_joins_clauses() {
    assert_eq!(Formula::new(vec![]).to_string(), "");
    let f = Formula::new(vec![
        Clause::new(vec![lit("a", false), lit("b", true)]),
        Clause::new(vec![lit("c", false)]),
    ]);
    assert_eq!(f.to_string(), "a ∨ ¬b ∧ c");
}

#[test]
fn formula_lists_each_variable_once() {
    let f = Formula::new(vec![
        Clause::new(vec![lit("a", false), lit("b", true)]),
        Clause::new(vec![lit("b", false), lit("a", true), lit("c", false)]),
        Clause::new(vec![]),
    ]);
    assert_eq!(f.variables, vec!["a", "b", "c"]);
    assert_eq!(f.clauses.len(), 3);
    assert!(contains_name(&f.variables, &"b".to_string()));
    assert!(!contains_name(&f.variables, &"d".to_string()));
}

#[test]
fn clones_are_equal_in_content() {
    let c = Clause::new(vec![lit("a", false), lit("b", true)]);
    assert_eq!(c.clone().literals, c.literals);
    let f = Formula::new(vec![c]);
    let g = f.clone();
    assert_eq!(g.to_string(), f.to_string());
    assert_eq!(g.variables, f.variables);
}

#[test]
fn white_space_is_what_separates_words() {
    for c in [' ', '\t', '\n', '\r', '\u{b}', '\u{c}', '\u{85}', '\u{a0}', '\u{2003}', '\u{3000}'] {
        assert!(is_whitespace(c));
    }
    for c in ['a', '0', '-', '¬', '\u{200b}', '\u{8}', '\u{e}'] {
        assert!(!is_whitespace(c));
    }
    for code in 0..0x4000u32 {
        if let Some(c) = char::from_u32(code) {
            assert_eq!(is_whitespace(c), c.is_whitespace());
        }
    }
}

#[test]
fn split_cuts_at_every_separator() {
    assert_eq!(split(&chars(""), '\n'), vec![chars("")]);
    assert_eq!(split(&chars("ab"), '\n'), vec![chars("ab")]);
    assert_eq!(
        split(&chars("a\n\nbc\n"), '\n'),
        vec![chars("a"), chars(""), chars("bc"), chars("")]
    );
}

#[test]
fn words_are_runs_without_white_space() {
    assert_eq!(split_words(&chars("")), Vec::<Vec<char>>::new());
    assert_eq!(split_words(&chars("  \t ")), Vec::<Vec<char>>::new());
    assert_eq!(
        split_words(&chars("  p cnf\t3  2 ")),
        vec![chars("p"), chars("cnf"), chars("3"), chars("2")]
    );
    assert_eq!(split_words(&chars("x")), vec![chars("x")]);
}

#[test]
fn numbers_are_read_as_32_bit_integers() {
    assert_eq!(parse_number(&chars("0")), Some(0));
    assert_eq!(parse_number(&chars("42")), Some(42));
    assert_eq!(parse_number(&chars("-42")), Some(-42));
    assert_eq!(parse_number(&chars("+42")), Some(42));
    assert_eq!(parse_number(&chars("007")), Some(7));
    assert_eq!(parse_number(&chars("-0")), Some(0));
    assert_eq!(parse_number(&chars("2147483647")), Some(i32::MAX));
    assert_eq!(parse_number(&chars("-2147483648")), Some(i32::MIN));
    assert_eq!(parse_number(&chars("00000000000000000002147483647")), Some(i32::MAX));
    assert_eq!(parse_number(&chars("2147483648")), None);
    assert_eq!(parse_number(&chars("-2147483649")), None);
    assert_eq!(parse_number(&chars("99999999999999999999999999")), None);
    assert_eq!(parse_number(&chars("")), None);
    assert_eq!(parse_number(&chars("-")), None);
    assert_eq!(parse_number(&chars("+")), None);
    assert_eq!(parse_number(&chars("1a")), None);
    assert_eq!(parse_number(&chars("--1")), None);
    assert_eq!(parse_number(&chars("1.5")), None);
    for word in ["12", "-7", "+3", "x", "", "4294967296", "-2147483648", "١٢"] {
        assert_eq!(parse_number(&chars(word)), word.parse::<i32>().ok());
    }
}

#[test]
fn numbers_are_written_in_base_ten() {
    assert_eq!(decimal_text(0), "0");
    assert_eq!(decimal_text(7), "7");
    assert_eq!(decimal_text(10), "10");
    assert_eq!(decimal_text(2147483648), "2147483648");
    assert_eq!(decimal_text(u64::MAX), "18446744073709551615");
}

#[test]
fn dimacs_reads_clauses_and_skips_header_and_comments() {
    let f = parse_dimacs_cnf("c an example\np cnf 3 2\n1 -3 0\n2 3 -1 0\n");
    assert_eq!(texts(&f), vec!["1 ∨ ¬3", "2 ∨ 3 ∨ ¬1"]);
    assert_eq!(f.variables, vec!["1", "3", "2"]);
}

#[test]
fn dimacs_clauses_run_across_lines() {
    let f = parse_dimacs_cnf("1\n-2\n\n 3 0 4\r\n5 0");
    assert_eq!(texts(&f), vec!["1 ∨ ¬2 ∨ 3", "4 ∨ 5"]);
}

#[test]
fn dimacs_keeps_an_open_clause_and_drops_an_empty_one_at_the_end() {
    assert_eq!(texts(&parse_dimacs_cnf("1 2")), vec!["1 ∨ 2"]);
    assert_eq!(texts(&parse_dimacs_cnf("1 2 0")), vec!["1 ∨ 2"]);
    assert_eq!(texts(&parse_dimacs_cnf("1 2 0\n")), vec!["1 ∨ 2"]);
    assert_eq!(texts(&parse_dimacs_cnf("")), Vec::<String>::new());
    assert_eq!(texts(&parse_dimacs_cnf("p cnf 0 0\n")), Vec::<String>::new());
}

#[test]
fn dimacs_keeps_an_empty_clause_that_is_closed_twice() {
    let f = parse_dimacs_cnf("1 0 0\n");
    assert_eq!(texts(&f), vec!["1", ""]);
    let g = parse_dimacs_cnf("0 1 0");
    assert_eq!(texts(&g), vec!["", "1"]);
}

#[test]
fn dimacs_passes_over_words_that_are_no_numbers() {
    let f = parse_dimacs_cnf("1 x 2 0\n3 99999999999 -4 0\n");
    assert_eq!(texts(&f), vec!["1 ∨ 2", "3 ∨ ¬4"]);
}

#[test]
fn dimacs_skips_a_line_by_its_first_word_only() {
    let f = parse_dimacs_cnf("  c 1 0\ncnf 2 0\n3 c 4 0\np\n");
    assert_eq!(texts(&f), vec!["2", "3 ∨ 4"]);
}

#[test]
fn dimacs_names_a_variable_by_its_absolute_value() {
    let f = parse_dimacs_cnf("-2147483648 +5 -007 0");
    assert_eq!(
        f.clauses[0].literals,
        vec![lit("2147483648", true), lit("5", false), lit("7", true)]
    );
}

#[test]
fn tseitin_defines_a_variable_for_a_literal() {
    let mut encoder = TseitinEncoder::new();
    let f = Formula::new(vec![Clause::new(vec![lit("a", false)])]);
    let g = encoder.encode(&f);
    assert_eq!(texts(&g), vec!["¬t_1 ∨ a", "t_1 ∨ ¬a", "t_1"]);
    assert_eq!(g.variables, vec!["t_1", "a"]);
}

#[test]
fn tseitin_defines_a_variable_for_a_negated_literal() {
    let mut encoder = TseitinEncoder::new();
    let f = Formula::new(vec![Clause::new(vec![lit("a", true)])]);
    let g = encoder.encode(&f);
    assert_eq!(texts(&g), vec!["¬t_1 ∨ ¬a", "t_1 ∨ a", "t_1"]);
}

#[test]
fn tseitin_defines_a_disjunction_by_its_sides() {
    let mut encoder = TseitinEncoder::new();
    let f = Formula::new(vec![Clause::new(vec![lit("a", false), lit("b", false)])]);
    let g = encoder.encode(&f);
    assert_eq!(
        texts(&g),
        vec![
            "¬t_2 ∨ a",
            "t_2 ∨ ¬a",
            "¬t_3 ∨ b",
            "t_3 ∨ ¬b",
            "t_1 ∨ ¬t_2",
            "t_1 ∨ ¬t_3",
            "¬t_1 ∨ t_2 ∨ t_3",
            "t_1",
        ]
    );
}

#[test]
fn tseitin_shares_the_variable_of_a_repeated_piece() {
    let mut encoder = TseitinEncoder::new();
    let f = Formula::new(vec![
        Clause::new(vec![lit("a", false)]),
        Clause::new(vec![lit("a", false)]),
    ]);
    let g = encoder.encode(&f);
    assert_eq!(
        texts(&g),
        vec![
            "¬t_2 ∨ a",
            "t_2 ∨ ¬a",
            "¬t_1 ∨ t_2",
            "¬t_1 ∨ t_2",
            "t_1 ∨ ¬t_2 ∨ ¬t_2",
            "t_1",
        ]
    );
}

#[test]
fn tseitin_remembers_between_calls() {
    let mut encoder = TseitinEncoder::new();
    let f = Formula::new(vec![Clause::new(vec![lit("a", false)])]);
    let first = encoder.encode(&f);
    let second = encoder.encode(&f);
    assert_eq!(texts(&first), vec!["¬t_1 ∨ a", "t_1 ∨ ¬a", "t_1"]);
    assert_eq!(texts(&second), vec!["t_1"]);
    let h = Formula::new(vec![Clause::new(vec![lit("b", false)])]);
    assert_eq!(texts(&encoder.encode(&h)), vec!["¬t_2 ∨ b", "t_2 ∨ ¬b", "t_2"]);
}

#[test]
fn tseitin_encodes_every_clause_of_a_conjunction() {
    let f = Formula::new(vec![
        Clause::new(vec![lit("a", false)]),
        Clause::new(vec![lit("b", false)]),
        Clause::new(vec![lit("a", true)]),
    ]);
    let encoded = TseitinEncoder::new().encode(&f);
    let mut solver = CdclSolver::new(encoded);
    solver.solve();
    assert_eq!(*solver.sat(), SolverResult::Unresolved);
}

#[test]
fn tseitin_keeps_a_satisfiable_formula_satisfiable() {
    let f = Formula::new(vec![
        Clause::new(vec![lit("a", false), lit("b", true)]),
        Clause::new(vec![lit("b", false), lit("c", false)]),
        Clause::new(vec![lit("a", true)]),
    ]);
    let encoded = TseitinEncoder::new().encode(&f);
    for _ in 0..10 {
        let mut solver = CdclSolver::new(encoded.clone());
        solver.solve();
        assert_eq!(*solver.sat(), SolverResult::Satisfied);
        let value = |name: &str| solver.assignments().get(&name.to_string()).unwrap().value;
        assert!(!value("a"));
        assert!(!value("b"));
        assert!(value("c"));
        assert!(value("t_1"));
    }
}
