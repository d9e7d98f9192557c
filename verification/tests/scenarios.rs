use cdcl::parse_dimacs_cnf;
use cdcl::solver::{CdclSolver, SolverResult};
use cdcl::wff::{Clause, Formula, Literal};

fn lit(n: i32) -> Literal {
    Literal::new(n.abs().to_string(), n < 0)
}

fn formula(clauses: &[Vec<i32>]) -> Formula {
    Formula::new(
        clauses
            .iter()
            .map(|c| Clause::new(c.iter().map(|n| lit(*n)).collect()))
            .collect(),
    )
}

fn solved(clauses: &[Vec<i32>]) -> CdclSolver {
    let mut solver = CdclSolver::new(formula(clauses));
    solver.solve();
    solver
}

fn value(solver: &CdclSolver, n: i32) -> bool {
    solver.assignments().get(&n.abs().to_string()).unwrap().value
}

fn all_hold(solver: &CdclSolver, clauses: &[Vec<i32>]) -> bool {
    clauses
        .iter()
        .all(|c| c.iter().any(|n| value(solver, *n) == (*n > 0)))
}

/// A plain backtracking search over the variables 1 to `n`.
fn reference_satisfiable(clauses: &[Vec<i32>], model: &mut Vec<Option<bool>>, next: usize) -> bool {
    for c in clauses {
        let falsified = c
            .iter()
            .all(|l| model[l.unsigned_abs() as usize] == Some(*l < 0));
        if falsified {
            return false;
        }
    }
    if next == model.len() {
        return true;
    }
    for choice in [true, false] {
        model[next] = Some(choice);
        if reference_satisfiable(clauses, model, next + 1) {
            return true;
        }
    }
    model[next] = None;
    false
}

/// A fixed sequence of numbers that looks random.
fn next_number(state: &mut u64) -> u64 {
    *state = state
        .wrapping_mul(6364136223846793005)
        .wrapping_add(1442695040888963407);
    *state >> 33
}

fn random_3sat(seed: u64, variables: u64, clauses: usize) -> Vec<Vec<i32>> {
    let mut state = seed;
    let mut out = Vec::new();
    while out.len() < clauses {
        let mut clause: Vec<i32> = Vec::new();
        while clause.len() < 3 {
            let v = (next_number(&mut state) % variables) as i32 + 1;
            if clause.iter().all(|l| l.abs() != v) {
                let negative = next_number(&mut state) % 2 == 1;
                clause.push(if negative { -v } else { v });
            }
        }
        out.push(clause);
    }
    out
}

#[test]
fn empty_formula_is_satisfied_with_the_empty_trail() {
    let solver = solved(&[]);
    assert_eq!(*solver.sat(), SolverResult::Satisfied);
    assert!(solver.assignments().assignments.is_empty());
    assert_eq!(solver.assignments().dl, 0);
}

#[test]
fn formula_with_the_empty_clause_is_unsatisfied() {
    let solver = solved(&[vec![1, 2], vec![]]);
    assert_eq!(*solver.sat(), SolverResult::Unresolved);
    assert_eq!(solver.assignments().dl, 0);
}

#[test]
fn single_unit_clause_is_satisfied_at_level_zero() {
    let solver = solved(&[vec![-7]]);
    assert_eq!(*solver.sat(), SolverResult::Satisfied);
    let record = solver.assignments().get(&"7".to_string()).unwrap();
    assert!(!record.value);
    assert_eq!(record.dl, 0);
    assert_eq!(record.antecedent.as_ref().unwrap().literals, vec![lit(-7)]);
    assert_eq!(solver.assignments().assignments.len(), 1);
}

#[test]
fn contradictory_units_are_unsatisfied_at_level_zero() {
    let solver = solved(&[vec![1], vec![-1]]);
    assert_eq!(*solver.sat(), SolverResult::Unresolved);
    assert_eq!(solver.assignments().dl, 0);
    assert_eq!(solver.formula.clauses.len(), 2);
}

#[test]
fn two_clauses_over_two_variables_are_satisfied() {
    let formula = parse_dimacs_cnf("p cnf 2 2\n1 2 0\n-1 -2 0\n");
    let mut solver = CdclSolver::new(formula);
    solver.solve();
    assert_eq!(*solver.sat(), SolverResult::Satisfied);
    assert!(all_hold(&solver, &[vec![1, 2], vec![-1, -2]]));
    assert!(!(value(&solver, 1) && value(&solver, 2)));
}

#[test]
fn one_variable_both_ways_is_unsatisfied() {
    let formula = parse_dimacs_cnf("p cnf 1 2\n1 0\n-1 0\n");
    let mut solver = CdclSolver::new(formula);
    solver.solve();
    assert_eq!(*solver.sat(), SolverResult::Unresolved);
}

#[test]
fn three_clauses_over_three_variables_are_satisfied() {
    let formula = parse_dimacs_cnf("p cnf 3 3\n1 -3 0\n2 3 0\n-1 -2 0\n");
    for _ in 0..20 {
        let mut solver = CdclSolver::new(formula.clone());
        solver.solve();
        assert_eq!(*solver.sat(), SolverResult::Satisfied);
        assert!(all_hold(&solver, &[vec![1, -3], vec![2, 3], vec![-1, -2]]));
    }
}

#[test]
fn three_pigeons_do_not_fit_two_holes() {
    let var = |pigeon: i32, hole: i32| (pigeon - 1) * 2 + hole;
    let mut clauses: Vec<Vec<i32>> = Vec::new();
    for pigeon in 1..=3 {
        clauses.push(vec![var(pigeon, 1), var(pigeon, 2)]);
    }
    for hole in 1..=2 {
        for first in 1..=3 {
            for second in (first + 1)..=3 {
                clauses.push(vec![-var(first, hole), -var(second, hole)]);
            }
        }
    }
    assert_eq!(clauses.len(), 9);
    for _ in 0..20 {
        let solver = solved(&clauses);
        assert_eq!(*solver.sat(), SolverResult::Unresolved);
    }
}

#[test]
fn implied_variables_are_forced_true() {
    let formula = parse_dimacs_cnf("p cnf 4 4\n1 2 0\n-1 3 0\n-2 3 0\n-3 4 0\n");
    for _ in 0..20 {
        let mut solver = CdclSolver::new(formula.clone());
        solver.solve();
        assert_eq!(*solver.sat(), SolverResult::Satisfied);
        assert!(value(&solver, 3));
        assert!(value(&solver, 4));
        assert!(all_hold(
            &solver,
            &[vec![1, 2], vec![-1, 3], vec![-2, 3], vec![-3, 4]]
        ));
    }
}

#[test]
fn random_3sat_matches_a_reference_search() {
    let mut satisfiable = 0;
    for seed in 1..=30u64 {
        let clauses = random_3sat(seed, 20, 84);
        let mut model = vec![None; 21];
        let expected = reference_satisfiable(&clauses, &mut model, 1);
        let solver = solved(&clauses);
        assert_eq!(*solver.sat() == SolverResult::Satisfied, expected, "seed {}", seed);
        if expected {
            satisfiable += 1;
            assert!(all_hold(&solver, &clauses));
        }
    }
    assert!(satisfiable > 0);
    assert!(satisfiable < 30);
}

#[test]
fn every_level_is_within_the_current_one_after_a_search() {
    for seed in 40..=45u64 {
        let clauses = random_3sat(seed, 12, 40);
        let solver = solved(&clauses);
        let trail = solver.assignments();
        for (_, record) in trail.assignments.iter() {
            assert!(0 <= record.dl && record.dl <= trail.dl);
        }
    }
}

#[test]
fn satisfied_verdict_leaves_every_clause_satisfied() {
    for seed in 50..=60u64 {
        let clauses = random_3sat(seed, 10, 30);
        let solver = solved(&clauses);
        if *solver.sat() == SolverResult::Satisfied {
            assert!(solver.all_variables_assigned());
            for clause in solver.formula.clauses.iter() {
                assert_eq!(
                    solver.clause_status(clause),
                    cdcl::solver::ClauseStatus::Satisfied
                );
            }
        }
    }
}

#[test]
fn learned_clauses_stay_behind_the_given_ones() {
    let clauses = random_3sat(7, 15, 70);
    let given = formula(&clauses);
    let solver = solved(&clauses);
    assert!(solver.formula.clauses.len() >= given.clauses.len());
    for (kept, first) in solver.formula.clauses.iter().zip(given.clauses.iter()) {
        assert_eq!(kept.literals, first.literals);
    }
    assert_eq!(solver.formula.variables, given.variables);
}
