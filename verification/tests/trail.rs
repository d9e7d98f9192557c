use cdcl::solver::{
    Assignment, Assignments, CdclSolver, ClauseStatus, SolverResult, UnitPropagationResult,
};
use cdcl::wff::{Clause, Formula, Literal};

fn lit(n: i32) -> Literal {
    Literal::new(n.abs().to_string(), n < 0)
}

fn clause(literals: &[i32]) -> Clause {
    Clause::new(literals.iter().map(|n| lit(*n)).collect())
}

fn solver_for(clauses: &[&[i32]]) -> CdclSolver {
    CdclSolver::new(Formula::new(clauses.iter().map(|c| clause(c)).collect()))
}

fn decide(solver: &mut CdclSolver, n: i32) {
    solver.assignments.dl += 1;
    solver.assignments.assign(n.abs().to_string(), n > 0, None);
}

fn names(clause: &Clause) -> Vec<String> {
    let mut out: Vec<String> = clause.literals.iter().map(|l| l.to_string()).collect();
    out.sort();
    out
}

#[test]
fn assignment_keeps_what_it_is_given() {
    let a = Assignment::new(true, Some(clause(&[1, -2])), 3);
    assert!(a.value);
    assert_eq!(a.dl, 3);
    assert_eq!(a.antecedent.unwrap().literals, vec![lit(1), lit(-2)]);
    let d = Assignment::new(false, None, 0);
    assert!(d.antecedent.is_none());
}

#[test]
fn new_trail_is_empty_at_level_zero() {
    let trail = Assignments::new();
    assert!(trail.assignments.is_empty());
    assert_eq!(trail.dl, 0);
    assert!(trail.get(&"x".to_string()).is_none());
}

#[test]
fn assign_records_value_antecedent_and_current_level() {
    let mut trail = Assignments::new();
    trail.assign("x".to_string(), true, Some(clause(&[1])));
    trail.dl = 2;
    trail.assign("y".to_string(), false, None);
    let x = trail.get(&"x".to_string()).unwrap();
    assert!(x.value);
    assert_eq!(x.dl, 0);
    assert!(x.antecedent.is_some());
    let y = trail.get(&"y".to_string()).unwrap();
    assert!(!y.value);
    assert_eq!(y.dl, 2);
    assert!(y.antecedent.is_none());
    assert_eq!(trail.dl, 2);
    assert_eq!(trail.assignments.len(), 2);
}

#[test]
fn remove_erases_one_record_only() {
    let mut trail = Assignments::new();
    trail.assign("x".to_string(), true, None);
    trail.assign("y".to_string(), false, None);
    trail.assign("z".to_string(), true, None);
    trail.remove(&"y".to_string());
    assert!(trail.get(&"y".to_string()).is_none());
    assert!(trail.get(&"x".to_string()).unwrap().value);
    assert!(trail.get(&"z".to_string()).unwrap().value);
    assert_eq!(trail.assignments.len(), 2);
    trail.remove(&"absent".to_string());
    assert_eq!(trail.assignments.len(), 2);
}

#[test]
fn new_solver_is_unresolved_with_an_empty_trail() {
    let solver = solver_for(&[&[1, 2], &[-2, 3]]);
    assert_eq!(*solver.sat(), SolverResult::Unresolved);
    assert!(solver.assignments().assignments.is_empty());
    assert_eq!(solver.formula.clauses.len(), 2);
    assert_eq!(solver.formula.variables.len(), 3);
    assert!(!solver.all_variables_assigned());
}

#[test]
fn evaluator_classifies_in_priority_order() {
    let mut solver = solver_for(&[&[1, 2, 3]]);
    let c = clause(&[1, 2, 3]);
    assert_eq!(solver.clause_status(&c), ClauseStatus::Unresolved);
    solver.assignments.assign("1".to_string(), false, None);
    assert_eq!(solver.clause_status(&c), ClauseStatus::Unresolved);
    solver.assignments.assign("2".to_string(), false, None);
    assert_eq!(solver.clause_status(&c), ClauseStatus::Unit);
    solver.assignments.assign("3".to_string(), false, None);
    assert_eq!(solver.clause_status(&c), ClauseStatus::Unsatisfied);
    assert_eq!(solver.clause_status(&clause(&[1, -3])), ClauseStatus::Satisfied);
}

#[test]
fn satisfied_comes_before_unit() {
    let mut solver = solver_for(&[&[1], &[1, 2]]);
    solver.assignments.assign("1".to_string(), true, None);
    assert_eq!(solver.clause_status(&clause(&[1])), ClauseStatus::Satisfied);
    assert_eq!(solver.clause_status(&clause(&[1, 2])), ClauseStatus::Satisfied);
    assert_eq!(solver.clause_status(&clause(&[-1, 2])), ClauseStatus::Unit);
}

#[test]
fn empty_clause_is_unsatisfied_and_repeats_are_counted() {
    let mut solver = solver_for(&[&[1, 1]]);
    assert_eq!(solver.clause_status(&clause(&[])), ClauseStatus::Unsatisfied);
    assert_eq!(solver.clause_status(&clause(&[1, 1])), ClauseStatus::Unresolved);
    solver.assignments.assign("1".to_string(), false, None);
    assert_eq!(solver.clause_status(&clause(&[1, 1])), ClauseStatus::Unsatisfied);
}

#[test]
fn propagation_follows_a_chain_to_its_end() {
    let mut solver = solver_for(&[&[-1, 2], &[-2, 3], &[1]]);
    let (result, conflict) = solver.unit_propagation();
    assert_eq!(result, UnitPropagationResult::Unresolved);
    assert!(conflict.is_none());
    for n in ["1", "2", "3"] {
        let record = solver.assignments().get(&n.to_string()).unwrap();
        assert!(record.value);
        assert_eq!(record.dl, 0);
        assert!(record.antecedent.is_some());
    }
    let forced = solver.assignments().get(&"2".to_string()).unwrap();
    assert_eq!(forced.antecedent.as_ref().unwrap().literals, vec![lit(-1), lit(2)]);
    assert!(solver.all_variables_assigned());
}

#[test]
fn propagation_reports_the_falsified_clause() {
    let mut solver = solver_for(&[&[1], &[-1, 2], &[-1, -2]]);
    let (result, conflict) = solver.unit_propagation();
    assert_eq!(result, UnitPropagationResult::Conflict);
    assert_eq!(conflict.unwrap().literals, vec![lit(-1), lit(-2)]);
}

#[test]
fn propagation_meets_the_empty_clause_at_once() {
    let mut solver = solver_for(&[&[], &[1]]);
    let (result, conflict) = solver.unit_propagation();
    assert_eq!(result, UnitPropagationResult::Conflict);
    assert!(conflict.unwrap().literals.is_empty());
    assert!(solver.assignments().assignments.is_empty());
}

#[test]
fn propagation_at_rest_changes_nothing_when_run_again() {
    let mut solver = solver_for(&[&[-1, 2], &[-2, 3], &[1], &[4, 5]]);
    let (first, _) = solver.unit_propagation();
    assert_eq!(first, UnitPropagationResult::Unresolved);
    let before: Vec<(String, bool, i32)> = solver
        .assignments()
        .assignments
        .iter()
        .map(|(v, a)| (v.clone(), a.value, a.dl))
        .collect();
    let (second, conflict) = solver.unit_propagation();
    assert_eq!(second, UnitPropagationResult::Unresolved);
    assert!(conflict.is_none());
    let after: Vec<(String, bool, i32)> = solver
        .assignments()
        .assignments
        .iter()
        .map(|(v, a)| (v.clone(), a.value, a.dl))
        .collect();
    assert_eq!(before, after);
    assert_eq!(before.len(), 3);
}

#[test]
fn propagation_after_a_conflict_may_still_move() {
    let mut solver = solver_for(&[&[-1, 2], &[1], &[-1]]);
    let (first, _) = solver.unit_propagation();
    assert_eq!(first, UnitPropagationResult::Conflict);
    assert_eq!(solver.assignments().assignments.len(), 1);
    let (second, _) = solver.unit_propagation();
    assert_eq!(second, UnitPropagationResult::Conflict);
    assert_eq!(solver.assignments().assignments.len(), 2);
}

#[test]
fn propagated_records_carry_the_level_of_the_decision() {
    let mut solver = solver_for(&[&[-1, 2], &[3, 4]]);
    let (result, _) = solver.unit_propagation();
    assert_eq!(result, UnitPropagationResult::Unresolved);
    decide(&mut solver, 1);
    let (result, _) = solver.unit_propagation();
    assert_eq!(result, UnitPropagationResult::Unresolved);
    let forced = solver.assignments().get(&"2".to_string()).unwrap();
    assert!(forced.value);
    assert_eq!(forced.dl, 1);
    assert_eq!(names(forced.antecedent.as_ref().unwrap()), vec!["2", "¬1"]);
}

#[test]
fn backtrack_removes_what_lies_above_the_level() {
    let mut solver = solver_for(&[&[-1, 2], &[-3, 4], &[-5, 6]]);
    for n in [1, 3, 5] {
        decide(&mut solver, n);
        solver.unit_propagation();
    }
    assert_eq!(solver.assignments().assignments.len(), 6);
    solver.backtrack(1);
    let left: Vec<&str> = solver
        .assignments()
        .assignments
        .iter()
        .map(|(v, _)| v.as_str())
        .collect();
    assert_eq!(left, vec!["1", "2"]);
    assert!(solver.assignments().assignments.iter().all(|(_, a)| a.dl <= 1));
    assert_eq!(solver.assignments().dl, 3);
    assert_eq!(solver.formula.clauses.len(), 3);
    solver.backtrack(0);
    assert!(solver.assignments().assignments.is_empty());
}

#[test]
fn backtrack_to_the_current_level_keeps_everything() {
    let mut solver = solver_for(&[&[-1, 2]]);
    decide(&mut solver, 1);
    solver.unit_propagation();
    solver.backtrack(1);
    assert_eq!(solver.assignments().assignments.len(), 2);
}

#[test]
fn learned_clause_goes_to_the_end_of_the_database() {
    let mut solver = solver_for(&[&[1, 2]]);
    solver.add_learned_clause(clause(&[-1, 2]));
    assert_eq!(solver.formula.clauses.len(), 2);
    assert_eq!(solver.formula.clauses[1].literals, vec![lit(-1), lit(2)]);
    assert_eq!(solver.formula.clauses[0].literals, vec![lit(1), lit(2)]);
    assert_eq!(solver.formula.variables.len(), 2);
}

#[test]
fn all_variables_assigned_counts_the_variables_of_the_formula() {
    let mut solver = solver_for(&[&[1, 2]]);
    assert!(!solver.all_variables_assigned());
    solver.assignments.assign("1".to_string(), true, None);
    assert!(!solver.all_variables_assigned());
    solver.assignments.assign("2".to_string(), true, None);
    assert!(solver.all_variables_assigned());
}

#[test]
fn branching_variable_is_an_unassigned_variable_of_the_formula() {
    let mut solver = solver_for(&[&[1, 2, 3], &[-4, 5]]);
    solver.assignments.assign("2".to_string(), true, None);
    solver.assignments.assign("4".to_string(), false, None);
    let mut seen: Vec<String> = Vec::new();
    let mut polarities: Vec<bool> = Vec::new();
    for _ in 0..200 {
        let (variable, polarity) = solver.pick_branching_variable();
        assert!(["1", "3", "5"].contains(&variable.as_str()));
        if !seen.contains(&variable) {
            seen.push(variable);
        }
        if !polarities.contains(&polarity) {
            polarities.push(polarity);
        }
    }
    assert_eq!(seen.len(), 3);
    assert_eq!(polarities.len(), 2);
}

#[test]
fn branching_picks_the_last_variable_left() {
    let mut solver = solver_for(&[&[1, 2]]);
    solver.assignments.assign("1".to_string(), true, None);
    for _ in 0..10 {
        assert_eq!(solver.pick_branching_variable().0, "2");
    }
}

#[test]
fn resolve_drops_both_signs_of_the_pivot() {
    let solver = solver_for(&[]);
    let r = solver.resolve(&clause(&[1, 2, -3]), &clause(&[-2, 4, 1]), "2");
    assert_eq!(names(&r), vec!["1", "4", "¬3"]);
}

#[test]
fn resolve_of_a_clause_with_itself_removes_the_pivot_only() {
    let solver = solver_for(&[]);
    let a = clause(&[1, -2, 2, 3, 3]);
    let r = solver.resolve(&a, &a, "2");
    assert_eq!(names(&r), vec!["1", "3"]);
    let untouched = solver.resolve(&a, &a, "9");
    assert_eq!(names(&untouched), vec!["1", "2", "3", "¬2"]);
}

#[test]
fn analysis_at_level_zero_learns_nothing() {
    let mut solver = solver_for(&[&[1], &[-1]]);
    let (result, conflict) = solver.unit_propagation();
    assert_eq!(result, UnitPropagationResult::Conflict);
    let (level, learnt) = solver.conflict_analysis(&conflict.unwrap());
    assert_eq!(level, -1);
    assert!(learnt.is_none());
}

#[test]
fn analysis_resolves_to_one_literal_of_the_conflict_level() {
    let mut solver = solver_for(&[&[-1, 2], &[-1, 3], &[-2, -3]]);
    solver.unit_propagation();
    decide(&mut solver, 1);
    let (result, conflict) = solver.unit_propagation();
    assert_eq!(result, UnitPropagationResult::Conflict);
    let conflict = conflict.unwrap();
    assert_eq!(conflict.literals, vec![lit(-2), lit(-3)]);
    let (level, learnt) = solver.conflict_analysis(&conflict);
    assert_eq!(level, 0);
    assert_eq!(learnt.unwrap().literals, vec![lit(-1)]);
}

#[test]
fn analysis_jumps_back_to_the_second_highest_level() {
    let mut solver = solver_for(&[&[-4, -1, 2], &[-1, 3], &[-2, -3], &[5, 6]]);
    solver.unit_propagation();
    decide(&mut solver, 5);
    solver.unit_propagation();
    decide(&mut solver, 4);
    solver.unit_propagation();
    decide(&mut solver, 1);
    let (result, conflict) = solver.unit_propagation();
    assert_eq!(result, UnitPropagationResult::Conflict);
    let (level, learnt) = solver.conflict_analysis(&conflict.unwrap());
    let learnt = learnt.unwrap();
    assert_eq!(level, 2);
    assert_eq!(names(&learnt), vec!["¬1", "¬4"]);
    let at_conflict_level = learnt
        .literals
        .iter()
        .filter(|l| solver.assignments().get(&l.value).unwrap().dl == 3)
        .count();
    assert_eq!(at_conflict_level, 1);

    solver.add_learned_clause(learnt.clone());
    solver.backtrack(level);
    solver.assignments.dl = level;
    assert_eq!(solver.clause_status(&learnt), ClauseStatus::Unit);
    let (result, _) = solver.unit_propagation();
    assert_eq!(result, UnitPropagationResult::Unresolved);
    let asserted = solver.assignments().get(&"1".to_string()).unwrap();
    assert!(!asserted.value);
    assert_eq!(asserted.dl, 2);
    assert_eq!(names(asserted.antecedent.as_ref().unwrap()), vec!["¬1", "¬4"]);
}

#[test]
fn analysis_gives_the_clause_back_where_nothing_was_forced() {
    let mut solver = solver_for(&[&[-1, -1]]);
    solver.unit_propagation();
    decide(&mut solver, 1);
    let (result, conflict) = solver.unit_propagation();
    assert_eq!(result, UnitPropagationResult::Conflict);
    let (level, learnt) = solver.conflict_analysis(&conflict.unwrap());
    assert_eq!(level, 0);
    assert_eq!(learnt.unwrap().literals, vec![lit(-1), lit(-1)]);
}

#[test]
fn repeated_literals_do_not_stop_the_search() {
    let mut solver = solver_for(&[&[-1, -1], &[1, 2]]);
    solver.solve();
    assert_eq!(*solver.sat(), SolverResult::Satisfied);
    assert!(!solver.assignments().get(&"1".to_string()).unwrap().value);
    assert!(solver.assignments().get(&"2".to_string()).unwrap().value);
}

#[test]
fn antecedent_was_unit_just_before_its_variable_was_assigned() {
    let mut solver = solver_for(&[&[1, 2], &[-1, 3], &[-3, 4, 5], &[-4, -5, 2], &[-2, -3, 6]]);
    solver.solve();
    assert_eq!(*solver.sat(), SolverResult::Satisfied);
    let records = &solver.assignments().assignments;
    for (place, (variable, record)) in records.iter().enumerate() {
        let mut earlier = solver_for(&[]);
        for (name, past) in records.iter().take(place) {
            earlier.assignments.dl = past.dl;
            earlier.assignments.assign(name.clone(), past.value, None);
        }
        match &record.antecedent {
            Some(antecedent) => {
                assert_eq!(earlier.clause_status(antecedent), ClauseStatus::Unit);
                let open: Vec<&Literal> = antecedent
                    .literals
                    .iter()
                    .filter(|l| earlier.assignments().get(&l.value).is_none())
                    .collect();
                assert_eq!(open.len(), 1);
                assert_eq!(&open[0].value, variable);
                assert_eq!(record.value, !open[0].negation);
            }
            None => {
                let before = records[..place].last().map(|(_, r)| r.dl).unwrap_or(0);
                assert_eq!(record.dl, before + 1);
            }
        }
    }
}

#[test]
fn levels_never_fall_along_the_trail() {
    let mut solver = solver_for(&[&[1, 2, 3], &[-1, -2], &[-2, -3], &[-1, -3], &[4, 5], &[-4, 6]]);
    solver.solve();
    let levels: Vec<i32> = solver.assignments().assignments.iter().map(|(_, r)| r.dl).collect();
    assert!(levels.windows(2).all(|w| w[0] <= w[1] && w[1] <= w[0] + 1));
    assert_eq!(levels.last().copied().unwrap_or(0), solver.assignments().dl);
}
