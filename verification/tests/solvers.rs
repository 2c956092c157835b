use opt::cnf::{CNF, Literal};
use opt::dpll::DPLL;
use opt::ppsz::{ExtendedCNF, PPSZ};
use opt::simplify::SATSolver;
use opt::solver::Solver;

fn lit(i: i32) -> Literal {
    Literal { var: i.unsigned_abs() as usize, sign: i < 0 }
}

fn p11_cnf() -> CNF {
    // {{+1, +2}, {-1, +3}, {-2, -3}}
    let mut c = CNF::new();
    c.add_clause(vec![lit(1), lit(2)]);
    c.add_clause(vec![lit(-1), lit(3)]);
    c.add_clause(vec![lit(-2), lit(-3)]);
    c
}

#[test]
fn dpll_sat() {
    let c = p11_cnf();
    let a = DPLL::solve_dpll(c.clone()).unwrap();
    assert!(c.eval(&a));
}

#[test]
fn dpll_unsat() {
    let mut c = CNF::new();
    c.add_clause(vec![lit(1)]);
    c.add_clause(vec![lit(-1)]);
    let r = DPLL::solve_dpll(c);
    assert!(r.is_err());
}

#[test]
fn dpll_empty_cnf_is_satisfiable() {
    let a = DPLL::solve_dpll(CNF::new()).unwrap();
    assert!(CNF::new().eval(&a));
}

#[test]
fn dpll_empty_clause_is_unsatisfiable() {
    let mut c = CNF::new();
    c.add_clause(vec![]);
    assert!(DPLL::solve_dpll(c).is_err());
}

#[test]
fn dpll_through_the_solver_trait() {
    let solver = DPLL {};
    let c = p11_cnf();
    let a = solver.solve(c.clone()).unwrap();
    assert!(c.eval(&a));
}

#[test]
fn simplify_cnf_forces_units() {
    let mut c = CNF::new();
    c.add_clause(vec![lit(1)]);
    c.add_clause(vec![lit(-1), lit(2)]);
    let forced = DPLL::simplify_cnf(&mut c).unwrap();
    assert!(forced.contains(&lit(1)));
}

#[test]
fn satsolver_facade_returns_unit_clauses() {
    let c = p11_cnf();
    let (sat, model) = SATSolver::solve_dpll(c.clone());
    assert!(sat);
    let mut assignment = Vec::new();
    for clause in model.get_clauses() {
        assert_eq!(clause.len(), 1);
        assignment.push(clause[0]);
    }
    assert!(c.eval(&assignment));
}

#[test]
fn satsolver_facade_unsat_returns_input() {
    let mut c = CNF::new();
    c.add_clause(vec![lit(1)]);
    c.add_clause(vec![lit(-1)]);
    let (sat, back) = SATSolver::solve_dpll(c.clone());
    assert!(!sat);
    assert_eq!(back.get_clauses(), c.get_clauses());
    assert!(SATSolver::solve(c).is_none());
}

#[test]
fn extended_cnf_splits_units_and_clauses() {
    let mut c = CNF::new();
    c.add_clause(vec![lit(1)]);
    c.add_clause(vec![lit(2), lit(3)]);
    let e = ExtendedCNF::from_cnf(&c);
    assert!(e.contains(&vec![lit(1)]));
    assert!(e.contains(&vec![lit(2), lit(3)]));
    assert!(!e.contains(&vec![lit(2)]));
    assert_eq!(e.unsatisfied_clauses(), 2);
}

#[test]
fn extended_cnf_apply_consumes_the_variable() {
    let mut c = CNF::new();
    c.add_clause(vec![lit(1)]);
    c.add_clause(vec![lit(-1), lit(2)]);
    let mut e = ExtendedCNF::from_cnf(&c);
    assert!(e.apply(lit(1)).is_none());
    // The falsified clause leaves its residual {+2} as a unit.
    assert!(e.contains(&vec![lit(2)]));
    assert!(!e.contains(&vec![lit(1)]));
}

#[test]
fn extended_cnf_apply_conflicting_unit_fails() {
    let mut c = CNF::new();
    c.add_clause(vec![lit(-1)]);
    let mut e = ExtendedCNF::from_cnf(&c);
    assert!(e.apply(lit(1)).is_some());
}

#[test]
fn extended_cnf_add_clause_dedups() {
    let mut c = CNF::new();
    c.add_clause(vec![lit(1), lit(2)]);
    let mut e = ExtendedCNF::from_cnf(&c);
    assert!(!e.add_clause(vec![lit(1), lit(2)]));
    assert!(e.add_clause(vec![lit(1)]));
    assert!(!e.add_clause(vec![lit(1)]));
}

#[test]
fn extended_cnf_literal_index() {
    let mut c = CNF::new();
    c.add_clause(vec![lit(1), lit(2)]);
    c.add_clause(vec![lit(-1), lit(2)]);
    let e = ExtendedCNF::from_cnf(&c);
    assert_eq!(e.get_clauses_with(lit(2)).len(), 2);
    assert_eq!(e.get_clauses_with(lit(1)).len(), 1);
    assert_eq!(e.clauses_with(lit(-1)).unwrap().len(), 1);
    let ls = e.get_literals();
    assert!(ls.contains(&lit(1)) && ls.contains(&lit(-1)));
}

#[test]
fn clause_without_literal_strips_both_polarities() {
    let c = vec![lit(1), lit(-1), lit(2)];
    assert_eq!(ExtendedCNF::clause_without_literal(c, lit(1)), vec![lit(2)]);
}

#[test]
fn check_for_unit_clause_reports_polarity() {
    let mut c = CNF::new();
    c.add_clause(vec![lit(-3)]);
    let e = ExtendedCNF::from_cnf(&c);
    assert_eq!(PPSZ::check_for_unit_clause(&e, lit(-3)), Some(true));
    assert_eq!(PPSZ::check_for_unit_clause(&e, lit(3)), Some(false));
    assert_eq!(PPSZ::check_for_unit_clause(&e, lit(4)), None);
}

#[test]
fn modify_assigns_each_permutation_entry() {
    let mut c = CNF::new();
    c.add_clause(vec![lit(1)]);
    c.add_clause(vec![lit(-2), lit(3)]);
    let e = ExtendedCNF::from_cnf(&c);
    let pi = vec![1usize, 2, 3];
    let y = vec![false, true, false];
    let a = PPSZ::modify(e, &pi, &y);
    assert_eq!(a.len(), 3);
    for (i, l) in a.iter().enumerate() {
        assert_eq!(l.var, pi[i]);
    }
    // The unit clause forces the first assignment.
    assert_eq!(a[0], lit(1));
}

#[test]
fn ppsz_solves_a_small_formula() {
    let c = p11_cnf();
    let mut s = PPSZ::new();
    let a = s.solve_ppsz(c.clone()).unwrap();
    assert!(c.eval(&a));
}

#[test]
fn ppsz_setters_configure_the_budgets() {
    let mut s = PPSZ::new();
    s.set_max_clauses(10);
    s.set_max_resolve_iterations(1);
    s.set_max_search_iterations(5);
    s.set_max_clause_size(2);
    s.set_bounded_resolve_iterations(1);
    assert_eq!(s.max_clauses, 10);
    assert_eq!(s.max_resolve_iterations, 1);
    assert_eq!(s.max_search_iterations, 5);
    assert_eq!(s.max_clause_size, 2);
    assert_eq!(s.bounded_resolve_iterations, 1);
}

#[test]
fn ppsz_resolution_helpers() {
    assert!(PPSZ::is_taut(&vec![lit(1), lit(-1)]));
    assert!(!PPSZ::is_taut(&vec![lit(1), lit(2)]));
    let r = PPSZ::resolve(vec![lit(1), lit(2)], vec![lit(-1), lit(3)], lit(1)).unwrap();
    assert_eq!(r, vec![lit(2), lit(3)]);
    assert_eq!(PPSZ::remove_literal(&vec![lit(1), lit(2)], lit(2)), vec![lit(1)]);
}

#[test]
fn error_carries_its_reason() {
    let e = opt::solver::Error::new("Unsatisfiable");
    assert_eq!(e.what(), "Unsatisfiable");
}
