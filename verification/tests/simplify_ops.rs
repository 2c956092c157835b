use opt::cnf::{CNF, Literal};
use opt::simplify::SATSolver;

fn lit(i: i32) -> Literal {
    Literal { var: i.unsigned_abs() as usize, sign: i < 0 }
}

fn lit0(neg: bool) -> Literal {
    Literal { var: 0, sign: neg }
}

#[test]
fn unit_propagation_basics() {
    // Clauses {{+0}, {+1}, {+2, -0}}: the units are +0 and +1, and the
    // third clause loses its falsified literal.
    let mut c = CNF::new();
    c.add_clause(vec![lit0(false)]);
    c.add_clause(vec![lit(1)]);
    c.add_clause(vec![lit(2), lit0(true)]);
    let forced = SATSolver::unit_propagation(&mut c).unwrap();
    assert_eq!(forced, vec![lit0(false), lit(1)]);
    assert_eq!(c.get_clauses(), &vec![vec![lit(2)]]);
}

#[test]
fn unit_propagation_conflict_is_an_error() {
    let mut c = CNF::new();
    c.add_clause(vec![lit(1)]);
    c.add_clause(vec![lit(-1)]);
    let r = SATSolver::unit_propagation(&mut c);
    assert!(r.is_err());
    assert_eq!(r.err().unwrap().what(), "Unsatisfiable");
}

#[test]
fn unit_propagation_twice_when_no_new_units_appear() {
    // No reduction produces a fresh unit here, so a second round changes
    // nothing.
    let mut c = CNF::new();
    c.add_clause(vec![lit(1)]);
    c.add_clause(vec![lit(2), lit(3), lit(-1)]);
    SATSolver::unit_propagation(&mut c).unwrap();
    let after_once: Vec<Vec<Literal>> = c.get_clauses().clone();
    let forced = SATSolver::unit_propagation(&mut c).unwrap();
    assert!(forced.is_empty());
    assert_eq!(c.get_clauses(), &after_once);
}

#[test]
fn tautology_removal() {
    // Clauses {{+0}, {+1, -1}, {+2, -0}}: only the tautology goes.
    let mut c = CNF::new();
    c.add_clause(vec![lit0(false)]);
    c.add_clause(vec![lit(1), lit(-1)]);
    c.add_clause(vec![lit(2), lit0(true)]);
    SATSolver::normalize_cnf(&mut c);
    assert_eq!(c.get_clauses().len(), 2);
    assert_eq!(c.get_clauses()[0], vec![lit0(false)]);
    assert_eq!(c.get_clauses()[1], vec![lit0(true), lit(2)]);
}

#[test]
fn normalization_twice_equals_once() {
    let mut c = CNF::new();
    c.add_clause(vec![lit(1), lit(-1)]);
    c.add_clause(vec![lit(2)]);
    SATSolver::normalize_cnf(&mut c);
    let after_once: Vec<Vec<Literal>> = c.get_clauses().clone();
    SATSolver::normalize_cnf(&mut c);
    assert_eq!(c.get_clauses(), &after_once);
}

#[test]
fn pure_literal_elimination() {
    // Clauses {{+0}, {-0, +1}}: +1 is pure, its clause goes.
    let mut c = CNF::new();
    c.add_clause(vec![lit0(false)]);
    c.add_clause(vec![lit0(true), lit(1)]);
    let forced = SATSolver::pure_literal_ellimination(&mut c);
    assert_eq!(forced, vec![lit(1)]);
    assert_eq!(c.get_clauses(), &vec![vec![lit0(false)]]);
}

#[test]
fn pure_literal_elimination_only_removes_clauses() {
    let mut c = CNF::new();
    c.add_clause(vec![lit(1), lit(2)]);
    c.add_clause(vec![lit(-1), lit(3)]);
    let before: Vec<Vec<Literal>> = c.get_clauses().clone();
    SATSolver::pure_literal_ellimination(&mut c);
    for clause in c.get_clauses() {
        assert!(before.contains(clause));
    }
}

#[test]
fn resolution_on_a_pivot() {
    let a = vec![lit(1), lit(2)];
    let b = vec![lit(-1), lit(3)];
    let r = SATSolver::resolute(a, b, lit(1)).unwrap();
    assert_eq!(r, vec![lit(2), lit(3)]);
}

#[test]
fn resolution_swaps_a_reversed_pivot() {
    let a = vec![lit(-1), lit(3)];
    let b = vec![lit(1), lit(2)];
    let r = SATSolver::resolute(a, b, lit(1)).unwrap();
    assert_eq!(r, vec![lit(2), lit(3)]);
}

#[test]
fn resolution_fails_without_the_pivot() {
    let a = vec![lit(1), lit(2)];
    let b = vec![lit(3)];
    assert!(SATSolver::resolute(a, b, lit(1)).is_none());
}

#[test]
fn resolvent_is_sorted_and_deduplicated() {
    let a = vec![lit(1), lit(3)];
    let b = vec![lit(-1), lit(2), lit(3)];
    let r = SATSolver::resolute(a, b, lit(1)).unwrap();
    assert_eq!(r, vec![lit(2), lit(3)]);
}

#[test]
fn remove_literal_drops_every_occurrence() {
    let c = vec![lit(1), lit(2)];
    assert_eq!(SATSolver::remove_literal(&c, lit(1)), vec![lit(2)]);
    assert_eq!(SATSolver::remove_literal(&c, lit(3)), c);
}

#[test]
fn evaluate_on_literal_partitions() {
    let mut c = CNF::new();
    c.add_clause(vec![lit(1), lit(2)]);
    c.add_clause(vec![lit(-1), lit(3)]);
    c.add_clause(vec![lit(4)]);
    let (pos, neg) = SATSolver::evaluate_on_literal(&c, lit(1));
    assert_eq!(pos, vec![vec![lit(2)]]);
    assert_eq!(neg, vec![vec![lit(3)]]);
}

#[test]
fn davis_putnam_keeps_models() {
    let mut c = CNF::new();
    c.add_clause(vec![lit(1), lit(2)]);
    c.add_clause(vec![lit(-1), lit(2)]);
    SATSolver::davis_putnam_procedure(&mut c);
    // Any valuation making variable 2 true satisfied the input; the
    // procedure must keep it a model. Resolving on the first literal
    // yields {+2}.
    let mut hit = false;
    for clause in c.get_clauses() {
        if clause == &vec![lit(2)] {
            hit = true;
        }
        assert!(clause.contains(&lit(2)));
    }
    assert!(hit);
}

#[test]
fn is_unit_clause_checks_length() {
    assert!(SATSolver::is_unit_clause(&vec![lit(1)]));
    assert!(!SATSolver::is_unit_clause(&vec![lit(1), lit(2)]));
    assert!(!SATSolver::is_unit_clause(&vec![]));
}

#[test]
fn davis_putnam_eliminates_unopposed_variables() {
    // No literal has its negation present, so every variable is
    // eliminated without resolvents and the CNF empties out.
    let mut c = CNF::new();
    c.add_clause(vec![lit(1)]);
    c.add_clause(vec![lit(2)]);
    SATSolver::davis_putnam_procedure(&mut c);
    assert!(c.get_clauses().is_empty());
}

#[test]
fn unit_propagation_keeps_an_empty_clause() {
    // A clause reduced to nothing stays as the witness of failure.
    let mut c = CNF::new();
    c.add_clause(vec![lit(1)]);
    c.add_clause(vec![lit(-1)]);
    // The conflict is between two units here, so propagation refuses;
    // a conflict through reduction instead leaves the empty clause.
    let mut d = CNF::new();
    d.add_clause(vec![lit(1)]);
    d.add_clause(vec![lit(-1), lit(-2)]);
    d.add_clause(vec![lit(2)]);
    SATSolver::unit_propagation(&mut d).unwrap();
    assert!(d.has_empty_clause());
    assert!(SATSolver::unit_propagation(&mut c).is_err());
}

#[test]
fn davis_putnam_preserves_unsatisfiability() {
    // Resolving the two conflicting units yields the empty clause, so
    // the result is as unsatisfiable as the input.
    let mut c = CNF::new();
    c.add_clause(vec![lit(1)]);
    c.add_clause(vec![lit(-1)]);
    SATSolver::davis_putnam_procedure(&mut c);
    assert!(c.has_empty_clause());
}

#[test]
fn davis_putnam_eliminates_the_first_variable() {
    let mut c = CNF::new();
    c.add_clause(vec![lit(1), lit(2)]);
    c.add_clause(vec![lit(-1), lit(3)]);
    SATSolver::davis_putnam_procedure(&mut c);
    for clause in c.get_clauses() {
        for l in clause {
            assert_ne!(l.var, 1);
        }
    }
}
