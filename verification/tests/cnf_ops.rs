use opt::cnf::{clause_eq, clause_hit, contains_clause, CNF, Literal};

fn lit(i: i32) -> Literal {
    Literal { var: i.unsigned_abs() as usize, sign: i < 0 }
}

#[test]
fn neg_flips_sign_only() {
    let l = lit(3);
    let n = l.neg();
    assert_eq!(n.var, 3);
    assert!(n.sign);
    assert_eq!(n.neg(), l);
}

#[test]
fn add_clause_sorts_and_dedups() {
    let mut c = CNF::new();
    c.add_clause(vec![lit(2), lit(-1), lit(2), lit(1)]);
    assert_eq!(c.get_clauses().len(), 1);
    assert_eq!(c.get_clauses()[0], vec![lit(1), lit(-1), lit(2)]);
    assert_eq!(c.var_count(), 2);
}

#[test]
fn add_clause_skips_equal_clause() {
    let mut c = CNF::new();
    c.add_clause(vec![lit(1), lit(2)]);
    c.add_clause(vec![lit(2), lit(1)]);
    assert_eq!(c.get_clauses().len(), 1);
}

#[test]
fn empty_clause_detection() {
    let mut c = CNF::new();
    c.add_clause(vec![lit(1)]);
    assert!(!c.has_empty_clause());
    c.add_clause(vec![]);
    assert!(c.has_empty_clause());
}

#[test]
fn get_literal_picks_from_nonempty_clause() {
    let mut c = CNF::new();
    c.add_clause(vec![]);
    assert_eq!(c.get_literal(), None);
    c.add_clause(vec![lit(4), lit(5)]);
    let l = c.get_any_literal().unwrap();
    assert!(l == lit(4) || l == lit(5));
}

#[test]
fn remove_clauses_with_literal_removes_both_polarities() {
    let mut c = CNF::new();
    c.add_clause(vec![lit(1), lit(2)]);
    c.add_clause(vec![lit(-1), lit(3)]);
    c.add_clause(vec![lit(2), lit(3)]);
    c.remove_clauses_with_literal(lit(1));
    assert_eq!(c.get_clauses().len(), 1);
    assert_eq!(c.get_clauses()[0], vec![lit(2), lit(3)]);
}

#[test]
fn remove_and_add_clause_lists() {
    let mut c = CNF::new();
    c.add_clause(vec![lit(1)]);
    c.add_clause(vec![lit(2)]);
    c.remove_clauses(&vec![vec![lit(1)]]);
    assert_eq!(c.get_clauses().len(), 1);
    // Adding an already present clause is a no-op.
    c.add_clauses(&vec![vec![lit(3)], vec![lit(2)]]);
    assert_eq!(c.get_clauses().len(), 2);
}

#[test]
fn eval_requires_a_hit_in_every_clause() {
    let mut c = CNF::new();
    c.add_clause(vec![lit(1), lit(2)]);
    c.add_clause(vec![lit(-3)]);
    assert!(c.eval(&vec![lit(2), lit(-3)]));
    assert!(!c.eval(&vec![lit(2)]));
    assert!(!c.eval(&vec![lit(-1), lit(-3)]));
}

#[test]
fn clause_helpers() {
    let a = vec![lit(1), lit(2)];
    let b = vec![lit(1), lit(2)];
    assert!(clause_eq(&a, &b));
    assert!(!clause_eq(&a, &vec![lit(1)]));
    assert!(contains_clause(&vec![a.clone()], &b));
    assert!(clause_hit(&vec![lit(2)], &a));
    assert!(!clause_hit(&vec![lit(-2)], &a));
}

#[test]
fn clone_preserves_clauses() {
    let mut c = CNF::new();
    c.add_clause(vec![lit(7), lit(-8)]);
    let d = c.clone();
    assert_eq!(d.get_clauses(), c.get_clauses());
    assert_eq!(d.var_count(), 8);
}
