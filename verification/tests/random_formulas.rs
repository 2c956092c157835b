use opt::cnf::{CNF, Literal};
use opt::cnf_tools::get_benchmark_cnf;
use opt::ppsz::PPSZ;
use opt::solver::Solver;
use rand::rngs::StdRng;
use rand::{Rng, SeedableRng};

/// A random 3-CNF over the given variables with a planted model, so the
/// formula is satisfiable by construction.
fn planted_3cnf(rng: &mut StdRng, vars: usize, clauses: usize) -> CNF {
    let model: Vec<bool> = (0..=vars).map(|_| rng.gen()).collect();
    let mut cnf = CNF::new();
    for _ in 0..clauses {
        let mut clause = Vec::new();
        // One literal agrees with the planted model.
        let v0 = rng.gen_range(1..=vars);
        clause.push(Literal { var: v0, sign: !model[v0] });
        for _ in 0..2 {
            let v = rng.gen_range(1..=vars);
            let sign: bool = rng.gen();
            clause.push(Literal { var: v, sign });
        }
        cnf.add_clause(clause);
    }
    cnf
}

#[test]
fn ppsz_solves_a_random_3cnf() {
    // A satisfiable random 3-CNF with 20 variables and 80 clauses from a
    // fixed seed; PPSZ finds a model within the default budget.
    let mut rng = StdRng::seed_from_u64(7);
    let cnf = planted_3cnf(&mut rng, 20, 80);
    let solver = PPSZ::new();
    let a = solver.solve(cnf.clone()).unwrap();
    assert!(cnf.eval(&a));
}

#[test]
fn benchmark_generator_respects_the_limits() {
    let cnf = get_benchmark_cnf(5, 10, 3);
    assert!(cnf.get_clauses().len() <= 10);
    assert!(cnf.var_count() < 5);
    for clause in cnf.get_clauses() {
        assert!(clause.len() <= 3);
        for l in clause {
            assert!(l.var < 5);
        }
    }
}

#[test]
fn shuffled_range_keeps_its_elements() {
    let mut v: Vec<usize> = (1..=30).collect();
    opt::rng::rand_shuffle(&mut v);
    let mut w = v.clone();
    w.sort();
    assert_eq!(w, (1..=30).collect::<Vec<usize>>());
}

#[test]
fn random_draws_stay_in_range() {
    for _ in 0..200 {
        assert!(opt::rng::rand_below(7) < 7);
    }
    let _ = opt::rng::rand_bool();
}
