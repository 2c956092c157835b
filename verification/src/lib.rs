//! A propositional satisfiability (SAT) solver for formulas in conjunctive
//! normal form. The clause database, the simplification kernel (unit
//! propagation, tautology normalization, pure-literal elimination, binary
//! resolution), a DPLL backtracking solver and a randomized PPSZ-style solver
//! are implemented and verified here.

#![verifier::loop_isolation(false)]

pub mod cnf;
pub mod cnf_tools;
pub mod dpll;
pub mod ppsz;
pub mod rng;
pub mod simplify;
pub mod solver;
pub mod text;

pub use cnf::CNF;
pub use cnf::Literal;
