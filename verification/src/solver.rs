//! The solver interface: the error carried out of a failed search and the
//! trait that every complete solver implements.

use vstd::prelude::*;

use crate::cnf::clause_taut;
use crate::cnf::cnf_sat_by;
use crate::cnf::non_taut;
use crate::cnf::Literal;
use crate::cnf::CNF;

verus! {

/// An error with a human-readable reason, used both for unsatisfiable
/// formulas and for rejected textual input.
#[derive(Debug)]
pub struct Error {
    what: String,
}

impl View for Error {
    type V = Seq<char>;

    closed spec fn view(&self) -> Seq<char> {
        self.what@
    }
}

impl Error {
    /// An error carrying the given reason.
    pub fn new(s: &str) -> (r: Error)
        ensures
            r@ == s@,
    {
        Error { what: s.to_string() }
    }

    /// The reason this error carries.
    pub fn what(&self) -> (r: &str)
        ensures
            r@ == self@,
    {
        self.what.as_str()
    }
}

/// A complete SAT solver. An assignment it returns satisfies every
/// non-tautological clause of the input; a tautological clause mentions a
/// variable in both polarities and may be dropped without a witnessing
/// literal in the assignment.
pub trait Solver {
    fn solve(&self, cnf: CNF) -> (r: Result<Vec<Literal>, Error>)
        requires
            cnf.wf(),
            cnf.var_count < usize::MAX / 2,
        ensures
            r is Ok ==> cnf_sat_by(non_taut(cnf@), r->Ok_0@),
    ;
}

} // verus!
