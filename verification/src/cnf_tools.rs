//! Construction of random benchmark formulas.

use vstd::prelude::*;

use crate::cnf::Literal;
use crate::cnf::CNF;
use crate::rng::rand_below;
use crate::rng::rand_bool;

verus! {

/// A random CNF with at most `clauses` clauses, each over at most
/// `var_in_clauses` random literals with variables below `variables`.
pub fn get_benchmark_cnf(variables: usize, clauses: usize, var_in_clauses: usize) -> (r: CNF)
    requires
        variables > 0,
    ensures
        r.wf(),
        r@.len() <= clauses,
        r.var_count < variables,
        forall|i: int| 0 <= i < r@.len() ==> (#[trigger] r@[i]).len() <= var_in_clauses,
{
    let mut cnf = CNF::new();
    let mut i: usize = 0;
    while i < clauses
        invariant
            cnf.wf(),
            cnf@.len() <= i <= clauses,
            cnf.var_count < variables,
            forall|m: int| 0 <= m < cnf@.len() ==> (#[trigger] cnf@[m]).len() <= var_in_clauses,
        decreases clauses - i,
    {
        let mut clause: Vec<Literal> = Vec::new();
        let mut k: usize = 0;
        while k < var_in_clauses
            invariant
                clause@.len() == k <= var_in_clauses,
                forall|m: int| 0 <= m < clause@.len() ==> (#[trigger] clause@[m]).var < variables,
            decreases var_in_clauses - k,
        {
            let var = rand_below(variables);
            let sign = rand_bool();
            clause.push(Literal { var, sign });
            k += 1;
        }
        let ghost pre = cnf@;
        let ghost pre_vc = cnf.var_count as nat;
        cnf.add_clause(clause);
        proof {
            crate::cnf::lemma_max_var(clause@, pre_vc);
            crate::cnf::lemma_norm_clause_len(clause@);
            assert forall|m: int| 0 <= m < cnf@.len() implies (#[trigger] cnf@[m]).len()
                <= var_in_clauses by {
                if m < pre.len() {
                    assert(cnf@[m] == pre[m]);
                }
            }
            assert(cnf@.len() <= pre.len() + 1) by {
                if !pre.to_set().contains(crate::cnf::norm_clause(clause@)) {
                    assert(cnf@ == pre.push(crate::cnf::norm_clause(clause@)));
                }
            }
            assert(cnf.var_count < variables) by {
                if cnf.var_count as nat != pre_vc {
                    let m = crate::cnf::max_var(clause@, pre_vc);
                    if m != pre_vc {
                        assert(exists|j: int|
                            0 <= j < clause@.len() && (#[trigger] clause@[j]).var == m) by {
                            crate::cnf::lemma_max_var_witness(clause@, pre_vc);
                        }
                    }
                }
            }
        }
        i += 1;
    }
    cnf
}

} // verus!
