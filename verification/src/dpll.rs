//! The DPLL backtracking solver: simplify to a fixed point, branch on a
//! literal, recurse on both polarities, and return the literals forced
//! true along the successful path.

use vstd::prelude::*;
use vstd::set_lib::lemma_int_range;
use vstd::set_lib::lemma_len_subset;
use vstd::set_lib::set_int_range;

use crate::cnf::clause_sat_by;
use crate::cnf::clause_taut;
use crate::cnf::clause_vars_le;
use crate::cnf::clauses_view;
use crate::cnf::cnf_sat_by;
use crate::cnf::cnf_size;
use crate::cnf::copy_clause;
use crate::cnf::sorted_strict;
use crate::cnf::lemma_norm_sorted_id;
use crate::cnf::lit_neg;
use crate::cnf::lit_occurs;
use crate::cnf::non_taut;
use crate::cnf::norm_clause;
use crate::cnf::Literal;
use crate::cnf::CNF;
use crate::simplify::lemma_clause_filter_all;
use crate::simplify::lemma_clause_filter_props;
use crate::simplify::lemma_filter_props;
use crate::simplify::lemma_normalize_retract;
use crate::simplify::pure_lits;
use crate::simplify::pure_result;
use crate::simplify::unit_lits;
use crate::simplify::up_conflict;
use crate::simplify::val_sat_clause;
use crate::simplify::val_sat_cnf;
use crate::simplify::val_sat_lit;
use crate::simplify::up_hit;
use crate::simplify::up_reduce;
use crate::simplify::up_result;
use crate::simplify::SATSolver;
use crate::solver::Error;
use crate::solver::Solver;

verus! {

/// The assignment `a` contains every literal of `forced`.
pub open spec fn contains_all(a: Seq<Literal>, forced: Seq<Literal>) -> bool {
    forall|k: int| 0 <= k < forced.len() ==> a.contains(#[trigger] forced[k])
}

/// The set of variable indexes occurring in the CNF.
pub open spec fn cnf_vars(cs: Seq<Seq<Literal>>) -> Set<int> {
    Set::new(|v: int| exists|x: Literal| lit_occurs(x, cs) && x.var == v)
}

/// A CNF whose variables are bounded has finitely many of them.
pub proof fn lemma_cnf_vars_finite(cs: Seq<Seq<Literal>>, bound: nat)
    requires
        forall|i: int| 0 <= i < cs.len() ==> clause_vars_le(#[trigger] cs[i], bound),
    ensures
        cnf_vars(cs).finite(),
        cnf_vars(cs).len() <= bound + 1,
{
    lemma_int_range(0, bound as int + 1);
    assert(cnf_vars(cs).subset_of(set_int_range(0, bound as int + 1))) by {
        assert forall|v: int| cnf_vars(cs).contains(v) implies set_int_range(
            0,
            bound as int + 1,
        ).contains(v) by {
            let x = choose|x: Literal| lit_occurs(x, cs) && x.var == v;
            let (i, k) = choose|i: int, k: int|
                0 <= i < cs.len() && 0 <= k < cs[i].len() && cs[i][k] == x;
            assert(clause_vars_le(cs[i], bound));
        }
    }
    lemma_len_subset(cnf_vars(cs), set_int_range(0, bound as int + 1));
}

/// A clause whose literals all lie in a non-tautological clause is
/// itself non-tautological.
pub proof fn lemma_subclause_non_taut(sub: Seq<Literal>, sup: Seq<Literal>)
    requires
        forall|y: Literal| #[trigger] sub.contains(y) ==> sup.contains(y),
        !clause_taut(sup),
    ensures
        !clause_taut(sub),
{
    if clause_taut(sub) {
        let (i, k) = choose|i: int, k: int|
            0 <= i < sub.len() && 0 <= k < sub.len() && sub[k] == lit_neg(sub[i]);
        assert(sup.contains(sub[i])) by { assert(sub.contains(sub[i])); }
        assert(sup.contains(sub[k])) by { assert(sub.contains(sub[k])); }
        let a = choose|a: int| 0 <= a < sup.len() && sup[a] == sub[i];
        let b = choose|b: int| 0 <= b < sup.len() && sup[b] == sub[k];
        assert(clause_taut(sup)) by { assert(sup[b] == lit_neg(sup[a])); }
    }
}

/// Unit propagation only strengthens a CNF: an assignment that contains
/// the units and satisfies the propagated CNF satisfies the original,
/// tautologies aside.
pub proof fn lemma_up_transfer(
    pre: Seq<Seq<Literal>>,
    post: Seq<Seq<Literal>>,
    u: Seq<Literal>,
    a: Seq<Literal>,
)
    requires
        post.to_set() == up_result(pre.to_set()),
        u.to_set() == unit_lits(pre.to_set()),
        cnf_sat_by(non_taut(post), a),
        contains_all(a, u),
    ensures
        cnf_sat_by(non_taut(pre), a),
{
    lemma_clause_filter_props(pre, |c: Seq<Literal>| !clause_taut(c));
    lemma_clause_filter_props(post, |c: Seq<Literal>| !clause_taut(c));
    let us = unit_lits(pre.to_set());
    let nt = non_taut(pre);
    assert forall|i: int| 0 <= i < nt.len() implies clause_sat_by(a, nt[i]) by {
        let ci = nt[i];
        assert(nt.contains(ci)) by { assert(nt[i] == ci); }
        assert(pre.contains(ci) && !clause_taut(ci));
        if ci.len() == 1 {
            assert(pre.to_set().contains(seq![ci[0]])) by {
                assert(ci =~= seq![ci[0]]);
                assert(pre.to_set().contains(ci)) by { assert(pre.contains(ci)); }
            }
            assert(u.to_set().contains(ci[0]));
            assert(u.contains(ci[0]));
            let k = choose|k: int| 0 <= k < u.len() && u[k] == ci[0];
            assert(a.contains(ci[0]));
            assert(clause_sat_by(a, ci)) by { assert(a.contains(ci[0])); }
        } else if up_hit(ci, us) {
            let k = choose|k: int| 0 <= k < ci.len() && us.contains(ci[k]);
            assert(u.to_set().contains(ci[k]));
            assert(u.contains(ci[k]));
            let m = choose|m: int| 0 <= m < u.len() && u[m] == ci[k];
            assert(a.contains(ci[k]));
            assert(clause_sat_by(a, ci));
        } else {
            let rc = up_reduce(ci, us);
            assert(up_result(pre.to_set()).contains(rc)) by {
                assert(pre.to_set().contains(ci)) by { assert(pre.contains(ci)); }
            }
            assert(post.to_set().contains(rc));
            assert(post.contains(rc));
            lemma_filter_props(ci, |x: Literal| !us.contains(lit_neg(x)));
            lemma_subclause_non_taut(rc, ci);
            assert(non_taut(post).contains(rc));
            let m = choose|m: int| 0 <= m < non_taut(post).len() && non_taut(post)[m] == rc;
            assert(clause_sat_by(a, rc));
            let k = choose|k: int| 0 <= k < rc.len() && a.contains(rc[k]);
            assert(ci.contains(rc[k])) by { assert(rc.contains(rc[k])); }
            let n = choose|n: int| 0 <= n < ci.len() && ci[n] == rc[k];
            assert(clause_sat_by(a, ci));
        }
    }
}

/// Pure-literal elimination only strengthens a CNF: an assignment that
/// contains the pure literals and satisfies the reduced CNF satisfies
/// the original, tautologies aside.
pub proof fn lemma_pure_transfer(
    pre: Seq<Seq<Literal>>,
    post: Seq<Seq<Literal>>,
    p: Seq<Literal>,
    a: Seq<Literal>,
)
    requires
        post == pure_result(pre),
        p.to_set() == pure_lits(pre),
        cnf_sat_by(non_taut(post), a),
        contains_all(a, p),
    ensures
        cnf_sat_by(non_taut(pre), a),
{
    lemma_clause_filter_props(pre, |c: Seq<Literal>| !crate::simplify::clause_has_pure(c, pre));
    lemma_clause_filter_props(pre, |c: Seq<Literal>| !clause_taut(c));
    lemma_clause_filter_props(post, |c: Seq<Literal>| !clause_taut(c));
    let nt = non_taut(pre);
    assert forall|i: int| 0 <= i < nt.len() implies clause_sat_by(a, nt[i]) by {
        let ci = nt[i];
        assert(nt.contains(ci)) by { assert(nt[i] == ci); }
        assert(pre.contains(ci) && !clause_taut(ci));
        if crate::simplify::clause_has_pure(ci, pre) {
            let k = choose|k: int| 0 <= k < ci.len() && pure_lits(pre).contains(ci[k]);
            assert(p.to_set().contains(ci[k]));
            assert(p.contains(ci[k]));
            let m = choose|m: int| 0 <= m < p.len() && p[m] == ci[k];
            assert(a.contains(ci[k]));
            assert(clause_sat_by(a, ci));
        } else {
            assert(post.contains(ci));
            assert(non_taut(post).contains(ci));
            let m = choose|m: int| 0 <= m < non_taut(post).len() && non_taut(post)[m] == ci;
            assert(clause_sat_by(a, ci));
        }
    }
}

/// A CNF holding contradicting unit clauses is satisfied by no
/// valuation.
pub proof fn lemma_conflict_unsat(cs: Seq<Seq<Literal>>, v: spec_fn(int) -> bool)
    requires
        up_conflict(cs.to_set()),
    ensures
        !val_sat_cnf(v, cs),
{
    let l = choose|l: Literal|
        unit_lits(cs.to_set()).contains(l) && unit_lits(cs.to_set()).contains(lit_neg(l));
    assert(cs.to_set().contains(seq![l]));
    assert(cs.to_set().contains(seq![lit_neg(l)]));
    let i1 = choose|i1: int| 0 <= i1 < cs.len() && cs[i1] == seq![l];
    let i2 = choose|i2: int| 0 <= i2 < cs.len() && cs[i2] == seq![lit_neg(l)];
    if val_sat_cnf(v, cs) {
        assert(val_sat_clause(v, cs[i1]));
        let k1 = choose|k1: int| 0 <= k1 < cs[i1].len() && val_sat_lit(v, cs[i1][k1]);
        assert(val_sat_lit(v, l));
        assert(val_sat_clause(v, cs[i2]));
        let k2 = choose|k2: int| 0 <= k2 < cs[i2].len() && val_sat_lit(v, cs[i2][k2]);
        assert(val_sat_lit(v, lit_neg(l)));
        assert(false);
    }
}

/// Unit propagation keeps every model: a valuation satisfying the input
/// satisfies the propagated CNF.
pub proof fn lemma_up_forward(pre: Seq<Seq<Literal>>, post: Seq<Seq<Literal>>, v: spec_fn(
    int,
) -> bool)
    requires
        post.to_set() == up_result(pre.to_set()),
        val_sat_cnf(v, pre),
    ensures
        val_sat_cnf(v, post),
{
    let us = unit_lits(pre.to_set());
    assert forall|i: int| 0 <= i < post.len() implies val_sat_clause(v, post[i]) by {
        assert(post.to_set().contains(post[i])) by { assert(post.contains(post[i])); }
        let c = choose|c: Seq<Literal>|
            pre.to_set().contains(c) && c.len() != 1 && !up_hit(c, us) && post[i] == up_reduce(
                c,
                us,
            );
        let q = choose|q: int| 0 <= q < pre.len() && pre[q] == c;
        assert(val_sat_clause(v, c));
        let k = choose|k: int| 0 <= k < c.len() && val_sat_lit(v, c[k]);
        // The satisfied literal survives the reduction: its negation
        // cannot be a unit, since that unit would contradict it.
        assert(!us.contains(lit_neg(c[k]))) by {
            if us.contains(lit_neg(c[k])) {
                assert(pre.to_set().contains(seq![lit_neg(c[k])]));
                let q2 = choose|q2: int| 0 <= q2 < pre.len() && pre[q2] == seq![lit_neg(c[k])];
                assert(val_sat_clause(v, pre[q2]));
                let k2 = choose|k2: int| 0 <= k2 < pre[q2].len() && val_sat_lit(v, pre[q2][k2]);
                assert(val_sat_lit(v, lit_neg(c[k])));
            }
        }
        lemma_filter_props(c, |z: Literal| !us.contains(lit_neg(z)));
        assert(post[i].contains(c[k]));
        let m = choose|m: int| 0 <= m < post[i].len() && post[i][m] == c[k];
        assert(val_sat_clause(v, post[i]));
    }
}

/// A consistent model in the containment sense induces a valuation: set
/// every variable whose positive literal the model holds, and every
/// clause is satisfied, tautologies included.
pub proof fn lemma_model_induces_valuation(cs: Seq<Seq<Literal>>, a: Seq<Literal>)
    requires
        cnf_sat_by(non_taut(cs), a),
        forall|x: Literal| #[trigger] a.contains(x) ==> !a.contains(lit_neg(x)),
    ensures
        exists|v: spec_fn(int) -> bool| val_sat_cnf(v, cs),
{
    let v = |i: int| a.contains(Literal { var: i as usize, sign: false });
    lemma_clause_filter_props(cs, |c: Seq<Literal>| !clause_taut(c));
    assert(val_sat_cnf(v, cs)) by {
        assert forall|i: int| 0 <= i < cs.len() implies val_sat_clause(v, cs[i]) by {
            let c = cs[i];
            if clause_taut(c) {
                let (p, q) = choose|p: int, q: int|
                    0 <= p < c.len() && 0 <= q < c.len() && c[q] == lit_neg(c[p]);
                if v(c[p].var as int) == !c[p].sign {
                    assert(val_sat_clause(v, c)) by { assert(val_sat_lit(v, c[p])); }
                } else {
                    assert(val_sat_clause(v, c)) by { assert(val_sat_lit(v, c[q])); }
                }
            } else {
                assert(non_taut(cs).contains(c));
                let m = choose|m: int| 0 <= m < non_taut(cs).len() && non_taut(cs)[m] == c;
                assert(clause_sat_by(a, c));
                let k = choose|k: int| 0 <= k < c.len() && a.contains(c[k]);
                let x = c[k];
                assert(val_sat_lit(v, x)) by {
                    if x.sign {
                        assert(Literal { var: x.var, sign: false } == lit_neg(x));
                        assert(!a.contains(lit_neg(x)));
                    } else {
                        assert(Literal { var: x.var, sign: false } == x);
                    }
                }
                assert(val_sat_clause(v, c));
            }
        }
    }
}

/// Branching is complete: a valuation satisfying the CNF before the
/// branch satisfies the branch CNF matching its value for the pivot.
proof fn lemma_branch_complete(
    curb: Seq<Seq<Literal>>,
    removed: Seq<Seq<Literal>>,
    pos: Seq<Seq<Literal>>,
    negs: Seq<Seq<Literal>>,
    c1v: Seq<Seq<Literal>>,
    c2v: Seq<Seq<Literal>>,
    l: Literal,
    v: spec_fn(int) -> bool,
)
    requires
        val_sat_cnf(v, curb),
        forall|c: Seq<Literal>|
            #![trigger removed.contains(c)]
            removed.contains(c) ==> curb.contains(c),
        forall|c2: Seq<Literal>|
            #![trigger pos.contains(c2)]
            pos.contains(c2) ==> exists|c: Seq<Literal>|
                #[trigger] curb.contains(c) && c.contains(l) && c2 == c.filter(
                    |x: Literal| x != l,
                ),
        forall|c2: Seq<Literal>|
            #![trigger negs.contains(c2)]
            negs.contains(c2) ==> exists|c: Seq<Literal>|
                #[trigger] curb.contains(c) && c.contains(lit_neg(l)) && c2 == c.filter(
                    |x: Literal| x != lit_neg(l),
                ),
        forall|k: int| 0 <= k < pos.len() ==> sorted_strict(#[trigger] pos[k]),
        forall|k: int| 0 <= k < negs.len() ==> sorted_strict(#[trigger] negs[k]),
        forall|c: Seq<Literal>|
            #![trigger c1v.contains(c)]
            c1v.contains(c) ==> (removed.contains(c) || exists|k: int|
                0 <= k < pos.len() && norm_clause(#[trigger] pos[k]) == c),
        forall|c: Seq<Literal>|
            #![trigger c2v.contains(c)]
            c2v.contains(c) ==> (removed.contains(c) || exists|k: int|
                0 <= k < negs.len() && norm_clause(#[trigger] negs[k]) == c),
    ensures
        val_sat_cnf(v, c1v) || val_sat_cnf(v, c2v),
{
    if !val_sat_lit(v, l) {
        assert forall|i: int| 0 <= i < c1v.len() implies val_sat_clause(v, c1v[i]) by {
            let c = c1v[i];
            assert(c1v.contains(c)) by { assert(c1v[i] == c); }
            if removed.contains(c) {
                let q = choose|q: int| 0 <= q < curb.len() && curb[q] == c;
                assert(val_sat_clause(v, curb[q]));
            } else {
                let k = choose|k: int| 0 <= k < pos.len() && norm_clause(pos[k]) == c;
                lemma_norm_sorted_id(pos[k]);
                assert(pos.contains(c)) by { assert(pos[k] == c); }
                let corig = choose|corig: Seq<Literal>|
                    #[trigger] curb.contains(corig) && corig.contains(l) && c == corig.filter(
                        |x: Literal| x != l,
                    );
                let q = choose|q: int| 0 <= q < curb.len() && curb[q] == corig;
                assert(val_sat_clause(v, corig));
                let m = choose|m: int| 0 <= m < corig.len() && val_sat_lit(v, corig[m]);
                assert(corig[m] != l);
                lemma_filter_props(corig, |x: Literal| x != l);
                assert(c.contains(corig[m])) by { assert(corig.contains(corig[m])); }
                let n = choose|n: int| 0 <= n < c.len() && c[n] == corig[m];
                assert(val_sat_clause(v, c));
            }
        }
    } else {
        assert forall|i: int| 0 <= i < c2v.len() implies val_sat_clause(v, c2v[i]) by {
            let c = c2v[i];
            assert(c2v.contains(c)) by { assert(c2v[i] == c); }
            if removed.contains(c) {
                let q = choose|q: int| 0 <= q < curb.len() && curb[q] == c;
                assert(val_sat_clause(v, curb[q]));
            } else {
                let k = choose|k: int| 0 <= k < negs.len() && norm_clause(negs[k]) == c;
                lemma_norm_sorted_id(negs[k]);
                assert(negs.contains(c)) by { assert(negs[k] == c); }
                let corig = choose|corig: Seq<Literal>|
                    #[trigger] curb.contains(corig) && corig.contains(lit_neg(l)) && c
                        == corig.filter(|x: Literal| x != lit_neg(l));
                let q = choose|q: int| 0 <= q < curb.len() && curb[q] == corig;
                assert(val_sat_clause(v, corig));
                let m = choose|m: int| 0 <= m < corig.len() && val_sat_lit(v, corig[m]);
                assert(corig[m] != lit_neg(l)) by {
                    if corig[m] == lit_neg(l) {
                        assert(val_sat_lit(v, lit_neg(l)));
                    }
                }
                lemma_filter_props(corig, |x: Literal| x != lit_neg(l));
                assert(c.contains(corig[m])) by { assert(corig.contains(corig[m])); }
                let n = choose|n: int| 0 <= n < c.len() && c[n] == corig[m];
                assert(val_sat_clause(v, c));
            }
        }
    }
}

/// The DPLL solver.
pub struct DPLL {}

impl Solver for DPLL {
    /// Solve by the DPLL procedure: beyond the trait's soundness, a
    /// returned assignment is free of complementary pairs, and a failure
    /// means no valuation satisfies the input.
    fn solve(&self, cnf: CNF) -> (r: Result<Vec<Literal>, Error>)
        ensures
            r is Ok ==> forall|x: Literal| #[trigger]
                r->Ok_0@.contains(x) ==> !r->Ok_0@.contains(lit_neg(x)),
            r is Ok ==> exists|v: spec_fn(int) -> bool| val_sat_cnf(v, cnf@),
            r is Err ==> forall|v: spec_fn(int) -> bool| !val_sat_cnf(v, cnf@),
    {
        Self::solve_dpll(cnf)
    }
}

impl DPLL {
    /// One pass of the simplification cycle: unit propagation, tautology
    /// normalization, pure-literal elimination. The returned literals,
    /// together with any assignment of the simplified CNF, satisfy the
    /// original CNF up to tautologies.
    pub fn simplify_cnf(cnf: &mut CNF) -> (r: Result<Vec<Literal>, Error>)
        requires
            old(cnf).wf(),
        ensures
            final(cnf).wf(),
            final(cnf).var_count == old(cnf).var_count,
            (r is Err) == up_conflict(old(cnf)@.to_set()),
            r is Err ==> final(cnf)@ == old(cnf)@,
            r is Ok ==> forall|a: Seq<Literal>|
                #![trigger cnf_sat_by(non_taut(final(cnf)@), a)]
                cnf_sat_by(non_taut(final(cnf)@), a) && contains_all(a, r->Ok_0@) ==> cnf_sat_by(
                    non_taut(old(cnf)@),
                    a,
                ),
            r is Ok ==> forall|v: spec_fn(int) -> bool| #[trigger]
                val_sat_cnf(v, old(cnf)@) ==> val_sat_cnf(v, final(cnf)@),
            r is Ok ==> forall|x: Literal| #[trigger]
                r->Ok_0@.contains(x) ==> lit_occurs(x, old(cnf)@),
            r is Ok ==> forall|x: Literal| #[trigger]
                r->Ok_0@.contains(x) ==> !lit_occurs(x, final(cnf)@) && !lit_occurs(
                    lit_neg(x),
                    final(cnf)@,
                ),
            r is Ok ==> forall|x: Literal| #[trigger]
                r->Ok_0@.contains(x) ==> !r->Ok_0@.contains(lit_neg(x)),
            r is Ok ==> forall|i: int|
                0 <= i < final(cnf)@.len() ==> !clause_taut(#[trigger] final(cnf)@[i]),
            cnf_size(final(cnf)@) <= cnf_size(old(cnf)@),
            r is Ok && r->Ok_0@.len() > 0 ==> cnf_size(final(cnf)@) < cnf_size(old(cnf)@),
            forall|x: Literal| lit_occurs(x, final(cnf)@) ==> lit_occurs(x, old(cnf)@),
    {
        let ghost cs0 = cnf@;
        let u = match SATSolver::unit_propagation(cnf) {
            Err(e) => { return Err(e) },
            Ok(u) => u,
        };
        let ghost cs1 = cnf@;
        let ghost uv = u@;
        SATSolver::normalize_cnf(cnf);
        let ghost cs2 = cnf@;
        let p = SATSolver::pure_literal_ellimination(cnf);
        let ghost cs3 = cnf@;
        let ghost pv = p@;
        let mut eval = u;
        let mut p2 = p;
        eval.append(&mut p2);
        proof {
            assert(eval@ == uv + pv);
            lemma_normalize_retract(cs1);
            lemma_clause_filter_props(cs2, |c: Seq<Literal>| !clause_taut(c));
            lemma_clause_filter_props(cs1, |c: Seq<Literal>| !clause_taut(c));
            assert forall|a: Seq<Literal>|
                cnf_sat_by(non_taut(cs3), a) && contains_all(a, eval@) implies cnf_sat_by(
                non_taut(cs0),
                a,
            ) by {
                assert(contains_all(a, pv)) by {
                    assert forall|k: int| 0 <= k < pv.len() implies a.contains(
                        #[trigger] pv[k],
                    ) by {
                        assert(eval@[uv.len() + k] == pv[k]);
                        assert(a.contains(eval@[uv.len() + k]));
                    }
                }
                assert(contains_all(a, uv)) by {
                    assert forall|k: int| 0 <= k < uv.len() implies a.contains(
                        #[trigger] uv[k],
                    ) by {
                        assert(eval@[k] == uv[k]);
                        assert(a.contains(eval@[k]));
                    }
                }
                lemma_pure_transfer(cs2, cs3, pv, a);
                // Normalization removed exactly the tautologies, so the
                // non-tautological parts of cs1 and cs2 agree.
                assert(non_taut(cs2) == non_taut(cs1));
                assert(cnf_sat_by(non_taut(cs1), a));
                lemma_up_transfer(cs0, cs1, uv, a);
            }
            // Every clause that survives normalization and pure-literal
            // elimination is non-tautological.
            assert forall|i: int| 0 <= i < cs3.len() implies !clause_taut(#[trigger] cs3[i]) by {
                lemma_clause_filter_props(
                    cs2,
                    |c: Seq<Literal>| !crate::simplify::clause_has_pure(c, cs2),
                );
                assert(cs3.contains(cs3[i])) by { assert(cs3[i] == cs3[i]); }
                assert(cs2.contains(cs3[i]));
            }
            // Each step keeps every valuation model: propagation by the
            // forward lemma, the two removals by clause containment.
            assert forall|v: spec_fn(int) -> bool| #[trigger]
                val_sat_cnf(v, cs0) implies val_sat_cnf(v, cs3) by {
                lemma_up_forward(cs0, cs1, v);
                assert(val_sat_cnf(v, cs2)) by {
                    assert forall|i: int| 0 <= i < cs2.len() implies val_sat_clause(
                        v,
                        cs2[i],
                    ) by {
                        assert(cs2.contains(cs2[i])) by { assert(cs2[i] == cs2[i]); }
                        assert(cs1.contains(cs2[i]));
                        let q = choose|q: int| 0 <= q < cs1.len() && cs1[q] == cs2[i];
                        assert(val_sat_clause(v, cs1[q]));
                    }
                }
                assert forall|i: int| 0 <= i < cs3.len() implies val_sat_clause(v, cs3[i]) by {
                    lemma_clause_filter_props(
                        cs2,
                        |c: Seq<Literal>| !crate::simplify::clause_has_pure(c, cs2),
                    );
                    assert(cs3.contains(cs3[i])) by { assert(cs3[i] == cs3[i]); }
                    assert(cs2.contains(cs3[i]));
                    let q = choose|q: int| 0 <= q < cs2.len() && cs2[q] == cs3[i];
                    assert(val_sat_clause(v, cs2[q]));
                }
            }
            // Occurrence chain: lit_occurs only shrinks along the pass.
            assert(forall|x: Literal| lit_occurs(x, cs2) ==> lit_occurs(x, cs1));
            assert(forall|x: Literal| lit_occurs(x, cs3) ==> lit_occurs(x, cs2));
            // The forced literals occur in the input.
            assert forall|x: Literal| #[trigger] eval@.contains(x) implies lit_occurs(
                x,
                cs0,
            ) by {
                let k = choose|k: int| 0 <= k < eval@.len() && eval@[k] == x;
                if k < uv.len() {
                    assert(uv.contains(x)) by { assert(uv[k] == x); }
                } else {
                    assert(pv.contains(x)) by { assert(pv[k - uv.len()] == x); }
                    assert(lit_occurs(x, cs2));
                }
            }
            // Neither polarity of a forced variable survives the pass.
            assert forall|x: Literal| #[trigger] eval@.contains(x) implies !lit_occurs(
                x,
                cs3,
            ) && !lit_occurs(lit_neg(x), cs3) by {
                let k = choose|k: int| 0 <= k < eval@.len() && eval@[k] == x;
                if k < uv.len() {
                    assert(uv.contains(x)) by { assert(uv[k] == x); }
                    assert(!lit_occurs(x, cs1) && !lit_occurs(lit_neg(x), cs1));
                } else {
                    assert(pv.contains(x)) by { assert(pv[k - uv.len()] == x); }
                }
            }
            // The forced literals are free of complementary pairs: the
            // units have no conflict, a pure literal's negation never
            // occurs, and the two groups use disjoint variables.
            assert forall|x: Literal| #[trigger] eval@.contains(x) implies !eval@.contains(
                lit_neg(x),
            ) by {
                if eval@.contains(lit_neg(x)) {
                    let k1 = choose|k1: int| 0 <= k1 < eval@.len() && eval@[k1] == x;
                    let k2 = choose|k2: int| 0 <= k2 < eval@.len() && eval@[k2] == lit_neg(x);
                    if k1 < uv.len() && k2 < uv.len() {
                        assert(uv.contains(x)) by { assert(uv[k1] == x); }
                        assert(uv.contains(lit_neg(x))) by { assert(uv[k2] == lit_neg(x)); }
                        assert(uv.to_set().contains(x) && uv.to_set().contains(lit_neg(x)));
                        assert(up_conflict(cs0.to_set()));
                    } else if k1 < uv.len() {
                        assert(uv.contains(x)) by { assert(uv[k1] == x); }
                        assert(pv.contains(lit_neg(x))) by {
                            assert(pv[k2 - uv.len()] == lit_neg(x));
                        }
                        assert(!lit_occurs(lit_neg(x), cs1));
                        assert(lit_occurs(lit_neg(x), cs2));
                    } else if k2 < uv.len() {
                        assert(uv.contains(lit_neg(x))) by { assert(uv[k2] == lit_neg(x)); }
                        assert(pv.contains(x)) by { assert(pv[k1 - uv.len()] == x); }
                        assert(!lit_occurs(lit_neg(lit_neg(x)), cs1));
                        assert(lit_occurs(x, cs2));
                    } else {
                        assert(pv.contains(x)) by { assert(pv[k1 - uv.len()] == x); }
                        assert(pv.contains(lit_neg(x))) by {
                            assert(pv[k2 - uv.len()] == lit_neg(x));
                        }
                    }
                }
            }
        }
        Ok(eval)
    }

    /// The DPLL recursion. An `Ok` assignment satisfies every
    /// non-tautological clause of the input; an `Err` means the search
    /// was exhausted.
    pub fn solve_dpll(cnf: CNF) -> (r: Result<Vec<Literal>, Error>)
        requires
            cnf.wf(),
        ensures
            r is Ok ==> cnf_sat_by(non_taut(cnf@), r->Ok_0@),
            r is Ok ==> forall|x: Literal| #[trigger]
                r->Ok_0@.contains(x) ==> !r->Ok_0@.contains(lit_neg(x)),
            r is Ok ==> forall|x: Literal| #[trigger]
                r->Ok_0@.contains(x) ==> (lit_occurs(x, cnf@) || lit_occurs(lit_neg(x), cnf@)),
            r is Ok ==> exists|v: spec_fn(int) -> bool| val_sat_cnf(v, cnf@),
            r is Err ==> forall|v: spec_fn(int) -> bool| !val_sat_cnf(v, cnf@),
        decreases cnf_vars(cnf@).len(),
    {
        let ghost cnf0 = cnf@;
        let ghost vc0 = cnf.var_count as nat;
        let mut cnf = cnf;
        if cnf.has_empty_clause() {
            proof {
                let i = choose|i: int| 0 <= i < cnf0.len() && #[trigger] cnf0[i].len() == 0;
                assert forall|v: spec_fn(int) -> bool| !val_sat_cnf(v, cnf0) by {
                    if val_sat_cnf(v, cnf0) {
                        assert(val_sat_clause(v, cnf0[i]));
                        let k = choose|k: int|
                            0 <= k < cnf0[i].len() && val_sat_lit(v, cnf0[i][k]);
                    }
                }
            }
            return Err(Error::new("Unsatisfied"));
        }
        let mut eval_set: Vec<Literal> = Vec::new();
        let mut simplified = true;
        while simplified
            invariant
                cnf.wf(),
                forall|a: Seq<Literal>|
                    #![trigger cnf_sat_by(non_taut(cnf@), a)]
                    cnf_sat_by(non_taut(cnf@), a) && contains_all(a, eval_set@) ==> cnf_sat_by(
                        non_taut(cnf0),
                        a,
                    ),
                forall|x: Literal| lit_occurs(x, cnf@) ==> lit_occurs(x, cnf0),
                forall|v: spec_fn(int) -> bool| #[trigger]
                    val_sat_cnf(v, cnf0) ==> val_sat_cnf(v, cnf@),
                forall|x: Literal| #[trigger]
                    eval_set@.contains(x) ==> !eval_set@.contains(lit_neg(x)),
                forall|x: Literal| #[trigger] eval_set@.contains(x) ==> lit_occurs(x, cnf0),
                forall|x: Literal| #[trigger]
                    eval_set@.contains(x) ==> !lit_occurs(x, cnf@) && !lit_occurs(
                        lit_neg(x),
                        cnf@,
                    ),
                !simplified ==> forall|i: int|
                    0 <= i < cnf@.len() ==> !clause_taut(#[trigger] cnf@[i]),
                !simplified ==> cnf@.len() > 0,
                !simplified ==> forall|i: int|
                    0 <= i < cnf@.len() ==> (#[trigger] cnf@[i]).len() != 0,
            decreases cnf_size(cnf@) + (if simplified {
                1int
            } else {
                0int
            }),
        {
            let ghost pre = cnf@;
            let ghost pre_eval = eval_set@;
            let sub = match Self::simplify_cnf(&mut cnf) {
                Err(e) => {
                    proof {
                        assert(up_conflict(pre.to_set()));
                        assert forall|v: spec_fn(int) -> bool| !val_sat_cnf(v, cnf0) by {
                            if val_sat_cnf(v, cnf0) {
                                assert(val_sat_cnf(v, pre));
                                lemma_conflict_unsat(pre, v);
                            }
                        }
                    }
                    return Err(e)
                },
                Ok(s) => s,
            };
            let ghost subv = sub@;
            if sub.len() == 0 {
                simplified = false;
            }
            let mut sub2 = sub;
            eval_set.append(&mut sub2);
            proof {
                assert(eval_set@ == pre_eval + subv);
                assert forall|a: Seq<Literal>|
                    cnf_sat_by(non_taut(cnf@), a) && contains_all(a, eval_set@) implies cnf_sat_by(
                    non_taut(cnf0),
                    a,
                ) by {
                    assert(contains_all(a, subv)) by {
                        assert forall|k: int| 0 <= k < subv.len() implies a.contains(
                            #[trigger] subv[k],
                        ) by {
                            assert(eval_set@[pre_eval.len() + k] == subv[k]);
                            assert(a.contains(eval_set@[pre_eval.len() + k]));
                        }
                    }
                    assert(contains_all(a, pre_eval)) by {
                        assert forall|k: int| 0 <= k < pre_eval.len() implies a.contains(
                            #[trigger] pre_eval[k],
                        ) by {
                            assert(eval_set@[k] == pre_eval[k]);
                            assert(a.contains(eval_set@[k]));
                        }
                    }
                    assert(cnf_sat_by(non_taut(pre), a));
                }
                // Membership in the grown forced list decomposes.
                assert forall|x: Literal| #[trigger]
                    eval_set@.contains(x) implies (pre_eval.contains(x) || subv.contains(x)) by {
                    let k = choose|k: int| 0 <= k < eval_set@.len() && eval_set@[k] == x;
                    if k < pre_eval.len() {
                        assert(pre_eval[k] == x);
                    } else {
                        assert(subv[k - pre_eval.len()] == x);
                    }
                }
                // Every valuation model of the input survives the pass.
                assert forall|v: spec_fn(int) -> bool| #[trigger]
                    val_sat_cnf(v, cnf0) implies val_sat_cnf(v, cnf@) by {
                    assert(val_sat_cnf(v, pre));
                }
                // The forced literals stay pairwise consistent: the two
                // groups use disjoint variables.
                assert forall|x: Literal| #[trigger] eval_set@.contains(x) implies !eval_set@.contains(
                    lit_neg(x),
                ) by {
                    if eval_set@.contains(lit_neg(x)) {
                        assert(lit_neg(lit_neg(x)) == x);
                        if pre_eval.contains(x) && subv.contains(lit_neg(x)) {
                            assert(lit_occurs(lit_neg(x), pre));
                        }
                        if subv.contains(x) && pre_eval.contains(lit_neg(x)) {
                            assert(lit_occurs(x, pre));
                        }
                    }
                }
                assert forall|x: Literal| #[trigger] eval_set@.contains(x) implies lit_occurs(
                    x,
                    cnf0,
                ) by {
                    if subv.contains(x) {
                        assert(lit_occurs(x, pre));
                    }
                }
                assert forall|x: Literal| #[trigger] eval_set@.contains(x) implies !lit_occurs(
                    x,
                    cnf@,
                ) && !lit_occurs(lit_neg(x), cnf@) by {
                    if pre_eval.contains(x) {
                        if lit_occurs(x, cnf@) {
                            assert(lit_occurs(x, pre));
                        }
                        if lit_occurs(lit_neg(x), cnf@) {
                            assert(lit_occurs(lit_neg(x), pre));
                        }
                    }
                }
            }
            if cnf.clauses.len() == 0 {
                proof {
                    assert(cnf@.len() == 0);
                    assert(cnf_sat_by(non_taut(cnf@), eval_set@)) by {
                        lemma_clause_filter_props(cnf@, |c: Seq<Literal>| !clause_taut(c));
                    }
                    assert(contains_all(eval_set@, eval_set@)) by {
                        assert forall|k: int| 0 <= k < eval_set@.len() implies eval_set@.contains(
                            #[trigger] eval_set@[k],
                        ) by {
                            assert(eval_set@[k] == eval_set@[k]);
                        }
                    }
                    assert(cnf_sat_by(non_taut(cnf0), eval_set@));
                    lemma_model_induces_valuation(cnf0, eval_set@);
                }
                return Ok(eval_set);
            }
            if cnf.has_empty_clause() {
                proof {
                    let i = choose|i: int| 0 <= i < cnf@.len() && #[trigger] cnf@[i].len() == 0;
                    assert forall|v: spec_fn(int) -> bool| !val_sat_cnf(v, cnf0) by {
                        if val_sat_cnf(v, cnf0) {
                            assert(val_sat_cnf(v, cnf@));
                            assert(val_sat_clause(v, cnf@[i]));
                            let k = choose|k: int|
                                0 <= k < cnf@[i].len() && val_sat_lit(v, cnf@[i][k]);
                        }
                    }
                }
                return Err(Error::new("Unsatisfied"));
            }
        }
        // Branch on a literal of some clause.
        let ghost curb = cnf@;
        let l = match cnf.get_any_literal() {
            Some(x) => x,
            None => {
                // Unreachable: the loop left a non-empty CNF without an
                // empty clause.
                proof {
                    assert(exists|i: int| 0 <= i < cnf@.len() && #[trigger] cnf@[i].len() > 0) by {
                        assert(cnf@[0].len() != 0);
                    }
                    assert(false);
                }
                return Err(Error::new("Unsatisfied"))
            },
        };
        let ghost lv = l.var as int;
        proof {
            // The branching variable occurs in the current CNF.
            let i = choose|i: int| 0 <= i < curb.len() && #[trigger] curb[i].len() > 0 && l
                == curb[i][0];
            assert(lit_occurs(l, curb)) by { assert(curb[i][0] == l); }
            assert(cnf_vars(curb).contains(lv));
        }
        let (pos, negs) = SATSolver::evaluate_on_literal(&cnf, l);
        cnf.remove_clauses_with_literal(l);
        let ghost removed = cnf@;
        // Branch: l false. The clauses that needed l survive as their
        // residuals.
        let c1 = Self::branch_cnf(&cnf, &pos);
        let ghost c1v = c1@;
        proof {
            Self::lemma_branch_vars(cnf0, curb, removed, clauses_view(pos@), c1v, l, vc0);
        }
        match Self::solve_dpll(c1) {
            Ok(a1) => {
                let mut res = copy_clause(&eval_set);
                let mut a1m = a1;
                let ghost a1v = a1m@;
                res.append(&mut a1m);
                res.push(l.neg());
                proof {
                    assert(res@ =~= eval_set@ + a1v + seq![lit_neg(l)]);
                    assert forall|c: Seq<Literal>| #[trigger]
                        curb.contains(c) && c.contains(l) && !c.contains(lit_neg(l))
                        implies clauses_view(pos@).contains(c.filter(|x: Literal| x != l)) by {
                        assert(exists|cc: Seq<Literal>| #[trigger]
                            curb.contains(cc) && cc.contains(l) && c.filter(|x: Literal| x != l)
                                == cc.filter(|x: Literal| x != l));
                    }
                    Self::lemma_branch_sound(
                        cnf0,
                        curb,
                        removed,
                        clauses_view(pos@),
                        c1v,
                        l,
                        lit_neg(l),
                        eval_set@,
                        a1v,
                        res@,
                    );
                    // The result decomposes into the forced literals, the
                    // branch model, and the branch literal; the three use
                    // disjoint variables, so consistency carries over.
                    assert forall|x: Literal| #[trigger]
                        res@.contains(x) implies (eval_set@.contains(x) || a1v.contains(x) || x
                        == lit_neg(l)) by {
                        let k = choose|k: int| 0 <= k < res@.len() && res@[k] == x;
                        if k < eval_set@.len() {
                            assert(eval_set@[k] == x);
                        } else if k < eval_set@.len() + a1v.len() {
                            assert(a1v[k - eval_set@.len()] == x);
                        }
                    }
                    assert forall|x: Literal| #[trigger] res@.contains(x) implies !res@.contains(
                        lit_neg(x),
                    ) by {
                        if res@.contains(lit_neg(x)) {
                            let y = lit_neg(x);
                            assert(lit_neg(y) == x);
                            if eval_set@.contains(x) {
                                if a1v.contains(y) {
                                    if lit_occurs(y, c1v) {
                                        assert(lit_occurs(y, curb));
                                    } else {
                                        assert(lit_occurs(lit_neg(y), c1v));
                                        assert(lit_occurs(x, curb));
                                    }
                                }
                                if y == lit_neg(l) {
                                    assert(x == l);
                                }
                            } else if a1v.contains(x) {
                                if eval_set@.contains(y) {
                                    if lit_occurs(x, c1v) {
                                        assert(lit_occurs(x, curb));
                                    } else {
                                        assert(lit_occurs(lit_neg(x), c1v));
                                        assert(lit_occurs(y, curb));
                                    }
                                } else if a1v.contains(y) {
                                    assert(!a1v.contains(lit_neg(x)));
                                } else {
                                    assert(y == lit_neg(l));
                                    assert(x == l);
                                    if lit_occurs(x, c1v) {
                                        assert(x.var != l.var);
                                    } else {
                                        assert(lit_occurs(lit_neg(x), c1v));
                                        assert(lit_neg(x).var != l.var);
                                    }
                                }
                            } else {
                                assert(x == lit_neg(l));
                                if eval_set@.contains(y) {
                                    assert(y == l);
                                } else if a1v.contains(y) {
                                    assert(y == l);
                                    if lit_occurs(y, c1v) {
                                        assert(y.var != l.var);
                                    } else {
                                        assert(lit_occurs(lit_neg(y), c1v));
                                        assert(lit_neg(y).var != l.var);
                                    }
                                } else {
                                    assert(y == lit_neg(l));
                                    assert(false);
                                }
                            }
                        }
                    }
                    assert forall|x: Literal| #[trigger]
                        res@.contains(x) implies (lit_occurs(x, cnf0) || lit_occurs(
                        lit_neg(x),
                        cnf0,
                    )) by {
                        if eval_set@.contains(x) {
                        } else if a1v.contains(x) {
                            if lit_occurs(x, c1v) {
                                assert(lit_occurs(x, curb));
                            } else {
                                assert(lit_occurs(lit_neg(x), c1v));
                                assert(lit_occurs(lit_neg(x), curb));
                            }
                        } else {
                            assert(x == lit_neg(l));
                            assert(lit_neg(x) == l);
                        }
                    }
                    lemma_model_induces_valuation(cnf0, res@);
                }
                return Ok(res);
            },
            Err(_) => {
                proof {
                    assert(forall|v: spec_fn(int) -> bool| !val_sat_cnf(v, c1v));
                }
            },
        }
        // Branch: l true. The clauses that needed the negation survive
        // as their residuals.
        let c2 = Self::branch_cnf(&cnf, &negs);
        let ghost c2v = c2@;
        proof {
            assert forall|c2: Seq<Literal>| #[trigger]
                clauses_view(negs@).contains(c2) implies exists|c: Seq<Literal>| #[trigger]
                curb.contains(c) && c.contains(lit_neg(l)) && c2 == c.filter(
                |x: Literal| x != lit_neg(l),
            ) by {
                let c = choose|c: Seq<Literal>| #[trigger]
                    curb.contains(c) && c.contains(lit_neg(l)) && !c.contains(l) && c2 == c.filter(
                        |x: Literal| x != lit_neg(l),
                    );
                assert(curb.contains(c) && c.contains(lit_neg(l)) && c2 == c.filter(
                    |x: Literal| x != lit_neg(l),
                ));
            }
            assert(cnf_vars(curb).contains(lit_neg(l).var as int));
            Self::lemma_branch_vars(cnf0, curb, removed, clauses_view(negs@), c2v, lit_neg(l), vc0);
        }
        match Self::solve_dpll(c2) {
            Ok(a2) => {
                let mut res = copy_clause(&eval_set);
                let mut a2m = a2;
                let ghost a2v = a2m@;
                res.append(&mut a2m);
                res.push(l);
                proof {
                    assert(res@ =~= eval_set@ + a2v + seq![l]);
                    assert(lit_neg(lit_neg(l)) == l);
                    assert forall|c: Seq<Literal>| #[trigger]
                        curb.contains(c) && c.contains(lit_neg(l)) && !c.contains(l)
                        implies clauses_view(negs@).contains(
                        c.filter(|x: Literal| x != lit_neg(l)),
                    ) by {
                        assert(exists|cc: Seq<Literal>| #[trigger]
                            curb.contains(cc) && cc.contains(lit_neg(l)) && !cc.contains(l)
                                && c.filter(|x: Literal| x != lit_neg(l)) == cc.filter(
                                |x: Literal| x != lit_neg(l),
                            ));
                    }
                    assert forall|c: Seq<Literal>| #[trigger]
                        removed.contains(c) implies (curb.contains(c) && !c.contains(lit_neg(l))
                        && !c.contains(lit_neg(lit_neg(l)))) by {}
                    Self::lemma_branch_sound(
                        cnf0,
                        curb,
                        removed,
                        clauses_view(negs@),
                        c2v,
                        lit_neg(l),
                        l,
                        eval_set@,
                        a2v,
                        res@,
                    );
                    assert forall|x: Literal| #[trigger]
                        res@.contains(x) implies (eval_set@.contains(x) || a2v.contains(x) || x
                        == l) by {
                        let k = choose|k: int| 0 <= k < res@.len() && res@[k] == x;
                        if k < eval_set@.len() {
                            assert(eval_set@[k] == x);
                        } else if k < eval_set@.len() + a2v.len() {
                            assert(a2v[k - eval_set@.len()] == x);
                        }
                    }
                    assert forall|x: Literal| #[trigger] res@.contains(x) implies !res@.contains(
                        lit_neg(x),
                    ) by {
                        if res@.contains(lit_neg(x)) {
                            let y = lit_neg(x);
                            assert(lit_neg(y) == x);
                            if eval_set@.contains(x) {
                                if a2v.contains(y) {
                                    if lit_occurs(y, c2v) {
                                        assert(lit_occurs(y, curb));
                                    } else {
                                        assert(lit_occurs(lit_neg(y), c2v));
                                        assert(lit_occurs(x, curb));
                                    }
                                }
                                if y == l {
                                    assert(x == lit_neg(l));
                                    assert(lit_occurs(lit_neg(x), curb));
                                }
                            } else if a2v.contains(x) {
                                if eval_set@.contains(y) {
                                    if lit_occurs(x, c2v) {
                                        assert(lit_occurs(x, curb));
                                    } else {
                                        assert(lit_occurs(lit_neg(x), c2v));
                                        assert(lit_occurs(y, curb));
                                    }
                                } else if a2v.contains(y) {
                                    assert(!a2v.contains(lit_neg(x)));
                                } else {
                                    assert(y == l);
                                    assert(x == lit_neg(l));
                                    if lit_occurs(x, c2v) {
                                        assert(x.var != lit_neg(l).var);
                                    } else {
                                        assert(lit_occurs(lit_neg(x), c2v));
                                        assert(lit_neg(x).var != lit_neg(l).var);
                                    }
                                }
                            } else {
                                assert(x == l);
                                if eval_set@.contains(y) {
                                    assert(y == lit_neg(l));
                                    assert(lit_occurs(lit_neg(y), curb));
                                } else if a2v.contains(y) {
                                    assert(y == lit_neg(l));
                                    if lit_occurs(y, c2v) {
                                        assert(y.var != lit_neg(l).var);
                                    } else {
                                        assert(lit_occurs(lit_neg(y), c2v));
                                        assert(lit_neg(y).var != lit_neg(l).var);
                                    }
                                } else {
                                    assert(y == l);
                                    assert(false);
                                }
                            }
                        }
                    }
                    assert forall|x: Literal| #[trigger]
                        res@.contains(x) implies (lit_occurs(x, cnf0) || lit_occurs(
                        lit_neg(x),
                        cnf0,
                    )) by {
                        if eval_set@.contains(x) {
                        } else if a2v.contains(x) {
                            if lit_occurs(x, c2v) {
                                assert(lit_occurs(x, curb));
                            } else {
                                assert(lit_occurs(lit_neg(x), c2v));
                                assert(lit_occurs(lit_neg(x), curb));
                            }
                        } else {
                            assert(x == l);
                        }
                    }
                    lemma_model_induces_valuation(cnf0, res@);
                }
                return Ok(res);
            },
            Err(_) => {
                proof {
                    assert(forall|v: spec_fn(int) -> bool| !val_sat_cnf(v, c2v));
                }
            },
        }
        // Both branches were exhausted: no valuation satisfies the input.
        proof {
            assert forall|v: spec_fn(int) -> bool| !val_sat_cnf(v, cnf0) by {
                if val_sat_cnf(v, cnf0) {
                    assert(val_sat_cnf(v, curb));
                    lemma_branch_complete(
                        curb,
                        removed,
                        clauses_view(pos@),
                        clauses_view(negs@),
                        c1v,
                        c2v,
                        l,
                        v,
                    );
                    assert(!val_sat_cnf(v, c1v));
                    assert(!val_sat_cnf(v, c2v));
                }
            }
        }
        Err(Error::new("Unsatisfied"))
    }

    /// Branching eliminates the pivot's variable: the branch CNF uses
    /// strictly fewer variables than the original.
    proof fn lemma_branch_vars(
        cnf0: Seq<Seq<Literal>>,
        curb: Seq<Seq<Literal>>,
        removed: Seq<Seq<Literal>>,
        resview: Seq<Seq<Literal>>,
        c1v: Seq<Seq<Literal>>,
        piv: Literal,
        bound: nat,
    )
        requires
            forall|i: int| 0 <= i < cnf0.len() ==> clause_vars_le(#[trigger] cnf0[i], bound),
            forall|x: Literal| lit_occurs(x, curb) ==> lit_occurs(x, cnf0),
            forall|i: int| 0 <= i < curb.len() ==> !clause_taut(#[trigger] curb[i]),
            cnf_vars(curb).contains(piv.var as int),
            forall|c: Seq<Literal>|
                #![trigger removed.contains(c)]
                removed.contains(c) ==> (curb.contains(c) && !c.contains(piv) && !c.contains(
                    lit_neg(piv),
                )),
            forall|c2: Seq<Literal>|
                #![trigger resview.contains(c2)]
                resview.contains(c2) ==> exists|c: Seq<Literal>|
                    #[trigger] curb.contains(c) && c.contains(piv) && c2 == c.filter(
                        |x: Literal| x != piv,
                    ),
            forall|k: int| 0 <= k < resview.len() ==> sorted_strict(#[trigger] resview[k]),
            forall|c: Seq<Literal>|
                #![trigger c1v.contains(c)]
                c1v.contains(c) ==> (removed.contains(c) || exists|k: int|
                    0 <= k < resview.len() && norm_clause(#[trigger] resview[k]) == c),
        ensures
            cnf_vars(c1v).len() < cnf_vars(cnf0).len(),
            forall|z: Literal|
                #![trigger lit_occurs(z, c1v)]
                lit_occurs(z, c1v) ==> lit_occurs(z, curb) && z.var != piv.var,
    {
        let v_all = cnf_vars(cnf0);
        lemma_cnf_vars_finite(cnf0, bound);
        let lv = piv.var as int;
        assert(v_all.contains(lv)) by {
            let x = choose|x: Literal| lit_occurs(x, curb) && x.var == lv;
            assert(lit_occurs(x, cnf0));
        }
        assert forall|x: Literal| #[trigger] lit_occurs(x, c1v) implies lit_occurs(x, curb)
            && x.var != piv.var by {
            let (i, k) = choose|i: int, k: int|
                0 <= i < c1v.len() && 0 <= k < c1v[i].len() && c1v[i][k] == x;
            let c = c1v[i];
            assert(c1v.contains(c)) by { assert(c1v[i] == c); }
            assert(c.contains(x)) by { assert(c[k] == x); }
            if removed.contains(c) {
                assert(curb.contains(c) && !c.contains(piv) && !c.contains(lit_neg(piv)));
                let m = choose|m: int| 0 <= m < curb.len() && curb[m] == c;
                assert(lit_occurs(x, curb)) by { assert(curb[m][k] == x); }
                if x.var == piv.var {
                    if x.sign == piv.sign {
                        assert(x == piv);
                    } else {
                        assert(x == lit_neg(piv));
                    }
                    assert(false);
                }
            } else {
                let m = choose|m: int| 0 <= m < resview.len() && norm_clause(resview[m]) == c;
                lemma_norm_sorted_id(resview[m]);
                assert(resview.contains(c)) by { assert(resview[m] == c); }
                let cc = choose|cc: Seq<Literal>|
                    #[trigger] curb.contains(cc) && cc.contains(piv) && c == cc.filter(
                        |y: Literal| y != piv,
                    );
                lemma_filter_props(cc, |y: Literal| y != piv);
                assert(cc.contains(x) && x != piv);
                let n = choose|n: int| 0 <= n < cc.len() && cc[n] == x;
                let q = choose|q: int| 0 <= q < curb.len() && curb[q] == cc;
                assert(lit_occurs(x, curb)) by { assert(curb[q][n] == x); }
                if x.var == piv.var {
                    assert(x == lit_neg(piv));
                    // The source clause would be tautological.
                    let np = choose|np: int| 0 <= np < cc.len() && cc[np] == piv;
                    assert(clause_taut(cc)) by { assert(cc[n] == lit_neg(cc[np])); }
                    assert(false);
                }
            }
        }
        assert(cnf_vars(c1v).subset_of(v_all.remove(lv))) by {
            assert forall|v: int| cnf_vars(c1v).contains(v) implies v_all.remove(lv).contains(
                v,
            ) by {
                let x = choose|x: Literal| lit_occurs(x, c1v) && x.var == v;
                assert(lit_occurs(x, curb) && x.var != piv.var);
                assert(lit_occurs(x, cnf0));
                assert(cnf_vars(cnf0).contains(v));
            }
        }
        lemma_len_subset(cnf_vars(c1v), v_all.remove(lv));
    }

    /// Soundness of one branch: the forced literals, the recursive
    /// model, and the branch literal together satisfy the CNF the
    /// branch started from, tautologies aside.
    proof fn lemma_branch_sound(
        cnf0: Seq<Seq<Literal>>,
        curb: Seq<Seq<Literal>>,
        removed: Seq<Seq<Literal>>,
        resview: Seq<Seq<Literal>>,
        c1v: Seq<Seq<Literal>>,
        piv: Literal,
        pushed: Literal,
        eval: Seq<Literal>,
        a1: Seq<Literal>,
        res: Seq<Literal>,
    )
        requires
            pushed == lit_neg(piv),
            forall|a: Seq<Literal>|
                #![trigger cnf_sat_by(non_taut(curb), a)]
                cnf_sat_by(non_taut(curb), a) && contains_all(a, eval) ==> cnf_sat_by(
                    non_taut(cnf0),
                    a,
                ),
            forall|i: int| 0 <= i < curb.len() ==> !clause_taut(#[trigger] curb[i]),
            forall|c: Seq<Literal>|
                #![trigger removed.contains(c)]
                removed.contains(c) <==> (curb.contains(c) && !c.contains(piv) && !c.contains(
                    lit_neg(piv),
                )),
            forall|c: Seq<Literal>|
                #![trigger curb.contains(c)]
                curb.contains(c) && c.contains(piv) && !c.contains(pushed) ==> resview.contains(
                    c.filter(|x: Literal| x != piv),
                ),
            forall|k: int| 0 <= k < resview.len() ==> sorted_strict(#[trigger] resview[k]),
            forall|c: Seq<Literal>|
                #![trigger c1v.contains(c)]
                c1v.contains(c) <==> (removed.contains(c) || exists|k: int|
                    0 <= k < resview.len() && norm_clause(#[trigger] resview[k]) == c),
            cnf_sat_by(non_taut(c1v), a1),
            res == eval + a1 + seq![pushed],
        ensures
            cnf_sat_by(non_taut(cnf0), res),
    {
        lemma_clause_filter_props(curb, |c: Seq<Literal>| !clause_taut(c));
        lemma_clause_filter_props(c1v, |c: Seq<Literal>| !clause_taut(c));
        assert(res.contains(pushed)) by {
            assert(res[eval.len() + a1.len() as int] == pushed);
        }
        assert(contains_all(res, eval)) by {
            assert forall|k: int| 0 <= k < eval.len() implies res.contains(#[trigger] eval[k]) by {
                assert(res[k] == eval[k]);
            }
        }
        assert(contains_all(res, a1)) by {
            assert forall|k: int| 0 <= k < a1.len() implies res.contains(#[trigger] a1[k]) by {
                assert(res[eval.len() + k] == a1[k]);
            }
        }
        assert(cnf_sat_by(non_taut(curb), res)) by {
            let nt = non_taut(curb);
            assert forall|i: int| 0 <= i < nt.len() implies clause_sat_by(res, nt[i]) by {
                let c = nt[i];
                assert(nt.contains(c)) by { assert(nt[i] == c); }
                assert(curb.contains(c) && !clause_taut(c));
                if c.contains(pushed) {
                    let n = choose|n: int| 0 <= n < c.len() && c[n] == pushed;
                    assert(clause_sat_by(res, c)) by { assert(res.contains(c[n])); }
                } else if c.contains(piv) {
                    let rc = c.filter(|x: Literal| x != piv);
                    assert(resview.contains(rc));
                    let k = choose|k: int| 0 <= k < resview.len() && resview[k] == rc;
                    lemma_norm_sorted_id(resview[k]);
                    assert(c1v.contains(rc)) by {
                        assert(norm_clause(resview[k]) == rc);
                    }
                    lemma_filter_props(c, |x: Literal| x != piv);
                    lemma_subclause_non_taut(rc, c);
                    assert(non_taut(c1v).contains(rc));
                    let m = choose|m: int|
                        0 <= m < non_taut(c1v).len() && non_taut(c1v)[m] == rc;
                    assert(clause_sat_by(a1, rc));
                    let k2 = choose|k2: int| 0 <= k2 < rc.len() && a1.contains(rc[k2]);
                    assert(c.contains(rc[k2])) by { assert(rc.contains(rc[k2])); }
                    let n = choose|n: int| 0 <= n < c.len() && c[n] == rc[k2];
                    let q = choose|q: int| 0 <= q < a1.len() && a1[q] == rc[k2];
                    assert(clause_sat_by(res, c)) by { assert(res.contains(c[n])); }
                } else {
                    assert(removed.contains(c));
                    assert(c1v.contains(c));
                    assert(non_taut(c1v).contains(c));
                    let m = choose|m: int| 0 <= m < non_taut(c1v).len() && non_taut(c1v)[m] == c;
                    assert(clause_sat_by(a1, c));
                    let k2 = choose|k2: int| 0 <= k2 < c.len() && a1.contains(c[k2]);
                    let q = choose|q: int| 0 <= q < a1.len() && a1[q] == c[k2];
                    assert(clause_sat_by(res, c)) by { assert(res.contains(c[k2])); }
                }
            }
        }
    }

    /// Soundness of the solvers, stated plainly: on a CNF without
    /// tautological clauses, an assignment that satisfies the
    /// non-tautological part satisfies every clause, so a model returned
    /// by `solve` makes `eval` true on the input.
    pub proof fn lemma_solve_sound(cs: Seq<Seq<Literal>>, a: Seq<Literal>)
        requires
            forall|i: int| 0 <= i < cs.len() ==> !clause_taut(#[trigger] cs[i]),
            cnf_sat_by(non_taut(cs), a),
        ensures
            cnf_sat_by(cs, a),
    {
        lemma_clause_filter_all(cs, |c: Seq<Literal>| !clause_taut(c));
    }

    /// The CNF for one branch: the untouched clauses plus the residuals.
    fn branch_cnf(cnf: &CNF, residuals: &Vec<Vec<Literal>>) -> (r: CNF)
        requires
            cnf.wf(),
        ensures
            r.wf(),
            forall|c: Seq<Literal>|
                #![trigger r@.contains(c)]
                r@.contains(c) <==> (cnf@.contains(c) || exists|k: int|
                    0 <= k < clauses_view(residuals@).len() && norm_clause(
                        #[trigger] clauses_view(residuals@)[k],
                    ) == c),
    {
        let mut r = cnf.clone();
        r.add_clauses(residuals);
        proof {
            assert(forall|k: int|
                0 <= k < residuals@.len() ==> #[trigger] clauses_view(residuals@)[k]
                    == residuals@[k]@);
            assert forall|c: Seq<Literal>| #[trigger]
                r@.contains(c) implies (cnf@.contains(c) || exists|k: int|
                0 <= k < clauses_view(residuals@).len() && norm_clause(
                    #[trigger] clauses_view(residuals@)[k],
                ) == c) by {
                if !cnf@.contains(c) {
                    let k = choose|k: int|
                        0 <= k < residuals@.len() && norm_clause(#[trigger] residuals@[k]@) == c;
                    assert(norm_clause(clauses_view(residuals@)[k]) == c);
                }
            }
            assert forall|c: Seq<Literal>|
                (cnf@.contains(c) || exists|k: int|
                    0 <= k < clauses_view(residuals@).len() && norm_clause(
                        #[trigger] clauses_view(residuals@)[k],
                    ) == c) implies #[trigger] r@.contains(c) by {
                if !cnf@.contains(c) {
                    let k = choose|k: int|
                        0 <= k < clauses_view(residuals@).len() && norm_clause(
                            #[trigger] clauses_view(residuals@)[k],
                        ) == c;
                    assert(norm_clause(residuals@[k]@) == c);
                }
            }
        }
        r
    }
}


impl SATSolver {
    /// The DPLL search, packaged as in the by-value kernel interface: on
    /// success the returned CNF holds the model as unit clauses; on
    /// failure the input comes back unchanged.
    pub fn solve_dpll(cnf: CNF) -> (r: (bool, CNF))
        requires
            cnf.wf(),
        ensures
            r.1.wf(),
            r.0 ==> forall|i: int| 0 <= i < r.1@.len() ==> (#[trigger] r.1@[i]).len() == 1,
            r.0 ==> exists|a: Seq<Literal>|
                cnf_sat_by(non_taut(cnf@), a) && (forall|x: Literal|
                    #[trigger] a.contains(x) ==> !a.contains(lit_neg(x))) && (forall|x: Literal|
                    #[trigger] a.contains(x) <==> r.1@.contains(seq![x])),
            r.0 ==> exists|v: spec_fn(int) -> bool| val_sat_cnf(v, cnf@),
            !r.0 ==> r.1@ == cnf@,
            !r.0 ==> forall|v: spec_fn(int) -> bool| !val_sat_cnf(v, cnf@),
    {
        let c0 = cnf.clone();
        match DPLL::solve_dpll(cnf) {
            Ok(assignment) => {
                let av = assignment;
                let ghost aseq = av@;
                let mut res = CNF::new();
                let mut i: usize = 0;
                while i < av.len()
                    invariant
                        0 <= i <= aseq.len(),
                        aseq == av@,
                        res.wf(),
                        forall|c: Seq<Literal>|
                            #![trigger res@.contains(c)]
                            res@.contains(c) <==> exists|k: int| 0 <= k < i && c == seq![aseq[k]],
                        forall|m: int| 0 <= m < res@.len() ==> (#[trigger] res@[m]).len() == 1,
                    decreases aseq.len() - i,
                {
                    let mut unit: Vec<Literal> = Vec::new();
                    unit.push(av[i]);
                    proof {
                        assert(unit@ =~= seq![aseq[i as int]]);
                        assert(sorted_strict(unit@));
                        lemma_norm_sorted_id(unit@);
                    }
                    let ghost pre = res@;
                    res.add_clause(unit);
                    proof {
                        assert forall|c: Seq<Literal>| #[trigger]
                            res@.contains(c) implies exists|k: int|
                            0 <= k < i + 1 && c == seq![aseq[k]] by {
                            assert(res@.to_set().contains(c)) by { assert(res@.contains(c)); }
                            if c == seq![aseq[i as int]] {
                                assert(0 <= i < i + 1 && c == seq![aseq[i as int]]);
                            } else {
                                assert(pre.to_set().contains(c));
                                assert(pre.contains(c));
                            }
                        }
                        assert forall|c: Seq<Literal>|
                            (exists|k: int| 0 <= k < i + 1 && c == seq![aseq[k]])
                            implies #[trigger] res@.contains(c) by {
                            let k = choose|k: int| 0 <= k < i + 1 && c == seq![aseq[k]];
                            if k < i {
                                assert(pre.contains(c));
                                assert(pre.to_set().contains(c));
                                assert(res@.to_set().contains(c));
                                assert(res@.contains(c));
                            } else {
                                assert(res@.to_set().contains(c));
                                assert(res@.contains(c));
                            }
                        }
                        assert forall|m: int| 0 <= m < res@.len() implies (
                        #[trigger] res@[m]).len() == 1 by {
                            assert(res@.contains(res@[m])) by { assert(res@[m] == res@[m]); }
                            let k = choose|k: int| 0 <= k < i + 1 && res@[m] == seq![aseq[k]];
                        }
                    }
                    i += 1;
                }
                proof {
                    assert forall|x: Literal| #[trigger] aseq.contains(x) implies res@.contains(
                        seq![x],
                    ) by {
                        let k = choose|k: int| 0 <= k < aseq.len() && aseq[k] == x;
                    }
                    assert forall|x: Literal| res@.contains(seq![x]) implies #[trigger]
                        aseq.contains(x) by {
                        let k = choose|k: int| 0 <= k < aseq.len() && seq![x] == seq![aseq[k]];
                        assert(seq![x][0] == seq![aseq[k]][0]);
                        assert(aseq[k] == x);
                    }
                }
                (true, res)
            },
            Err(_) => (false, c0),
        }
    }

    /// The by-value facade over the DPLL search: the model CNF on
    /// success, nothing on failure.
    pub fn solve(cnf: CNF) -> (r: Option<CNF>)
        requires
            cnf.wf(),
        ensures
            r is Some ==> r->0.wf() && (forall|i: int|
                0 <= i < r->0@.len() ==> (#[trigger] r->0@[i]).len() == 1) && exists|a: Seq<Literal>|
                cnf_sat_by(non_taut(cnf@), a) && (forall|x: Literal|
                    #[trigger] a.contains(x) ==> !a.contains(lit_neg(x))) && (forall|x: Literal|
                    #[trigger] a.contains(x) <==> r->0@.contains(seq![x])),
            r is Some ==> exists|v: spec_fn(int) -> bool| val_sat_cnf(v, cnf@),
            r is None ==> forall|v: spec_fn(int) -> bool| !val_sat_cnf(v, cnf@),
    {
        let (sat, model) = Self::solve_dpll(cnf);
        if sat {
            Some(model)
        } else {
            None
        }
    }
}

} // verus!
