//! The simplification kernel: unit propagation, tautology normalization,
//! pure-literal elimination and binary resolution, acting in place on a
//! CNF and returning the literals they force true.

use vstd::prelude::*;

use crate::cnf::clause_contains;
use crate::cnf::clause_hit;
use crate::cnf::clause_taut;
use crate::cnf::clause_vars_le;
use crate::cnf::clauses_view;
use crate::cnf::cnf_size;
use crate::cnf::contains_clause;
use crate::cnf::copy_clause;
use crate::cnf::lit_lt;
use crate::cnf::lit_neg;
use crate::cnf::lit_occurs;
use crate::cnf::norm_clause;
use crate::cnf::sorted_strict;
use crate::cnf::Literal;
use crate::cnf::CNF;
use crate::solver::Error;

verus! {

/// The literals that occur as singleton clauses.
pub open spec fn unit_lits(cs: Set<Seq<Literal>>) -> Set<Literal> {
    Set::new(|l: Literal| cs.contains(seq![l]))
}

/// Two contradicting singleton clauses are present: unit propagation
/// fails on such a CNF.
pub open spec fn up_conflict(cs: Set<Seq<Literal>>) -> bool {
    exists|l: Literal|
        unit_lits(cs).contains(l) && unit_lits(cs).contains(lit_neg(l))
}

/// The clause contains a literal that the unit set forces true.
pub open spec fn up_hit(c: Seq<Literal>, u: Set<Literal>) -> bool {
    exists|k: int| 0 <= k < c.len() && u.contains(c[k])
}

/// The clause with every literal removed whose negation the unit set
/// forces true.
pub open spec fn up_reduce(c: Seq<Literal>, u: Set<Literal>) -> Seq<Literal> {
    c.filter(|x: Literal| !u.contains(lit_neg(x)))
}

/// The clauses left over by the first `n` clauses after one round of unit
/// propagation with unit set `u`: non-unit clauses not hit by `u`, each
/// reduced by `u`.
pub open spec fn up_result_upto(cs: Seq<Seq<Literal>>, u: Set<Literal>, n: int) -> Set<
    Seq<Literal>,
> {
    Set::new(
        |c2: Seq<Literal>|
            exists|k: int|
                0 <= k < n && cs[k].len() != 1 && !up_hit(cs[k], u) && c2 == up_reduce(cs[k], u),
    )
}

/// The clause set after one round of unit propagation: every non-unit
/// clause not already satisfied by a unit literal, reduced by the units.
pub open spec fn up_result(cs: Set<Seq<Literal>>) -> Set<Seq<Literal>> {
    Set::new(
        |c2: Seq<Literal>|
            exists|c: Seq<Literal>|
                cs.contains(c) && c.len() != 1 && !up_hit(c, unit_lits(cs)) && c2 == up_reduce(
                    c,
                    unit_lits(cs),
                ),
    )
}

/// Filtering a clause keeps exactly the matching literals and preserves
/// sortedness.
pub proof fn lemma_filter_props(s: Seq<Literal>, pred: spec_fn(Literal) -> bool)
    ensures
        forall|y: Literal| #[trigger] s.filter(pred).contains(y) <==> (s.contains(y) && pred(y)),
        sorted_strict(s) ==> sorted_strict(s.filter(pred)),
        s.filter(pred).len() <= s.len(),
    decreases s.len(),
{
    reveal(Seq::filter);
    let f = s.filter(pred);
    if s.len() == 0 {
        assert forall|y: Literal| #[trigger] f.contains(y) implies (s.contains(y) && pred(y)) by {
            let k = choose|k: int| 0 <= k < f.len() && f[k] == y;
        }
    } else {
        let d = s.drop_last();
        lemma_filter_props(d, pred);
        let fd = d.filter(pred);
        if sorted_strict(s) {
            assert(sorted_strict(d)) by {
                assert(forall|k: int| 0 <= k < d.len() ==> #[trigger] d[k] == s[k]);
            }
            if pred(s.last()) {
                assert forall|i: int, j: int| 0 <= i < j < f.len() implies lit_lt(f[i], f[j]) by {
                    if j < f.len() - 1 {
                        assert(f[i] == fd[i] && f[j] == fd[j]);
                    } else {
                        assert(f[j] == s.last());
                        assert(fd.contains(fd[i])) by { assert(fd[i] == fd[i]); }
                        assert(d.contains(f[i]) && pred(f[i]));
                        let k = choose|k: int| 0 <= k < d.len() && d[k] == f[i];
                        assert(d[k] == s[k]);
                        assert(lit_lt(s[k], s.last()));
                    }
                }
                assert(sorted_strict(f));
            } else {
                assert(f == fd);
                assert(sorted_strict(f));
            }
        }
        assert forall|y: Literal| #[trigger] f.contains(y) implies (s.contains(y) && pred(y)) by {
            let k = choose|k: int| 0 <= k < f.len() && f[k] == y;
            if pred(s.last()) && k == f.len() - 1 {
                assert(y == s.last());
                assert(s.contains(y)) by { assert(s[s.len() - 1] == y); }
            } else {
                assert(fd.contains(y)) by { assert(fd[k] == y); }
                assert(d.contains(y));
                let m = choose|m: int| 0 <= m < d.len() && d[m] == y;
                assert(s.contains(y)) by { assert(s[m] == y); }
            }
        }
        assert forall|y: Literal| s.contains(y) && pred(y) implies #[trigger] f.contains(y) by {
            let k = choose|k: int| 0 <= k < s.len() && s[k] == y;
            if k == s.len() - 1 {
                assert(f.contains(y)) by { assert(f[f.len() - 1] == y); }
            } else {
                assert(d.contains(y)) by { assert(d[k] == y); }
                assert(fd.contains(y));
                let m = choose|m: int| 0 <= m < fd.len() && fd[m] == y;
                assert(f.contains(y)) by { assert(f[m] == y); }
            }
        }
    }
}

/// Filtering a clause list keeps exactly the matching clauses, never
/// grows the size sum, and preserves pairwise distinctness.
pub proof fn lemma_clause_filter_props(cs: Seq<Seq<Literal>>, pred: spec_fn(Seq<Literal>) -> bool)
    ensures
        forall|c: Seq<Literal>| #[trigger]
            cs.filter(pred).contains(c) <==> (cs.contains(c) && pred(c)),
        cs.filter(pred).len() <= cs.len(),
        cnf_size(cs.filter(pred)) <= cnf_size(cs),
        (forall|i: int, j: int| 0 <= i < j < cs.len() ==> cs[i] != cs[j]) ==> (forall|i: int, j: int|
            0 <= i < j < cs.filter(pred).len() ==> cs.filter(pred)[i] != cs.filter(pred)[j]),
    decreases cs.len(),
{
    reveal(Seq::filter);
    let f = cs.filter(pred);
    if cs.len() == 0 {
        assert forall|c: Seq<Literal>| #[trigger] f.contains(c) implies (cs.contains(c) && pred(
            c,
        )) by {
            let k = choose|k: int| 0 <= k < f.len() && f[k] == c;
        }
    } else {
        let d = cs.drop_last();
        lemma_clause_filter_props(d, pred);
        let fd = d.filter(pred);
        assert(cs.take(cs.len() - 1) =~= d);
        assert(cnf_size(cs) == cnf_size(d) + cs.last().len() + 1);
        if pred(cs.last()) {
            lemma_cnf_size_push(fd, cs.last());
        }
        assert forall|c: Seq<Literal>| #[trigger] f.contains(c) implies (cs.contains(c) && pred(
            c,
        )) by {
            let k = choose|k: int| 0 <= k < f.len() && f[k] == c;
            if pred(cs.last()) && k == f.len() - 1 {
                assert(c == cs.last());
                assert(cs.contains(c)) by { assert(cs[cs.len() - 1] == c); }
            } else {
                assert(fd.contains(c)) by { assert(fd[k] == c); }
                assert(d.contains(c));
                let m = choose|m: int| 0 <= m < d.len() && d[m] == c;
                assert(cs.contains(c)) by { assert(cs[m] == c); }
            }
        }
        assert forall|c: Seq<Literal>| cs.contains(c) && pred(c) implies #[trigger] f.contains(
            c,
        ) by {
            let k = choose|k: int| 0 <= k < cs.len() && cs[k] == c;
            if k == cs.len() - 1 {
                assert(pred(cs.last()));
                assert(f.contains(c)) by { assert(f[f.len() - 1] == c); }
            } else {
                assert(d.contains(c)) by { assert(d[k] == c); }
                assert(fd.contains(c));
                let m = choose|m: int| 0 <= m < fd.len() && fd[m] == c;
                assert(f.contains(c)) by { assert(f[m] == c); }
            }
        }
        if forall|i: int, j: int| 0 <= i < j < cs.len() ==> cs[i] != cs[j] {
            assert(forall|i: int, j: int| 0 <= i < j < d.len() ==> d[i] != d[j]) by {
                assert(forall|k: int| 0 <= k < d.len() ==> #[trigger] d[k] == cs[k]);
            }
            assert forall|i: int, j: int| 0 <= i < j < f.len() implies f[i] != f[j] by {
                if pred(cs.last()) && j == f.len() - 1 {
                    assert(f[i] == fd[i]);
                    assert(fd.contains(fd[i])) by { assert(fd[i] == fd[i]); }
                    assert(d.contains(f[i]));
                    let m = choose|m: int| 0 <= m < d.len() && d[m] == f[i];
                    assert(cs[m] == f[i] && cs[cs.len() - 1] == f[j]);
                } else {
                    assert(f[i] == fd[i] && f[j] == fd[j]);
                }
            }
        }
    }
}

/// A clause list in which every clause matches filters to itself.
pub proof fn lemma_clause_filter_all(cs: Seq<Seq<Literal>>, pred: spec_fn(Seq<Literal>) -> bool)
    requires
        forall|k: int| 0 <= k < cs.len() ==> pred(#[trigger] cs[k]),
    ensures
        cs.filter(pred) == cs,
    decreases cs.len(),
{
    reveal(Seq::filter);
    if cs.len() == 0 {
        assert(cs.filter(pred) =~= cs);
    } else {
        let d = cs.drop_last();
        assert(forall|k: int| 0 <= k < d.len() ==> pred(#[trigger] d[k])) by {
            assert(forall|k: int| 0 <= k < d.len() ==> #[trigger] d[k] == cs[k]);
        }
        lemma_clause_filter_all(d, pred);
        assert(cs.filter(pred) =~= cs);
    }
}

/// A clause in which every literal matches filters to itself.
pub proof fn lemma_lit_filter_all(c: Seq<Literal>, pred: spec_fn(Literal) -> bool)
    requires
        forall|k: int| 0 <= k < c.len() ==> pred(#[trigger] c[k]),
    ensures
        c.filter(pred) == c,
    decreases c.len(),
{
    reveal(Seq::filter);
    if c.len() == 0 {
        assert(c.filter(pred) =~= c);
    } else {
        let d = c.drop_first();
        assert(c.drop_last().len() == c.len() - 1);
        assert(forall|k: int| 0 <= k < c.len() - 1 ==> pred(#[trigger] c.drop_last()[k])) by {
            assert(forall|k: int| 0 <= k < c.len() - 1 ==> #[trigger] c.drop_last()[k] == c[k]);
        }
        lemma_lit_filter_all(c.drop_last(), pred);
        assert(c.filter(pred) =~= c);
    }
}

/// One step of the clause-size sum along a prefix.
pub proof fn lemma_cnf_size_take_step(cs: Seq<Seq<Literal>>, j: int)
    requires
        0 <= j < cs.len(),
    ensures
        cnf_size(cs.take(j + 1)) == cnf_size(cs.take(j)) + cs[j].len() + 1,
{
    let t = cs.take(j + 1);
    assert(t.drop_last() =~= cs.take(j));
    assert(t.last() == cs[j]);
}

/// Appending a clause adds its length plus one to the size sum.
pub proof fn lemma_cnf_size_push(cs: Seq<Seq<Literal>>, c: Seq<Literal>)
    ensures
        cnf_size(cs.push(c)) == cnf_size(cs) + c.len() + 1,
{
    let t = cs.push(c);
    assert(t.drop_last() =~= cs);
    assert(t.last() == c);
}

/// The literals that occur with no occurrence of their negation: the
/// pure literals of a CNF.
pub open spec fn pure_lits(cs: Seq<Seq<Literal>>) -> Set<Literal> {
    Set::new(|l: Literal| lit_occurs(l, cs) && !lit_occurs(lit_neg(l), cs))
}

/// The clause contains a literal that is pure in the CNF.
pub open spec fn clause_has_pure(c: Seq<Literal>, cs: Seq<Seq<Literal>>) -> bool {
    exists|k: int| 0 <= k < c.len() && pure_lits(cs).contains(c[k])
}

/// The clause list after pure-literal elimination: every clause without a
/// pure literal, in order.
pub open spec fn pure_result(cs: Seq<Seq<Literal>>) -> Seq<Seq<Literal>> {
    cs.filter(|c: Seq<Literal>| !clause_has_pure(c, cs))
}

/// The union of one clause of literals after removing the pivot from each
/// side: the resolvent's literal set.
pub open spec fn resolvent_set(a: Seq<Literal>, b: Seq<Literal>, l: Literal) -> Set<Literal> {
    a.to_set().remove(l).union(b.to_set().remove(lit_neg(l)))
}

/// A valuation assigns a truth value to every variable; a literal is true
/// under it iff its variable's value matches its polarity.
pub open spec fn val_sat_lit(v: spec_fn(int) -> bool, l: Literal) -> bool {
    v(l.var as int) == !l.sign
}

/// A clause is true under a valuation iff one of its literals is.
pub open spec fn val_sat_clause(v: spec_fn(int) -> bool, c: Seq<Literal>) -> bool {
    exists|k: int| 0 <= k < c.len() && val_sat_lit(v, c[k])
}

/// Resolution is sound: under any valuation that satisfies both premises
/// the resolvent holds, and when neither premise mentions the pivot in
/// the opposite polarity the resolvent does not mention the pivot at all.
pub proof fn lemma_resolution_correct(
    a: Seq<Literal>,
    b: Seq<Literal>,
    l: Literal,
    r: Seq<Literal>,
    v: spec_fn(int) -> bool,
)
    requires
        a.contains(l),
        b.contains(lit_neg(l)),
        r.to_set() == resolvent_set(a, b, l),
    ensures
        val_sat_clause(v, a) && val_sat_clause(v, b) ==> val_sat_clause(v, r),
        !a.contains(lit_neg(l)) && !b.contains(l) ==> !r.contains(l) && !r.contains(lit_neg(l)),
{
    if val_sat_clause(v, a) && val_sat_clause(v, b) {
        let k = choose|k: int| 0 <= k < a.len() && val_sat_lit(v, a[k]);
        if a[k] == l {
            let m = choose|m: int| 0 <= m < b.len() && val_sat_lit(v, b[m]);
            if b[m] == lit_neg(l) {
                assert(false);
            } else {
                assert(r.to_set().contains(b[m])) by {
                    assert(b.to_set().contains(b[m])) by { assert(b.contains(b[m])); }
                }
                let n = choose|n: int| 0 <= n < r.len() && r[n] == b[m];
                assert(val_sat_clause(v, r));
            }
        } else {
            assert(r.to_set().contains(a[k])) by {
                assert(a.to_set().contains(a[k])) by { assert(a.contains(a[k])); }
            }
            let n = choose|n: int| 0 <= n < r.len() && r[n] == a[k];
            assert(val_sat_clause(v, r));
        }
    }
    if !a.contains(lit_neg(l)) && !b.contains(l) {
        if r.contains(l) {
            assert(r.to_set().contains(l));
        }
        if r.contains(lit_neg(l)) {
            assert(r.to_set().contains(lit_neg(l)));
        }
    }
}

/// A CNF is true under a valuation iff every clause is.
pub open spec fn val_sat_cnf(v: spec_fn(int) -> bool, cs: Seq<Seq<Literal>>) -> bool {
    forall|i: int| 0 <= i < cs.len() ==> val_sat_clause(v, cs[i])
}

/// Every valuation that satisfies the first CNF satisfies the second.
pub open spec fn entails(src: Seq<Seq<Literal>>, dst: Seq<Seq<Literal>>) -> bool {
    forall|v: spec_fn(int) -> bool| #[trigger]
        val_sat_cnf(v, src) ==> val_sat_cnf(v, dst)
}

/// The collected resolvents of one elimination round: each sorted, with
/// bounded variables, and the resolvent of two present clauses over the
/// pivot.
pub open spec fn dp_resolvents_ok(
    news: Seq<Vec<Literal>>,
    pre: Seq<Seq<Literal>>,
    l: Literal,
    bound: nat,
) -> bool {
    forall|m: int|
        0 <= m < news.len() ==> sorted_strict(#[trigger] news[m]@) && clause_vars_le(
            news[m]@,
            bound,
        ) && exists|c1: Seq<Literal>, c2: Seq<Literal>|
            pre.contains(c1) && pre.contains(c2) && c1.contains(l) && c2.contains(lit_neg(l))
                && news[m]@.to_set() == resolvent_set(c1, c2, l)
}

/// Clause satisfaction under a valuation depends on the literal set only.
pub proof fn lemma_val_sat_same_set(c1: Seq<Literal>, c2: Seq<Literal>, v: spec_fn(int) -> bool)
    requires
        c1.to_set() == c2.to_set(),
        val_sat_clause(v, c1),
    ensures
        val_sat_clause(v, c2),
{
    let k = choose|k: int| 0 <= k < c1.len() && val_sat_lit(v, c1[k]);
    assert(c2.to_set().contains(c1[k])) by {
        assert(c1.to_set().contains(c1[k])) by { assert(c1.contains(c1[k])); }
    }
    let m = choose|m: int| 0 <= m < c2.len() && c2[m] == c1[k];
    assert(val_sat_clause(v, c2));
}

/// Normalization is a retract: removing the tautological clauses twice
/// gives the same clause list as removing them once.
pub proof fn lemma_normalize_retract(cs: Seq<Seq<Literal>>)
    ensures
        crate::cnf::non_taut(crate::cnf::non_taut(cs)) == crate::cnf::non_taut(cs),
{
    let pred = |c: Seq<Literal>| !clause_taut(c);
    let f = cs.filter(pred);
    lemma_clause_filter_props(cs, pred);
    assert forall|k: int| 0 <= k < f.len() implies pred(#[trigger] f[k]) by {
        assert(f.contains(f[k])) by { assert(f[k] == f[k]); }
    }
    lemma_clause_filter_all(f, pred);
}

/// Unit propagation is idempotent on any CNF on which one round raises
/// no conflict and leaves no unit clause behind.
pub proof fn lemma_unit_propagation_idempotent(cs: Set<Seq<Literal>>)
    requires
        !up_conflict(cs),
        forall|c: Seq<Literal>| #[trigger] up_result(cs).contains(c) ==> c.len() != 1,
    ensures
        up_result(up_result(cs)) == up_result(cs),
{
    let s1 = up_result(cs);
    assert(unit_lits(s1) =~= Set::<Literal>::empty()) by {
        assert forall|l: Literal| !(#[trigger] unit_lits(s1).contains(l)) by {
            if unit_lits(s1).contains(l) {
                assert(s1.contains(seq![l]));
                assert(seq![l].len() == 1);
            }
        }
    }
    assert(up_result(s1) =~= s1) by {
        assert forall|c2: Seq<Literal>| #[trigger] up_result(s1).contains(c2) implies s1.contains(
            c2,
        ) by {
            let c = choose|c: Seq<Literal>|
                s1.contains(c) && c.len() != 1 && !up_hit(c, unit_lits(s1)) && c2 == up_reduce(
                    c,
                    unit_lits(s1),
                );
            assert(forall|k: int|
                0 <= k < c.len() ==> !unit_lits(s1).contains(lit_neg(#[trigger] c[k])));
            lemma_lit_filter_all(c, |x: Literal| !unit_lits(s1).contains(lit_neg(x)));
            assert(c2 == c);
        }
        assert forall|c2: Seq<Literal>| #[trigger] s1.contains(c2) implies up_result(s1).contains(
            c2,
        ) by {
            assert(c2.len() != 1);
            assert(!up_hit(c2, unit_lits(s1))) by {
                if up_hit(c2, unit_lits(s1)) {
                    let k = choose|k: int|
                        0 <= k < c2.len() && unit_lits(s1).contains(c2[k]);
                }
            }
            assert(forall|k: int|
                0 <= k < c2.len() ==> !unit_lits(s1).contains(lit_neg(#[trigger] c2[k])));
            lemma_lit_filter_all(c2, |x: Literal| !unit_lits(s1).contains(lit_neg(x)));
            assert(up_reduce(c2, unit_lits(s1)) == c2);
        }
    }
}

/// Whether the clause mentions some variable in both polarities.
pub fn clause_is_taut(c: &Vec<Literal>) -> (r: bool)
    ensures
        r == clause_taut(c@),
{
    let mut i: usize = 0;
    while i < c.len()
        invariant
            0 <= i <= c@.len(),
            forall|a: int, b: int| 0 <= a < i && 0 <= b < c@.len() ==> c@[b] != lit_neg(c@[a]),
        decreases c@.len() - i,
    {
        let mut k: usize = 0;
        while k < c.len()
            invariant
                0 <= k <= c@.len(),
                0 <= i < c@.len(),
                forall|b: int| 0 <= b < k ==> c@[b] != lit_neg(c@[i as int]),
            decreases c@.len() - k,
        {
            if c[k] == c[i].neg() {
                proof {
                    assert(c@[k as int] == lit_neg(c@[i as int]));
                }
                return true;
            }
            k += 1;
        }
        i += 1;
    }
    false
}

/// Whether the literal occurs in some clause of the list.
fn lit_in_clauses(cs: &Vec<Vec<Literal>>, l: Literal) -> (r: bool)
    ensures
        r == lit_occurs(l, clauses_view(cs@)),
{
    let mut i: usize = 0;
    while i < cs.len()
        invariant
            0 <= i <= cs@.len(),
            forall|a: int, b: int|
                0 <= a < i && 0 <= b < clauses_view(cs@)[a].len() ==> clauses_view(cs@)[a][b] != l,
        decreases cs@.len() - i,
    {
        proof {
            assert(clauses_view(cs@)[i as int] == cs@[i as int]@);
        }
        if clause_contains(&cs[i], l) {
            proof {
                let b = choose|b: int| 0 <= b < cs@[i as int]@.len() && cs@[i as int]@[b] == l;
                assert(lit_occurs(l, clauses_view(cs@))) by {
                    assert(clauses_view(cs@)[i as int][b] == l);
                }
            }
            return true;
        }
        i += 1;
    }
    proof {
        if lit_occurs(l, clauses_view(cs@)) {
            let (a, b) = choose|a: int, b: int|
                0 <= a < clauses_view(cs@).len() && 0 <= b < clauses_view(cs@)[a].len()
                    && clauses_view(cs@)[a][b] == l;
            assert(false);
        }
    }
    false
}

/// Some clause of the list carries exactly this literal set.
pub open spec fn stored_set_of(post: Seq<Seq<Literal>>, cl: Seq<Literal>) -> bool {
    exists|c: Seq<Literal>| post.contains(c) && c.to_set() == cl.to_set()
}

/// Every collected resolvent is present in the clause list, up to its
/// literal set.
pub open spec fn dp_news_stored(news: Seq<Vec<Literal>>, post: Seq<Seq<Literal>>) -> bool {
    forall|k: int| 0 <= k < news.len() ==> stored_set_of(post, #[trigger] news[k]@)
}

/// All resolvents over the pivot of every unswapped premise pair are
/// among the collected clauses.
pub open spec fn dp_resolvents_complete(
    news: Seq<Vec<Literal>>,
    pre: Seq<Seq<Literal>>,
    l: Literal,
    nx: int,
    ny: int,
) -> bool {
    forall|x: int, y: int|
        0 <= x < nx && 0 <= y < ny && (#[trigger] pre[x]).contains(l) && (
        #[trigger] pre[y]).contains(lit_neg(l)) && !(pre[x].contains(lit_neg(l)) && pre[y].contains(
            l,
        )) ==> exists|k: int|
            0 <= k < news.len() && (#[trigger] news[k]@).to_set() == resolvent_set(
                pre[x],
                pre[y],
                l,
            )
}

/// One elimination round keeps satisfiability in the other direction as
/// well: a valuation of the result extends to one of the round's input
/// by choosing the eliminated variable's value.
proof fn lemma_dp_step_backward(
    pre: Seq<Seq<Literal>>,
    mid: Seq<Seq<Literal>>,
    post: Seq<Seq<Literal>>,
    news: Seq<Vec<Literal>>,
    l: Literal,
    v: spec_fn(int) -> bool,
)
    requires
        val_sat_cnf(v, post),
        // kept clauses reach the result
        forall|c: Seq<Literal>|
            #![trigger pre.contains(c)]
            pre.contains(c) && !c.contains(l) && !c.contains(lit_neg(l)) ==> mid.contains(c),
        forall|c: Seq<Literal>|
            #![trigger mid.contains(c)]
            mid.contains(c) ==> post.contains(c),
        // every collected resolvent reaches the result up to normal form
        dp_news_stored(news, post),
        dp_resolvents_complete(news, pre, l, pre.len() as int, pre.len() as int),
    ensures
        exists|v2: spec_fn(int) -> bool| val_sat_cnf(v2, pre),
{
    let lv = l.var as int;
    // Does some clause that needs the pivot lose every other literal?
    if exists|x: int|
        0 <= x < pre.len() && (#[trigger] pre[x]).contains(l) && !pre[x].contains(lit_neg(l)) && (
        forall|b: int| 0 <= b < pre[x].len() && pre[x][b] != l ==> !val_sat_lit(v, pre[x][b])) {
        // Then the pivot must be true; its opposite clauses survive
        // through the resolvents with that clause.
        let x0 = choose|x: int|
            0 <= x < pre.len() && (#[trigger] pre[x]).contains(l) && !pre[x].contains(lit_neg(l))
                && (forall|b: int|
                0 <= b < pre[x].len() && pre[x][b] != l ==> !val_sat_lit(v, pre[x][b]));
        let a0 = pre[x0];
        let v2 = |i: int|
            if i == lv {
                !l.sign
            } else {
                v(i)
            };
        assert(val_sat_lit(v2, l));
        assert forall|i: int| 0 <= i < pre.len() implies val_sat_clause(v2, pre[i]) by {
            let c = pre[i];
            assert(pre.contains(c)) by { assert(pre[i] == c); }
            if c.contains(l) {
                let b = choose|b: int| 0 <= b < c.len() && c[b] == l;
                assert(val_sat_clause(v2, c));
            } else if c.contains(lit_neg(l)) {
                // Use the resolvent with the starved clause.
                assert(exists|k: int|
                    0 <= k < news.len() && (#[trigger] news[k]@).to_set() == resolvent_set(
                        a0,
                        c,
                        l,
                    )) by {
                    assert(pre[x0].contains(l) && pre[i].contains(lit_neg(l)) && !(
                    pre[x0].contains(lit_neg(l)) && pre[i].contains(l)));
                }
                let k = choose|k: int|
                    0 <= k < news.len() && (#[trigger] news[k]@).to_set() == resolvent_set(
                        a0,
                        c,
                        l,
                    );
                assert(stored_set_of(post, news[k]@));
                let rc = choose|rc: Seq<Literal>|
                    #[trigger] post.contains(rc) && rc.to_set() == news[k]@.to_set();
                let q = choose|q: int| 0 <= q < post.len() && post[q] == rc;
                assert(val_sat_clause(v, post[q]));
                let w = choose|w: int| 0 <= w < rc.len() && val_sat_lit(v, rc[w]);
                let wl = rc[w];
                assert(rc.to_set().contains(wl)) by { assert(rc.contains(wl)); }
                assert(resolvent_set(a0, c, l).contains(wl));
                if a0.to_set().remove(l).contains(wl) {
                    // Every non-pivot literal of the starved clause is
                    // false under v.
                    assert(a0.contains(wl) && wl != l);
                    let bb = choose|bb: int| 0 <= bb < a0.len() && a0[bb] == wl;
                    assert(!val_sat_lit(v, wl));
                    assert(false);
                } else {
                    assert(c.to_set().remove(lit_neg(l)).contains(wl));
                    assert(c.contains(wl) && wl != lit_neg(l));
                    assert(wl.var != l.var) by {
                        if wl.var == l.var {
                            if wl.sign == l.sign {
                                assert(wl == l);
                                assert(pre[x0].contains(lit_neg(l)) && pre[i].contains(l));
                                assert(!(pre[x0].contains(lit_neg(l)) && pre[i].contains(l))
                                    || true);
                                // c holds both polarities only through l,
                                // which this branch excluded.
                                assert(c.contains(l));
                                let b2 = choose|b2: int| 0 <= b2 < c.len() && c[b2] == l;
                                assert(false);
                            } else {
                                assert(wl == lit_neg(l));
                            }
                        }
                    }
                    assert(val_sat_lit(v2, wl));
                    let b3 = choose|b3: int| 0 <= b3 < c.len() && c[b3] == wl;
                    assert(val_sat_clause(v2, c));
                }
            } else {
                // Untouched clause: its witness keeps its value.
                assert(mid.contains(c));
                assert(post.contains(c));
                let q = choose|q: int| 0 <= q < post.len() && post[q] == c;
                assert(val_sat_clause(v, post[q]));
                let w = choose|w: int| 0 <= w < c.len() && val_sat_lit(v, c[w]);
                assert(c[w].var != l.var) by {
                    if c[w].var == l.var {
                        if c[w].sign == l.sign {
                            assert(c[w] == l);
                            assert(c.contains(l)) by { assert(c[w] == l); }
                        } else {
                            assert(c[w] == lit_neg(l));
                            assert(c.contains(lit_neg(l))) by { assert(c[w] == lit_neg(l)); }
                        }
                    }
                }
                assert(val_sat_lit(v2, c[w]));
                assert(val_sat_clause(v2, c));
            }
        }
        assert(val_sat_cnf(v2, pre));
    } else {
        // Every clause needing the pivot keeps another true literal, so
        // the pivot can be false.
        let v2 = |i: int|
            if i == lv {
                l.sign
            } else {
                v(i)
            };
        assert(!val_sat_lit(v2, l));
        assert(val_sat_lit(v2, lit_neg(l)));
        assert forall|i: int| 0 <= i < pre.len() implies val_sat_clause(v2, pre[i]) by {
            let c = pre[i];
            assert(pre.contains(c)) by { assert(pre[i] == c); }
            if c.contains(lit_neg(l)) {
                let b = choose|b: int| 0 <= b < c.len() && c[b] == lit_neg(l);
                assert(val_sat_clause(v2, c));
            } else if c.contains(l) {
                // Not starved: some other literal of it is true under v.
                assert(!(0 <= i < pre.len() && pre[i].contains(l) && !pre[i].contains(lit_neg(l))
                    && (forall|b: int|
                    0 <= b < pre[i].len() && pre[i][b] != l ==> !val_sat_lit(v, pre[i][b]))));
                let b2 = choose|b2: int|
                    0 <= b2 < c.len() && c[b2] != l && val_sat_lit(v, c[b2]);
                assert(c[b2].var != l.var) by {
                    if c[b2].var == l.var {
                        if c[b2].sign == l.sign {
                            assert(c[b2] == l);
                        } else {
                            assert(c[b2] == lit_neg(l));
                            assert(c.contains(lit_neg(l))) by { assert(c[b2] == lit_neg(l)); }
                        }
                    }
                }
                assert(val_sat_lit(v2, c[b2]));
                assert(val_sat_clause(v2, c));
            } else {
                assert(mid.contains(c));
                assert(post.contains(c));
                let q = choose|q: int| 0 <= q < post.len() && post[q] == c;
                assert(val_sat_clause(v, post[q]));
                let w = choose|w: int| 0 <= w < c.len() && val_sat_lit(v, c[w]);
                assert(c[w].var != l.var) by {
                    if c[w].var == l.var {
                        if c[w].sign == l.sign {
                            assert(c.contains(l)) by { assert(c[w] == l); }
                        } else {
                            assert(c.contains(lit_neg(l))) by { assert(c[w] == lit_neg(l)); }
                        }
                    }
                }
                assert(val_sat_lit(v2, c[w]));
                assert(val_sat_clause(v2, c));
            }
        }
        assert(val_sat_cnf(v2, pre));
    }
}

/// Earlier pair coverage survives when the collected resolvents only
/// grow, and the pair just examined joins the covered row.
proof fn lemma_pairs_extend(
    before: Seq<Vec<Literal>>,
    after: Seq<Vec<Literal>>,
    pre: Seq<Seq<Literal>>,
    l: Literal,
    ai: int,
    bi: int,
)
    requires
        0 <= ai < pre.len(),
        0 <= bi < pre.len(),
        after.len() >= before.len(),
        forall|k: int| 0 <= k < before.len() ==> #[trigger] after[k] == before[k],
        dp_resolvents_complete(before, pre, l, ai, pre.len() as int),
        forall|y: int|
            #![trigger pre[y]]
            0 <= y < bi && pre[ai].contains(l) && pre[y].contains(lit_neg(l)) && !(
            pre[ai].contains(lit_neg(l)) && pre[y].contains(l)) ==> exists|k: int|
                0 <= k < before.len() && (#[trigger] before[k]@).to_set() == resolvent_set(
                    pre[ai],
                    pre[y],
                    l,
                ),
        pre[ai].contains(l) && pre[bi].contains(lit_neg(l)) && !(pre[ai].contains(lit_neg(l))
            && pre[bi].contains(l)) ==> exists|k: int|
            0 <= k < after.len() && (#[trigger] after[k]@).to_set() == resolvent_set(
                pre[ai],
                pre[bi],
                l,
            ),
    ensures
        dp_resolvents_complete(after, pre, l, ai, pre.len() as int),
        forall|y: int|
            #![trigger pre[y]]
            0 <= y < bi + 1 && pre[ai].contains(l) && pre[y].contains(lit_neg(l)) && !(
            pre[ai].contains(lit_neg(l)) && pre[y].contains(l)) ==> exists|k: int|
                0 <= k < after.len() && (#[trigger] after[k]@).to_set() == resolvent_set(
                    pre[ai],
                    pre[y],
                    l,
                ),
{
    assert forall|x: int, y: int|
        0 <= x < ai && 0 <= y < pre.len() && (#[trigger] pre[x]).contains(l) && (
    #[trigger] pre[y]).contains(lit_neg(l)) && !(pre[x].contains(lit_neg(l)) && pre[y].contains(
        l,
    )) implies exists|k: int|
        0 <= k < after.len() && (#[trigger] after[k]@).to_set() == resolvent_set(
            pre[x],
            pre[y],
            l,
        ) by {
        let k = choose|k: int|
            0 <= k < before.len() && (#[trigger] before[k]@).to_set() == resolvent_set(
                pre[x],
                pre[y],
                l,
            );
        assert(after[k] == before[k]);
        assert(after[k]@.to_set() == resolvent_set(pre[x], pre[y], l));
    }
    assert forall|y: int|
        0 <= y < bi + 1 && pre[ai].contains(l) && (#[trigger] pre[y]).contains(lit_neg(l)) && !(
    pre[ai].contains(lit_neg(l)) && pre[y].contains(l)) implies exists|k: int|
        0 <= k < after.len() && (#[trigger] after[k]@).to_set() == resolvent_set(
            pre[ai],
            pre[y],
            l,
        ) by {
        if y < bi {
            let k = choose|k: int|
                0 <= k < before.len() && (#[trigger] before[k]@).to_set() == resolvent_set(
                    pre[ai],
                    pre[y],
                    l,
                );
            assert(after[k] == before[k]);
            assert(after[k]@.to_set() == resolvent_set(pre[ai], pre[y], l));
        }
    }
}

/// Once every pair of one row is covered, coverage extends past the row.
proof fn lemma_pairs_row_done(news: Seq<Vec<Literal>>, pre: Seq<Seq<Literal>>, l: Literal, ai: int)
    requires
        0 <= ai < pre.len(),
        dp_resolvents_complete(news, pre, l, ai, pre.len() as int),
        forall|y: int|
            #![trigger pre[y]]
            0 <= y < pre.len() && pre[ai].contains(l) && pre[y].contains(lit_neg(l)) && !(
            pre[ai].contains(lit_neg(l)) && pre[y].contains(l)) ==> exists|k: int|
                0 <= k < news.len() && (#[trigger] news[k]@).to_set() == resolvent_set(
                    pre[ai],
                    pre[y],
                    l,
                ),
    ensures
        dp_resolvents_complete(news, pre, l, ai + 1, pre.len() as int),
{
    assert forall|x: int, y: int|
        0 <= x < ai + 1 && 0 <= y < pre.len() && (#[trigger] pre[x]).contains(l) && (
    #[trigger] pre[y]).contains(lit_neg(l)) && !(pre[x].contains(lit_neg(l)) && pre[y].contains(
        l,
    )) implies exists|k: int|
        0 <= k < news.len() && (#[trigger] news[k]@).to_set() == resolvent_set(
            pre[x],
            pre[y],
            l,
        ) by {}
}

/// One elimination round only reuses literals of its input, and on a
/// tautology-free input nothing keeps the pivot's variable: survivors
/// avoid both polarities, and such a resolvent never keeps its pivot.
proof fn lemma_dp_round_shape(
    pre: Seq<Seq<Literal>>,
    mid: Seq<Seq<Literal>>,
    post: Seq<Seq<Literal>>,
    news: Seq<Vec<Literal>>,
    l: Literal,
    bound: nat,
)
    requires
        forall|c: Seq<Literal>|
            #![trigger mid.contains(c)]
            mid.contains(c) ==> (pre.contains(c) && !c.contains(l) && !c.contains(lit_neg(l))),
        forall|c: Seq<Literal>|
            #![trigger post.contains(c)]
            post.contains(c) ==> (mid.contains(c) || exists|k: int|
                0 <= k < news.len() && norm_clause(#[trigger] news[k]@) == c),
        dp_resolvents_ok(news, pre, l, bound),
    ensures
        forall|x: Literal| lit_occurs(x, post) ==> lit_occurs(x, pre),
        (forall|i: int| 0 <= i < pre.len() ==> !clause_taut(#[trigger] pre[i]))
            ==> forall|x: Literal| lit_occurs(x, post) ==> x.var != l.var,
{
    let tf = forall|i: int| 0 <= i < pre.len() ==> !clause_taut(#[trigger] pre[i]);
    assert forall|x: Literal| lit_occurs(x, post) implies lit_occurs(x, pre) && (tf ==> x.var
        != l.var) by {
        let (a, b) = choose|a: int, b: int|
            0 <= a < post.len() && 0 <= b < post[a].len() && post[a][b] == x;
        let c = post[a];
        assert(post.contains(c)) by { assert(post[a] == c); }
        assert(c.contains(x)) by { assert(c[b] == x); }
        if mid.contains(c) {
            assert(pre.contains(c) && !c.contains(l) && !c.contains(lit_neg(l)));
            let q = choose|q: int| 0 <= q < pre.len() && pre[q] == c;
            assert(lit_occurs(x, pre)) by { assert(pre[q][b] == x); }
            if x.var == l.var {
                if x.sign == l.sign {
                    assert(x == l);
                } else {
                    assert(x == lit_neg(l));
                }
                assert(false);
            }
        } else {
            let k = choose|k: int| 0 <= k < news.len() && norm_clause(#[trigger] news[k]@) == c;
            crate::cnf::lemma_norm_clause(news[k]@);
            assert(news[k]@.to_set().contains(x)) by {
                assert(c.to_set().contains(x)) by { assert(c.contains(x)); }
            }
            assert(dp_resolvents_ok(news, pre, l, bound));
            let (c1, c2) = choose|c1: Seq<Literal>, c2: Seq<Literal>|
                pre.contains(c1) && pre.contains(c2) && c1.contains(l) && c2.contains(
                    lit_neg(l),
                ) && news[k]@.to_set() == resolvent_set(c1, c2, l);
            if c1.to_set().remove(l).contains(x) {
                assert(c1.contains(x) && x != l);
                let b1 = choose|b1: int| 0 <= b1 < c1.len() && c1[b1] == x;
                let q1 = choose|q1: int| 0 <= q1 < pre.len() && pre[q1] == c1;
                assert(lit_occurs(x, pre)) by { assert(pre[q1][b1] == x); }
                if tf && x.var == l.var {
                    if x.sign == l.sign {
                        assert(x == l);
                    }
                    assert(x == lit_neg(l));
                    let bl = choose|bl: int| 0 <= bl < c1.len() && c1[bl] == l;
                    assert(clause_taut(c1)) by { assert(c1[b1] == lit_neg(c1[bl])); }
                    assert(false);
                }
            } else {
                assert(c2.to_set().remove(lit_neg(l)).contains(x));
                assert(c2.contains(x) && x != lit_neg(l));
                let b2 = choose|b2: int| 0 <= b2 < c2.len() && c2[b2] == x;
                let q2 = choose|q2: int| 0 <= q2 < pre.len() && pre[q2] == c2;
                assert(lit_occurs(x, pre)) by { assert(pre[q2][b2] == x); }
                if tf && x.var == l.var {
                    if x.sign != l.sign {
                        assert(x == lit_neg(l));
                    }
                    assert(x == l);
                    let bl = choose|bl: int| 0 <= bl < c2.len() && c2[bl] == lit_neg(l);
                    assert(clause_taut(c2)) by { assert(c2[bl] == lit_neg(c2[b2])); }
                    assert(false);
                }
            }
        }
    }
}

/// The simplification kernel, offered as a bundle of associated
/// operations.
pub struct SATSolver {}

/// The clause with every literal removed whose negation is in `units`.
fn reduce_clause(c: &Vec<Literal>, units: &Vec<Literal>) -> (r: Vec<Literal>)
    ensures
        r@ == up_reduce(c@, units@.to_set()),
{
    let ghost u = units@.to_set();
    let mut r: Vec<Literal> = Vec::new();
    let mut j: usize = 0;
    while j < c.len()
        invariant
            0 <= j <= c@.len(),
            r@ == up_reduce(c@.take(j as int), u),
        decreases c@.len() - j,
    {
        let ghost pre = r@;
        if !clause_contains(units, c[j].neg()) {
            r.push(c[j]);
        }
        proof {
            reveal(Seq::filter);
            let t = c@.take(j + 1);
            assert(t.drop_last() =~= c@.take(j as int));
            assert(t.last() == c@[j as int]);
        }
        j += 1;
    }
    proof {
        assert(c@.take(c@.len() as int) =~= c@);
    }
    r
}

impl SATSolver {
    /// A unit clause holds exactly one literal.
    pub fn is_unit_clause(clause: &Vec<Literal>) -> (r: bool)
        ensures
            r == (clause@.len() == 1),
    {
        clause.len() == 1
    }

    /// One round of unit propagation. Collects the unit literals, fails
    /// on a contradicting pair, otherwise drops every clause a unit
    /// satisfies, strips every literal a unit falsifies, and returns the
    /// units as the forced assignment.
    pub fn unit_propagation(cnf: &mut CNF) -> (r: Result<Vec<Literal>, Error>)
        requires
            old(cnf).wf(),
        ensures
            final(cnf).wf(),
            final(cnf).var_count == old(cnf).var_count,
            (r is Err) == up_conflict(old(cnf)@.to_set()),
            r is Err ==> final(cnf)@ == old(cnf)@,
            r is Ok ==> final(cnf)@.to_set() == up_result(old(cnf)@.to_set()),
            r is Ok ==> r->Ok_0@.to_set() == unit_lits(old(cnf)@.to_set())
                && r->Ok_0@.no_duplicates(),
            r is Ok ==> forall|x: Literal| #[trigger]
                r->Ok_0@.contains(x) ==> lit_occurs(x, old(cnf)@),
            r is Ok ==> forall|x: Literal| #[trigger]
                r->Ok_0@.contains(x) ==> !lit_occurs(x, final(cnf)@) && !lit_occurs(
                    lit_neg(x),
                    final(cnf)@,
                ),
            cnf_size(final(cnf)@) <= cnf_size(old(cnf)@),
            r is Ok && r->Ok_0@.len() > 0 ==> cnf_size(final(cnf)@) < cnf_size(old(cnf)@),
            forall|x: Literal| lit_occurs(x, final(cnf)@) ==> lit_occurs(x, old(cnf)@),
    {
        let ghost cs0 = cnf@;
        let mut units: Vec<Literal> = Vec::new();
        let mut i: usize = 0;
        while i < cnf.clauses.len()
            invariant
                0 <= i <= cs0.len(),
                cnf.clauses == old(cnf).clauses,
                cnf.var_count == old(cnf).var_count,
                forall|l: Literal| #[trigger]
                    units@.contains(l) ==> exists|k: int|
                        0 <= k < i && cs0[k].len() == 1 && cs0[k][0] == l,
                forall|k: int|
                    0 <= k < i && (#[trigger] cs0[k]).len() == 1 ==> units@.contains(cs0[k][0]),
                units@.no_duplicates(),
                forall|l: Literal| #[trigger]
                    units@.contains(l) ==> !units@.contains(lit_neg(l)),
            decreases cs0.len() - i,
        {
            proof {
                assert(cs0[i as int] == cnf.clauses@[i as int]@);
            }
            if cnf.clauses[i].len() == 1 {
                let l = cnf.clauses[i][0];
                if clause_contains(&units, l.neg()) {
                    proof {
                        assert(cs0.to_set().contains(seq![l])) by {
                            assert(cs0[i as int] =~= seq![l]);
                            assert(cs0.contains(cs0[i as int]));
                        }
                        let k = choose|k: int|
                            0 <= k < i && cs0[k].len() == 1 && cs0[k][0] == lit_neg(l);
                        assert(cs0.to_set().contains(seq![lit_neg(l)])) by {
                            assert(cs0[k] =~= seq![lit_neg(l)]);
                            assert(cs0.contains(cs0[k]));
                        }
                        assert(unit_lits(cs0.to_set()).contains(l));
                        assert(unit_lits(cs0.to_set()).contains(lit_neg(l)));
                    }
                    return Err(Error::new("Unsatisfiable"));
                }
                if !clause_contains(&units, l) {
                    let ghost pu = units@;
                    units.push(l);
                    proof {
                        assert(units@ == pu.push(l));
                        assert(forall|k: int| 0 <= k < pu.len() ==> #[trigger] units@[k] == pu[k]);
                        assert(units@[pu.len() as int] == l);
                        assert forall|l2: Literal| #[trigger]
                            units@.contains(l2) implies (pu.contains(l2) || l2 == l) by {
                            let a = choose|a: int| 0 <= a < units@.len() && units@[a] == l2;
                            if a < pu.len() {
                                assert(pu.contains(l2)) by { assert(pu[a] == l2); }
                            }
                        }
                        assert(units@.no_duplicates()) by {
                            assert forall|a: int, b: int|
                                0 <= a < b < units@.len() implies units@[a] != units@[b] by {
                                if b == units@.len() - 1 {
                                    if units@[a] == l {
                                        assert(pu.contains(l)) by { assert(pu[a] == l); }
                                    }
                                }
                            }
                        }
                        assert forall|l2: Literal| #[trigger]
                            units@.contains(l2) implies !units@.contains(lit_neg(l2)) by {
                            if units@.contains(lit_neg(l2)) {
                                if l2 == l {
                                    assert(lit_neg(l2) != l);
                                    assert(pu.contains(lit_neg(l)));
                                } else if lit_neg(l2) == l {
                                    assert(pu.contains(l2));
                                    assert(l2 == lit_neg(l));
                                } else {
                                    assert(pu.contains(l2) && pu.contains(lit_neg(l2)));
                                }
                            }
                        }
                        assert forall|l2: Literal| #[trigger]
                            units@.contains(l2) implies exists|k: int|
                            0 <= k < i + 1 && cs0[k].len() == 1 && cs0[k][0] == l2 by {
                            if l2 == l {
                                assert(0 <= i < i + 1 && cs0[i as int].len() == 1
                                    && cs0[i as int][0] == l2);
                            } else {
                                assert(pu.contains(l2));
                            }
                        }
                        assert forall|k: int|
                            0 <= k < i + 1 && (#[trigger] cs0[k]).len() == 1 implies units@.contains(
                            cs0[k][0],
                        ) by {
                            if k < i {
                                assert(pu.contains(cs0[k][0]));
                                let a = choose|a: int| 0 <= a < pu.len() && pu[a] == cs0[k][0];
                                assert(units@.contains(cs0[k][0])) by {
                                    assert(units@[a] == cs0[k][0]);
                                }
                            } else {
                                assert(units@.contains(l)) by {
                                    assert(units@[pu.len() as int] == l);
                                }
                            }
                        }
                    }
                } else {
                    proof {
                        assert forall|k: int|
                            0 <= k < i + 1 && (#[trigger] cs0[k]).len() == 1 implies units@.contains(
                            cs0[k][0],
                        ) by {
                            if k == i {
                                assert(cs0[k][0] == l);
                            }
                        }
                    }
                }
            }
            i += 1;
        }
        // The unit set of the whole CNF, free of contradictions.
        let ghost u = units@.to_set();
        proof {
            assert forall|l: Literal| #[trigger] u.contains(l) implies unit_lits(
                cs0.to_set(),
            ).contains(l) by {
                let k = choose|k: int| 0 <= k < cs0.len() && cs0[k].len() == 1 && cs0[k][0] == l;
                assert(cs0[k] =~= seq![l]);
                assert(cs0.to_set().contains(seq![l])) by { assert(cs0.contains(cs0[k])); }
            }
            assert forall|l: Literal| unit_lits(cs0.to_set()).contains(l) implies #[trigger]
                u.contains(l) by {
                assert(cs0.to_set().contains(seq![l]));
                let k = choose|k: int| 0 <= k < cs0.len() && cs0[k] == seq![l];
                assert(cs0[k].len() == 1 && cs0[k][0] == l);
                assert(units@.contains(l));
            }
            assert(u =~= unit_lits(cs0.to_set()));
            assert(!up_conflict(cs0.to_set())) by {
                if up_conflict(cs0.to_set()) {
                    let l = choose|l: Literal|
                        unit_lits(cs0.to_set()).contains(l) && unit_lits(cs0.to_set()).contains(
                            lit_neg(l),
                        );
                    assert(u.contains(l) && u.contains(lit_neg(l)));
                    assert(units@.contains(l));
                }
            }
        }
        // Rebuild the clause list.
        let mut out: Vec<Vec<Literal>> = Vec::new();
        let ghost mut seen: bool = false;
        let mut j: usize = 0;
        while j < cnf.clauses.len()
            invariant
                0 <= j <= cs0.len(),
                cnf.clauses == old(cnf).clauses,
                cnf.var_count == old(cnf).var_count,
                u == units@.to_set(),
                forall|c2: Seq<Literal>|
                    #![trigger clauses_view(out@).contains(c2)]
                    #![trigger up_result_upto(cs0, u, j as int).contains(c2)]
                    clauses_view(out@).contains(c2) <==> up_result_upto(cs0, u, j as int).contains(
                        c2,
                    ),
                forall|k: int, m: int|
                    0 <= k < m < out@.len() ==> clauses_view(out@)[k] != clauses_view(out@)[m],
                forall|k: int|
                    0 <= k < out@.len() ==> sorted_strict(#[trigger] clauses_view(out@)[k])
                        && clause_vars_le(clauses_view(out@)[k], cnf.var_count as nat),
                forall|x: Literal|
                    lit_occurs(x, clauses_view(out@)) ==> lit_occurs(x, cs0),
                seen == exists|k: int| 0 <= k < j && (#[trigger] cs0[k]).len() == 1,
                cnf_size(clauses_view(out@)) + (if seen {
                    2nat
                } else {
                    0nat
                }) <= cnf_size(cs0.take(j as int)),
            decreases cs0.len() - j,
        {
            proof {
                assert(cs0[j as int] == cnf.clauses@[j as int]@);
                lemma_cnf_size_take_step(cs0, j as int);
            }
            let ghost pre = out@;
            if cnf.clauses[j].len() == 1 {
                proof {
                    seen = true;
                    assert(up_result_upto(cs0, u, j + 1) =~= up_result_upto(cs0, u, j as int)) by {
                        assert forall|c2: Seq<Literal>|
                            up_result_upto(cs0, u, j + 1).contains(c2) implies up_result_upto(
                            cs0,
                            u,
                            j as int,
                        ).contains(c2) by {
                            let k = choose|k: int|
                                0 <= k < j + 1 && cs0[k].len() != 1 && !up_hit(cs0[k], u) && c2
                                    == up_reduce(cs0[k], u);
                            assert(k < j);
                        }
                    }
                }
            } else if clause_hit(&units, &cnf.clauses[j]) {
                proof {
                    assert(up_hit(cs0[j as int], u)) by {
                        let k = choose|k: int|
                            0 <= k < cs0[j as int].len() && units@.contains(cs0[j as int][k]);
                        assert(u.contains(cs0[j as int][k]));
                    }
                    assert(up_result_upto(cs0, u, j + 1) =~= up_result_upto(cs0, u, j as int)) by {
                        assert forall|c2: Seq<Literal>|
                            up_result_upto(cs0, u, j + 1).contains(c2) implies up_result_upto(
                            cs0,
                            u,
                            j as int,
                        ).contains(c2) by {
                            let k = choose|k: int|
                                0 <= k < j + 1 && cs0[k].len() != 1 && !up_hit(cs0[k], u) && c2
                                    == up_reduce(cs0[k], u);
                            assert(k < j);
                        }
                    }
                }
            } else {
                proof {
                    assert(!up_hit(cs0[j as int], u)) by {
                        if up_hit(cs0[j as int], u) {
                            let k = choose|k: int|
                                0 <= k < cs0[j as int].len() && u.contains(cs0[j as int][k]);
                            assert(units@.contains(cs0[j as int][k]));
                            assert(crate::cnf::clause_sat_by(units@, cs0[j as int]));
                        }
                    }
                }
                let rc = reduce_clause(&cnf.clauses[j], &units);
                let ghost rcv = rc@;
                proof {
                    lemma_filter_props(cs0[j as int], |x: Literal| !u.contains(lit_neg(x)));
                }
                if !contains_clause(&out, &rc) {
                    out.push(rc);
                    proof {
                        assert(clauses_view(out@) =~= clauses_view(pre).push(rcv));
                        lemma_cnf_size_push(clauses_view(pre), rcv);
                    }
                }
                proof {
                    assert forall|c2: Seq<Literal>|
                        up_result_upto(cs0, u, j + 1).contains(c2) implies clauses_view(
                        out@,
                    ).contains(c2) by {
                        let k = choose|k: int|
                            0 <= k < j + 1 && cs0[k].len() != 1 && !up_hit(cs0[k], u) && c2
                                == up_reduce(cs0[k], u);
                        if k < j {
                            assert(up_result_upto(cs0, u, j as int).contains(c2));
                            assert(clauses_view(pre).contains(c2));
                            let m = choose|m: int|
                                0 <= m < pre.len() && clauses_view(pre)[m] == c2;
                            assert(clauses_view(out@)[m] == c2);
                        } else {
                            assert(c2 == rcv);
                            if clauses_view(pre).contains(rcv) {
                            } else {
                                assert(clauses_view(out@)[out@.len() - 1] == rcv);
                            }
                        }
                    }
                    assert forall|c2: Seq<Literal>|
                        clauses_view(out@).contains(c2) implies up_result_upto(
                        cs0,
                        u,
                        j + 1,
                    ).contains(c2) by {
                        let m = choose|m: int|
                            0 <= m < out@.len() && clauses_view(out@)[m] == c2;
                        if m < pre.len() {
                            assert(clauses_view(pre).contains(c2)) by {
                                assert(clauses_view(pre)[m] == c2);
                            }
                            assert(up_result_upto(cs0, u, j as int).contains(c2));
                            let k = choose|k: int|
                                0 <= k < j && cs0[k].len() != 1 && !up_hit(cs0[k], u) && c2
                                    == up_reduce(cs0[k], u);
                        } else {
                            assert(c2 == rcv);
                            assert(0 <= j < j + 1 && cs0[j as int].len() != 1 && !up_hit(
                                cs0[j as int],
                                u,
                            ) && rcv == up_reduce(cs0[j as int], u));
                        }
                    }
                    // Well-formedness of the pushed clause.
                    assert forall|k: int|
                        0 <= k < out@.len() implies sorted_strict(#[trigger] clauses_view(out@)[k])
                            && clause_vars_le(clauses_view(out@)[k], cnf.var_count as nat) by {
                        if k >= pre.len() {
                            assert(clauses_view(out@)[k] == rcv);
                            assert(sorted_strict(cs0[j as int]));
                            assert forall|m: int| 0 <= m < rcv.len() implies rcv[m].var
                                <= cnf.var_count by {
                                assert(rcv.contains(rcv[m])) by { assert(rcv[m] == rcv[m]); }
                                assert(cs0[j as int].contains(rcv[m]));
                                let n = choose|n: int|
                                    0 <= n < cs0[j as int].len() && cs0[j as int][n] == rcv[m];
                                assert(clause_vars_le(cs0[j as int], cnf.var_count as nat));
                            }
                        }
                    }
                    assert forall|k: int, m: int|
                        0 <= k < m < out@.len() implies clauses_view(out@)[k] != clauses_view(
                        out@,
                    )[m] by {
                        if m == out@.len() - 1 && out@.len() > pre.len() {
                            if clauses_view(out@)[k] == rcv {
                                assert(clauses_view(pre).contains(rcv)) by {
                                    assert(clauses_view(pre)[k] == rcv);
                                }
                            }
                        }
                    }
                    assert forall|x: Literal|
                        lit_occurs(x, clauses_view(out@)) implies lit_occurs(x, cs0) by {
                        let (a, b) = choose|a: int, b: int|
                            0 <= a < clauses_view(out@).len() && 0 <= b < clauses_view(
                                out@,
                            )[a].len() && clauses_view(out@)[a][b] == x;
                        if a < pre.len() {
                            assert(lit_occurs(x, clauses_view(pre))) by {
                                assert(clauses_view(pre)[a][b] == x);
                            }
                        } else {
                            assert(clauses_view(out@)[a] == rcv);
                            assert(rcv.contains(x)) by { assert(rcv[b] == x); }
                            assert(cs0[j as int].contains(x));
                            let n = choose|n: int|
                                0 <= n < cs0[j as int].len() && cs0[j as int][n] == x;
                            assert(lit_occurs(x, cs0)) by { assert(cs0[j as int][n] == x); }
                        }
                    }
                }
            }
            j += 1;
        }
        proof {
            assert(cs0.take(cs0.len() as int) =~= cs0);
        }
        cnf.clauses = out;
        proof {
            // The prefix result over the whole CNF is the unit-propagation
            // result of its clause set.
            assert(final(cnf)@.to_set() =~= up_result(cs0.to_set())) by {
                assert forall|c2: Seq<Literal>|
                    final(cnf)@.to_set().contains(c2) implies up_result(cs0.to_set()).contains(
                    c2,
                ) by {
                    assert(final(cnf)@.contains(c2));
                    assert(up_result_upto(cs0, u, cs0.len() as int).contains(c2));
                    let k = choose|k: int|
                        0 <= k < cs0.len() && cs0[k].len() != 1 && !up_hit(cs0[k], u) && c2
                            == up_reduce(cs0[k], u);
                    assert(cs0.to_set().contains(cs0[k])) by { assert(cs0.contains(cs0[k])); }
                }
                assert forall|c2: Seq<Literal>|
                    up_result(cs0.to_set()).contains(c2) implies final(cnf)@.to_set().contains(
                    c2,
                ) by {
                    let c = choose|c: Seq<Literal>|
                        cs0.to_set().contains(c) && c.len() != 1 && !up_hit(c, unit_lits(
                            cs0.to_set(),
                        )) && c2 == up_reduce(c, unit_lits(cs0.to_set()));
                    let k = choose|k: int| 0 <= k < cs0.len() && cs0[k] == c;
                    assert(up_result_upto(cs0, u, cs0.len() as int).contains(c2));
                    assert(final(cnf)@.contains(c2));
                    assert(final(cnf)@.to_set().contains(c2));
                }
            }
            // A non-empty unit set shrinks the size sum strictly.
            if units@.len() > 0 {
                assert(units@.contains(units@[0]));
                assert(seen);
            }
            // The forced literals occur as singleton clauses of the input.
            assert forall|x: Literal| #[trigger] units@.contains(x) implies lit_occurs(
                x,
                cs0,
            ) by {
                assert(u.contains(x));
                assert(unit_lits(cs0.to_set()).contains(x));
                assert(cs0.to_set().contains(seq![x]));
                let k = choose|k: int| 0 <= k < cs0.len() && cs0[k] == seq![x];
                assert(lit_occurs(x, cs0)) by { assert(cs0[k][0] == x); }
            }
            // Neither polarity of a forced variable survives the round.
            assert forall|x: Literal| #[trigger] units@.contains(x) implies !lit_occurs(
                x,
                final(cnf)@,
            ) && !lit_occurs(lit_neg(x), final(cnf)@) by {
                assert(u.contains(x));
                assert forall|y: Literal| y == x || y == lit_neg(x) implies !lit_occurs(
                    y,
                    final(cnf)@,
                ) by {
                    if lit_occurs(y, final(cnf)@) {
                        let (a, b) = choose|a: int, b: int|
                            0 <= a < final(cnf)@.len() && 0 <= b < final(cnf)@[a].len() && final(cnf)@[a][b] == y;
                        assert(final(cnf)@.to_set().contains(final(cnf)@[a])) by {
                            assert(final(cnf)@.contains(final(cnf)@[a]));
                        }
                        assert(up_result(cs0.to_set()).contains(final(cnf)@[a]));
                        let c = choose|c: Seq<Literal>|
                            cs0.to_set().contains(c) && c.len() != 1 && !up_hit(
                                c,
                                unit_lits(cs0.to_set()),
                            ) && final(cnf)@[a] == up_reduce(c, unit_lits(cs0.to_set()));
                        lemma_filter_props(
                            c,
                            |z: Literal| !unit_lits(cs0.to_set()).contains(lit_neg(z)),
                        );
                        assert(final(cnf)@[a].contains(y)) by {
                            assert(final(cnf)@[a][b] == y);
                        }
                        assert(c.contains(y) && !unit_lits(cs0.to_set()).contains(lit_neg(y)));
                        if y == x {
                            let m = choose|m: int| 0 <= m < c.len() && c[m] == y;
                            assert(up_hit(c, unit_lits(cs0.to_set()))) by {
                                assert(unit_lits(cs0.to_set()).contains(c[m]));
                            }
                        } else {
                            assert(lit_neg(y) == x);
                            assert(unit_lits(cs0.to_set()).contains(lit_neg(y)));
                        }
                    }
                }
            }
        }
        Ok(units)
    }

    /// Remove every tautological clause; nothing else changes and no
    /// literal is forced.
    pub fn normalize_cnf(cnf: &mut CNF)
        requires
            old(cnf).wf(),
        ensures
            final(cnf).wf(),
            final(cnf).var_count == old(cnf).var_count,
            final(cnf)@ == crate::cnf::non_taut(old(cnf)@),
            forall|c: Seq<Literal>| #[trigger] final(cnf)@.contains(c) ==> old(cnf)@.contains(c),
            cnf_size(final(cnf)@) <= cnf_size(old(cnf)@),
            forall|x: Literal| lit_occurs(x, final(cnf)@) ==> lit_occurs(x, old(cnf)@),
    {
        let ghost cs0 = cnf@;
        let mut out: Vec<Vec<Literal>> = Vec::new();
        let mut j: usize = 0;
        while j < cnf.clauses.len()
            invariant
                0 <= j <= cs0.len(),
                cnf.clauses == old(cnf).clauses,
                cnf.var_count == old(cnf).var_count,
                clauses_view(out@) == crate::cnf::non_taut(cs0.take(j as int)),
            decreases cs0.len() - j,
        {
            proof {
                assert(cs0[j as int] == cnf.clauses@[j as int]@);
            }
            let ghost pre = out@;
            if !clause_is_taut(&cnf.clauses[j]) {
                out.push(copy_clause(&cnf.clauses[j]));
                proof {
                    assert(clauses_view(out@) =~= clauses_view(pre).push(cs0[j as int]));
                }
            }
            proof {
                reveal(Seq::filter);
                let t = cs0.take(j + 1);
                assert(t.drop_last() =~= cs0.take(j as int));
                assert(t.last() == cs0[j as int]);
            }
            j += 1;
        }
        proof {
            assert(cs0.take(cs0.len() as int) =~= cs0);
        }
        cnf.clauses = out;
        proof {
            lemma_clause_filter_props(cs0, |c: Seq<Literal>| !clause_taut(c));
            assert forall|k: int|
                0 <= k < final(cnf)@.len() implies sorted_strict(#[trigger] final(cnf)@[k])
                    && clause_vars_le(final(cnf)@[k], cnf.var_count as nat) by {
                assert(final(cnf)@.contains(final(cnf)@[k])) by {
                    assert(final(cnf)@[k] == final(cnf)@[k]);
                }
                assert(cs0.contains(final(cnf)@[k]));
                let m = choose|m: int| 0 <= m < cs0.len() && cs0[m] == final(cnf)@[k];
            }
            assert forall|x: Literal| lit_occurs(x, final(cnf)@) implies lit_occurs(x, cs0) by {
                let (a, b) = choose|a: int, b: int|
                    0 <= a < final(cnf)@.len() && 0 <= b < final(cnf)@[a].len() && final(cnf)@[a][b] == x;
                assert(final(cnf)@.contains(final(cnf)@[a])) by {
                    assert(final(cnf)@[a] == final(cnf)@[a]);
                }
                assert(cs0.contains(final(cnf)@[a]));
                let m = choose|m: int| 0 <= m < cs0.len() && cs0[m] == final(cnf)@[a];
                assert(lit_occurs(x, cs0)) by { assert(cs0[m][b] == x); }
            }
        }
    }

    /// Remove every clause that holds a pure literal and return the pure
    /// literals as forced assignments, one polarity per pure variable.
    pub fn pure_literal_ellimination(cnf: &mut CNF) -> (r: Vec<Literal>)
        requires
            old(cnf).wf(),
        ensures
            final(cnf).wf(),
            final(cnf).var_count == old(cnf).var_count,
            final(cnf)@ == pure_result(old(cnf)@),
            forall|c: Seq<Literal>| #[trigger] final(cnf)@.contains(c) ==> old(cnf)@.contains(c),
            r@.to_set() == pure_lits(old(cnf)@),
            r@.no_duplicates(),
            forall|x: Literal| #[trigger] r@.contains(x) ==> lit_occurs(x, old(cnf)@),
            forall|x: Literal| #[trigger]
                r@.contains(x) ==> !lit_occurs(x, final(cnf)@) && !lit_occurs(
                    lit_neg(x),
                    final(cnf)@,
                ),
            forall|x: Literal| #[trigger] r@.contains(x) ==> !r@.contains(lit_neg(x)),
            cnf_size(final(cnf)@) <= cnf_size(old(cnf)@),
            r@.len() > 0 ==> cnf_size(final(cnf)@) < cnf_size(old(cnf)@),
            forall|x: Literal| lit_occurs(x, final(cnf)@) ==> lit_occurs(x, old(cnf)@),
    {
        let ghost cs0 = cnf@;
        // Pass 1: every literal that occurs, first occurrence first.
        let mut all: Vec<Literal> = Vec::new();
        let mut i: usize = 0;
        while i < cnf.clauses.len()
            invariant
                0 <= i <= cs0.len(),
                cnf.clauses == old(cnf).clauses,
                cnf.var_count == old(cnf).var_count,
                forall|l: Literal|
                    #![trigger all@.contains(l)]
                    #![trigger lit_occurs(l, cs0.take(i as int))]
                    all@.contains(l) <==> lit_occurs(l, cs0.take(i as int)),
                all@.no_duplicates(),
            decreases cs0.len() - i,
        {
            proof {
                assert(cs0[i as int] == cnf.clauses@[i as int]@);
            }
            let clause_len = cnf.clauses[i].len();
            let mut k: usize = 0;
            while k < clause_len
                invariant
                    0 <= k <= cs0[i as int].len(),
                    0 <= i < cs0.len(),
                    clause_len == cs0[i as int].len(),
                    cnf.clauses == old(cnf).clauses,
                    cnf.var_count == old(cnf).var_count,
                    forall|l: Literal|
                        #![trigger all@.contains(l)]
                        all@.contains(l) <==> (lit_occurs(l, cs0.take(i as int)) || cs0[
                            i as int
                        ].take(k as int).contains(l)),
                    all@.no_duplicates(),
                decreases cs0[i as int].len() - k,
            {
                proof {
                    assert(cs0[i as int] == cnf.clauses@[i as int]@);
                }
                let x = cnf.clauses[i][k];
                let ghost pa = all@;
                if !clause_contains(&all, x) {
                    all.push(x);
                }
                proof {
                    let tk = cs0[i as int].take(k + 1);
                    assert(forall|m: int|
                        0 <= m < k ==> tk[m] == cs0[i as int].take(k as int)[m]);
                    assert(tk[k as int] == x);
                    assert forall|l: Literal| #[trigger]
                        all@.contains(l) implies (lit_occurs(l, cs0.take(i as int)) || tk.contains(
                        l,
                    )) by {
                        if pa.contains(l) {
                            if cs0[i as int].take(k as int).contains(l) {
                                let m = choose|m: int|
                                    0 <= m < k && cs0[i as int].take(k as int)[m] == l;
                                assert(tk.contains(l)) by { assert(tk[m] == l); }
                            }
                        } else {
                            let m = choose|m: int| 0 <= m < all@.len() && all@[m] == l;
                            assert(m == all@.len() - 1 && l == x);
                            assert(tk.contains(l)) by { assert(tk[k as int] == l); }
                        }
                    }
                    assert forall|l: Literal|
                        (lit_occurs(l, cs0.take(i as int)) || tk.contains(l)) implies #[trigger]
                        all@.contains(l) by {
                        if lit_occurs(l, cs0.take(i as int)) {
                            assert(pa.contains(l));
                            let m = choose|m: int| 0 <= m < pa.len() && pa[m] == l;
                            assert(all@.contains(l)) by { assert(all@[m] == l); }
                        } else {
                            let m = choose|m: int| 0 <= m < tk.len() && tk[m] == l;
                            if m < k {
                                assert(cs0[i as int].take(k as int).contains(l)) by {
                                    assert(cs0[i as int].take(k as int)[m] == l);
                                }
                                assert(pa.contains(l));
                                let n = choose|n: int| 0 <= n < pa.len() && pa[n] == l;
                                assert(all@.contains(l)) by { assert(all@[n] == l); }
                            } else {
                                assert(l == x);
                                if pa.contains(x) {
                                    let n = choose|n: int| 0 <= n < pa.len() && pa[n] == x;
                                    assert(all@.contains(l)) by { assert(all@[n] == x); }
                                } else {
                                    assert(all@.contains(l)) by {
                                        assert(all@[all@.len() - 1] == x);
                                    }
                                }
                            }
                        }
                    }
                    if !pa.contains(x) {
                        assert(all@.no_duplicates()) by {
                            assert forall|a: int, b: int|
                                0 <= a < b < all@.len() implies all@[a] != all@[b] by {
                                if b == all@.len() - 1 {
                                    if all@[a] == x {
                                        assert(pa.contains(x)) by { assert(pa[a] == x); }
                                    }
                                }
                            }
                        }
                    }
                }
                k += 1;
            }
            proof {
                assert(cs0[i as int].take(cs0[i as int].len() as int) =~= cs0[i as int]);
                let t1 = cs0.take(i + 1);
                assert(forall|m: int| 0 <= m < i ==> t1[m] == cs0.take(i as int)[m]);
                assert(t1[i as int] == cs0[i as int]);
                assert forall|l: Literal| #[trigger]
                    all@.contains(l) implies lit_occurs(l, t1) by {
                    if lit_occurs(l, cs0.take(i as int)) {
                        let (a, b) = choose|a: int, b: int|
                            0 <= a < i && 0 <= b < cs0.take(i as int)[a].len() && cs0.take(
                                i as int,
                            )[a][b] == l;
                        assert(lit_occurs(l, t1)) by { assert(t1[a][b] == l); }
                    } else {
                        let b = choose|b: int|
                            0 <= b < cs0[i as int].len() && cs0[i as int][b] == l;
                        assert(lit_occurs(l, t1)) by { assert(t1[i as int][b] == l); }
                    }
                }
                assert forall|l: Literal| lit_occurs(l, t1) implies #[trigger] all@.contains(
                    l,
                ) by {
                    let (a, b) = choose|a: int, b: int|
                        0 <= a < t1.len() && 0 <= b < t1[a].len() && t1[a][b] == l;
                    if a < i {
                        assert(lit_occurs(l, cs0.take(i as int))) by {
                            assert(cs0.take(i as int)[a][b] == l);
                        }
                    } else {
                        assert(cs0[i as int].contains(l)) by { assert(cs0[i as int][b] == l); }
                        assert(cs0[i as int].take(cs0[i as int].len() as int).contains(l));
                    }
                }
            }
            i += 1;
        }
        proof {
            assert(cs0.take(cs0.len() as int) =~= cs0);
        }
        // Pass 2: keep the literals whose negation never occurs.
        let mut pure: Vec<Literal> = Vec::new();
        let mut m: usize = 0;
        while m < all.len()
            invariant
                0 <= m <= all@.len(),
                cnf.clauses == old(cnf).clauses,
                cnf.var_count == old(cnf).var_count,
                forall|l: Literal| #[trigger] all@.contains(l) <==> lit_occurs(l, cs0),
                all@.no_duplicates(),
                forall|l: Literal| #[trigger]
                    pure@.contains(l) <==> (all@.take(m as int).contains(l) && !lit_occurs(
                        lit_neg(l),
                        cs0,
                    )),
                pure@.no_duplicates(),
            decreases all@.len() - m,
        {
            let x = all[m];
            let ghost pp = pure@;
            if !lit_in_clauses(&cnf.clauses, x.neg()) {
                proof {
                    if pp.contains(x) {
                        assert(all@.take(m as int).contains(x));
                        let n = choose|n: int| 0 <= n < m && all@.take(m as int)[n] == x;
                        assert(all@[n] == all@[m as int]);
                    }
                }
                pure.push(x);
            }
            proof {
                let tm = all@.take(m + 1);
                assert(forall|n: int| 0 <= n < m ==> tm[n] == all@.take(m as int)[n]);
                assert(tm[m as int] == x);
                assert forall|l: Literal| #[trigger]
                    pure@.contains(l) implies (tm.contains(l) && !lit_occurs(lit_neg(l), cs0)) by {
                    let n = choose|n: int| 0 <= n < pure@.len() && pure@[n] == l;
                    if n < pp.len() {
                        assert(pp.contains(l)) by { assert(pp[n] == l); }
                        assert(all@.take(m as int).contains(l));
                        let q = choose|q: int| 0 <= q < m && all@.take(m as int)[q] == l;
                        assert(tm.contains(l)) by { assert(tm[q] == l); }
                    } else {
                        assert(l == x);
                        assert(tm.contains(l)) by { assert(tm[m as int] == l); }
                    }
                }
                assert forall|l: Literal|
                    tm.contains(l) && !lit_occurs(lit_neg(l), cs0) implies #[trigger]
                    pure@.contains(l) by {
                    let n = choose|n: int| 0 <= n < tm.len() && tm[n] == l;
                    if n < m {
                        assert(all@.take(m as int).contains(l)) by {
                            assert(all@.take(m as int)[n] == l);
                        }
                        assert(pp.contains(l));
                        let q = choose|q: int| 0 <= q < pp.len() && pp[q] == l;
                        assert(pure@.contains(l)) by { assert(pure@[q] == l); }
                    } else {
                        assert(l == x);
                        assert(pure@.contains(l)) by { assert(pure@[pure@.len() - 1] == l); }
                    }
                }
                if pure@.len() > pp.len() {
                    assert(pure@.no_duplicates()) by {
                        assert forall|a: int, b: int|
                            0 <= a < b < pure@.len() implies pure@[a] != pure@[b] by {
                            if b == pure@.len() - 1 {
                                if pure@[a] == x {
                                    assert(pp.contains(x)) by { assert(pp[a] == x); }
                                    assert(all@.take(m as int).contains(x));
                                    let q = choose|q: int|
                                        0 <= q < m && all@.take(m as int)[q] == x;
                                    assert(all@[q] == all@[m as int]);
                                }
                            }
                        }
                    }
                }
            }
            m += 1;
        }
        proof {
            assert(all@.take(all@.len() as int) =~= all@);
            assert(pure@.to_set() =~= pure_lits(cs0)) by {
                assert forall|l: Literal| #[trigger] pure@.to_set().contains(l) implies pure_lits(
                    cs0,
                ).contains(l) by {
                    assert(pure@.contains(l));
                    assert(all@.contains(l));
                }
                assert forall|l: Literal| pure_lits(cs0).contains(l) implies #[trigger]
                    pure@.to_set().contains(l) by {
                    assert(lit_occurs(l, cs0));
                    assert(all@.contains(l));
                    assert(pure@.contains(l));
                }
            }
        }
        // Pass 3: drop every clause that a pure literal satisfies.
        let mut out: Vec<Vec<Literal>> = Vec::new();
        let ghost mut dropped: bool = false;
        let mut j: usize = 0;
        while j < cnf.clauses.len()
            invariant
                0 <= j <= cs0.len(),
                cnf.clauses == old(cnf).clauses,
                cnf.var_count == old(cnf).var_count,
                pure@.to_set() == pure_lits(cs0),
                clauses_view(out@) == cs0.take(j as int).filter(
                    |c: Seq<Literal>| !clause_has_pure(c, cs0),
                ),
                dropped == exists|k: int| 0 <= k < j && clause_has_pure(#[trigger] cs0[k], cs0),
                cnf_size(clauses_view(out@)) + (if dropped {
                    1nat
                } else {
                    0nat
                }) <= cnf_size(cs0.take(j as int)),
            decreases cs0.len() - j,
        {
            proof {
                assert(cs0[j as int] == cnf.clauses@[j as int]@);
                lemma_cnf_size_take_step(cs0, j as int);
            }
            let ghost pre = out@;
            if !clause_hit(&pure, &cnf.clauses[j]) {
                proof {
                    if clause_has_pure(cs0[j as int], cs0) {
                        let k = choose|k: int|
                            0 <= k < cs0[j as int].len() && pure_lits(cs0).contains(
                                cs0[j as int][k],
                            );
                        assert(pure@.to_set().contains(cs0[j as int][k]));
                        assert(pure@.contains(cs0[j as int][k]));
                        assert(crate::cnf::clause_sat_by(pure@, cs0[j as int]));
                    }
                }
                out.push(copy_clause(&cnf.clauses[j]));
                proof {
                    assert(clauses_view(out@) =~= clauses_view(pre).push(cs0[j as int]));
                    lemma_cnf_size_push(clauses_view(pre), cs0[j as int]);
                }
            } else {
                proof {
                    let k = choose|k: int|
                        0 <= k < cs0[j as int].len() && pure@.contains(cs0[j as int][k]);
                    assert(pure@.to_set().contains(cs0[j as int][k]));
                    assert(clause_has_pure(cs0[j as int], cs0));
                    dropped = true;
                }
            }
            proof {
                reveal(Seq::filter);
                let t = cs0.take(j + 1);
                assert(t.drop_last() =~= cs0.take(j as int));
                assert(t.last() == cs0[j as int]);
            }
            j += 1;
        }
        proof {
            assert(cs0.take(cs0.len() as int) =~= cs0);
        }
        cnf.clauses = out;
        proof {
            lemma_clause_filter_props(cs0, |c: Seq<Literal>| !clause_has_pure(c, cs0));
            assert forall|k: int|
                0 <= k < final(cnf)@.len() implies sorted_strict(#[trigger] final(cnf)@[k])
                    && clause_vars_le(final(cnf)@[k], cnf.var_count as nat) by {
                assert(final(cnf)@.contains(final(cnf)@[k])) by {
                    assert(final(cnf)@[k] == final(cnf)@[k]);
                }
                assert(cs0.contains(final(cnf)@[k]));
                let q = choose|q: int| 0 <= q < cs0.len() && cs0[q] == final(cnf)@[k];
            }
            assert forall|x: Literal| lit_occurs(x, final(cnf)@) implies lit_occurs(x, cs0) by {
                let (a, b) = choose|a: int, b: int|
                    0 <= a < final(cnf)@.len() && 0 <= b < final(cnf)@[a].len() && final(cnf)@[a][b] == x;
                assert(final(cnf)@.contains(final(cnf)@[a])) by {
                    assert(final(cnf)@[a] == final(cnf)@[a]);
                }
                assert(cs0.contains(final(cnf)@[a]));
                let q = choose|q: int| 0 <= q < cs0.len() && cs0[q] == final(cnf)@[a];
                assert(lit_occurs(x, cs0)) by { assert(cs0[q][b] == x); }
            }
            if pure@.len() > 0 {
                assert(pure@.contains(pure@[0]));
                assert(pure@.to_set().contains(pure@[0]));
                assert(pure_lits(cs0).contains(pure@[0]));
                assert(lit_occurs(pure@[0], cs0));
                let (a, b) = choose|a: int, b: int|
                    0 <= a < cs0.len() && 0 <= b < cs0[a].len() && cs0[a][b] == pure@[0];
                assert(clause_has_pure(cs0[a], cs0)) by {
                    assert(pure_lits(cs0).contains(cs0[a][b]));
                }
                assert(dropped);
            }
            // A pure literal occurs, its negation nowhere; and the pure
            // variable is gone from the result.
            assert forall|x: Literal| #[trigger] pure@.contains(x) implies lit_occurs(x, cs0)
                && !pure@.contains(lit_neg(x)) by {
                assert(pure@.to_set().contains(x));
                assert(pure_lits(cs0).contains(x));
                if pure@.contains(lit_neg(x)) {
                    assert(pure@.to_set().contains(lit_neg(x)));
                    assert(pure_lits(cs0).contains(lit_neg(x)));
                    assert(lit_occurs(lit_neg(x), cs0));
                }
            }
            assert forall|x: Literal| #[trigger] pure@.contains(x) implies !lit_occurs(
                x,
                final(cnf)@,
            ) && !lit_occurs(lit_neg(x), final(cnf)@) by {
                assert(pure@.to_set().contains(x));
                assert(pure_lits(cs0).contains(x));
                assert forall|y: Literal| y == x || y == lit_neg(x) implies !lit_occurs(
                    y,
                    final(cnf)@,
                ) by {
                    if lit_occurs(y, final(cnf)@) {
                        let (a, b) = choose|a: int, b: int|
                            0 <= a < final(cnf)@.len() && 0 <= b < final(cnf)@[a].len() && final(cnf)@[a][b] == y;
                        assert(final(cnf)@.contains(final(cnf)@[a])) by {
                            assert(final(cnf)@[a] == final(cnf)@[a]);
                        }
                        assert(cs0.contains(final(cnf)@[a]) && !clause_has_pure(
                            final(cnf)@[a],
                            cs0,
                        ));
                        let q = choose|q: int| 0 <= q < cs0.len() && cs0[q] == final(cnf)@[a];
                        if y == x {
                            assert(clause_has_pure(final(cnf)@[a], cs0)) by {
                                assert(pure_lits(cs0).contains(final(cnf)@[a][b]));
                            }
                        } else {
                            assert(lit_occurs(lit_neg(x), cs0)) by {
                                assert(cs0[q][b] == lit_neg(x));
                            }
                        }
                    }
                }
            }
        }
        pure
    }

    /// The clause with every occurrence of the literal removed.
    pub fn remove_literal(clause: &Vec<Literal>, literal: Literal) -> (r: Vec<Literal>)
        ensures
            r@ == clause@.filter(|x: Literal| x != literal),
            forall|y: Literal| #[trigger] r@.contains(y) <==> (clause@.contains(y) && y != literal),
            sorted_strict(clause@) ==> sorted_strict(r@),
    {
        let ghost pred = |x: Literal| x != literal;
        let mut r: Vec<Literal> = Vec::new();
        let mut j: usize = 0;
        while j < clause.len()
            invariant
                0 <= j <= clause@.len(),
                r@ == clause@.take(j as int).filter(|x: Literal| x != literal),
            decreases clause@.len() - j,
        {
            if clause[j] != literal {
                r.push(clause[j]);
            }
            proof {
                reveal(Seq::filter);
                let t = clause@.take(j + 1);
                assert(t.drop_last() =~= clause@.take(j as int));
                assert(t.last() == clause@[j as int]);
            }
            j += 1;
        }
        proof {
            assert(clause@.take(clause@.len() as int) =~= clause@);
            lemma_filter_props(clause@, |x: Literal| x != literal);
        }
        r
    }

    /// One elimination round: collect every resolvent over the pivot,
    /// drop the clauses holding either polarity of it, insert the
    /// resolvents, and report whether any resolvent was collected. The
    /// round keeps every model, keeps satisfiability in the other
    /// direction too, only reuses the input's literals, and on a
    /// tautology-free input removes the pivot's variable entirely.
    #[verifier::spinoff_prover]
    #[verifier::rlimit(100)]
    fn dp_round(cnf: &mut CNF, l: Literal) -> (r: bool)
        requires
            old(cnf).wf(),
        ensures
            final(cnf).wf(),
            final(cnf).var_count == old(cnf).var_count,
            entails(old(cnf)@, final(cnf)@),
            forall|v: spec_fn(int) -> bool| #[trigger]
                val_sat_cnf(v, final(cnf)@) ==> exists|v2: spec_fn(int) -> bool|
                    val_sat_cnf(v2, old(cnf)@),
            forall|x: Literal| lit_occurs(x, final(cnf)@) ==> lit_occurs(x, old(cnf)@),
            (forall|i: int| 0 <= i < old(cnf)@.len() ==> !clause_taut(#[trigger] old(cnf)@[i]))
                ==> forall|x: Literal| lit_occurs(x, final(cnf)@) ==> x.var != l.var,
    {
        let ghost pre = cnf@;
        let mut new_clauses: Vec<Vec<Literal>> = Vec::new();
        let mut ai: usize = 0;
        while ai < cnf.clauses.len()
            invariant
                0 <= ai <= cnf.clauses@.len(),
                cnf.wf(),
                pre == cnf@,
                cnf.var_count == old(cnf).var_count,
                dp_resolvents_ok(new_clauses@, pre, l, cnf.var_count as nat),
                dp_resolvents_complete(new_clauses@, pre, l, ai as int, pre.len() as int),
            decreases cnf.clauses@.len() - ai,
        {
            let mut bi: usize = 0;
            while bi < cnf.clauses.len()
                invariant
                    0 <= ai < cnf.clauses@.len(),
                    0 <= bi <= cnf.clauses@.len(),
                    cnf.wf(),
                    pre == cnf@,
                    cnf.var_count == old(cnf).var_count,
                    dp_resolvents_ok(new_clauses@, pre, l, cnf.var_count as nat),
                    dp_resolvents_complete(new_clauses@, pre, l, ai as int, pre.len() as int),
                    forall|y: int|
                        #![trigger pre[y]]
                        0 <= y < bi && pre[ai as int].contains(l) && pre[y].contains(lit_neg(l))
                            && !(pre[ai as int].contains(lit_neg(l)) && pre[y].contains(l))
                            ==> exists|k: int|
                            0 <= k < new_clauses@.len() && (
                            #[trigger] new_clauses@[k]@).to_set() == resolvent_set(
                                pre[ai as int],
                                pre[y],
                                l,
                            ),
                decreases cnf.clauses@.len() - bi,
            {
                let a = copy_clause(&cnf.clauses[ai]);
                let b = copy_clause(&cnf.clauses[bi]);
                let ghost av = a@;
                let ghost bv = b@;
                let ghost before_iter = new_clauses@;
                proof {
                    assert(av == pre[ai as int]);
                    assert(bv == pre[bi as int]);
                    assert(pre.contains(av)) by { assert(pre[ai as int] == av); }
                    assert(pre.contains(bv)) by { assert(pre[bi as int] == bv); }
                }
                match Self::resolute(a, b, l) {
                    None => {
                        proof {
                            assert(!(av.contains(l) && bv.contains(lit_neg(l))));
                            lemma_pairs_extend(
                                before_iter,
                                new_clauses@,
                                pre,
                                l,
                                ai as int,
                                bi as int,
                            );
                        }
                    },
                    Some(res) => {
                        let ghost pn = new_clauses@;
                        proof {
                            assert forall|k: int|
                                0 <= k < res@.len() implies (#[trigger] res@[k]).var
                                <= cnf.var_count by {
                                assert(res@.to_set().contains(res@[k])) by {
                                    assert(res@.contains(res@[k]));
                                }
                                if av.to_set().remove(l).contains(res@[k]) || av.to_set().remove(
                                    lit_neg(l),
                                ).contains(res@[k]) {
                                    assert(av.contains(res@[k]));
                                    let q = choose|q: int|
                                        0 <= q < av.len() && av[q] == res@[k];
                                    assert(clause_vars_le(
                                        cnf@[ai as int],
                                        cnf.var_count as nat,
                                    ));
                                } else {
                                    assert(bv.contains(res@[k]));
                                    let q = choose|q: int|
                                        0 <= q < bv.len() && bv[q] == res@[k];
                                    assert(clause_vars_le(
                                        cnf@[bi as int],
                                        cnf.var_count as nat,
                                    ));
                                }
                            }
                        }
                        new_clauses.push(res);
                        proof {
                            assert forall|m: int|
                                0 <= m < new_clauses@.len() implies sorted_strict(
                                #[trigger] new_clauses@[m]@,
                            ) && clause_vars_le(new_clauses@[m]@, cnf.var_count as nat)
                                && exists|c1: Seq<Literal>, c2: Seq<Literal>|
                                pre.contains(c1) && pre.contains(c2) && c1.contains(l)
                                    && c2.contains(lit_neg(l)) && new_clauses@[m]@.to_set()
                                    == resolvent_set(c1, c2, l) by {
                                if m < pn.len() {
                                    assert(new_clauses@[m] == pn[m]);
                                    assert(dp_resolvents_ok(pn, pre, l, cnf.var_count as nat));
                                } else {
                                    assert(new_clauses@[m]@ == res@);
                                    if av.contains(lit_neg(l)) && bv.contains(l) {
                                        assert(pre.contains(bv) && pre.contains(av)
                                            && bv.contains(l) && av.contains(lit_neg(l))
                                            && res@.to_set() == resolvent_set(bv, av, l));
                                    } else {
                                        assert(pre.contains(av) && pre.contains(bv)
                                            && av.contains(l) && bv.contains(lit_neg(l))
                                            && res@.to_set() == resolvent_set(av, bv, l));
                                    }
                                }
                            }
                            if av.contains(l) && bv.contains(lit_neg(l)) && !(av.contains(
                                lit_neg(l),
                            ) && bv.contains(l)) {
                                assert(new_clauses@[new_clauses@.len() - 1]@.to_set()
                                    == resolvent_set(av, bv, l));
                            }
                            lemma_pairs_extend(
                                before_iter,
                                new_clauses@,
                                pre,
                                l,
                                ai as int,
                                bi as int,
                            );
                        }
                    },
                }
                bi += 1;
            }
            proof {
                lemma_pairs_row_done(new_clauses@, pre, l, ai as int);
            }
            ai += 1;
        }
        let produced = new_clauses.len() > 0;
        let ghost round_vc = cnf.var_count as nat;
        cnf.remove_clauses_with_literal(l);
        let ghost mid_vc = cnf.var_count as nat;
        let ghost mid_cs = cnf@;
        cnf.add_clauses(&new_clauses);
        proof {
            assert(dp_resolvents_ok(new_clauses@, pre, l, round_vc));
            lemma_dp_round_shape(pre, mid_cs, cnf@, new_clauses@, l, round_vc);
            assert(cnf.var_count as nat == mid_vc) by {
                assert(forall|k: int|
                    0 <= k < new_clauses@.len() ==> clause_vars_le(
                        (#[trigger] new_clauses@[k])@,
                        mid_vc,
                    )) by {
                    assert(dp_resolvents_ok(new_clauses@, pre, l, mid_vc));
                }
            }
            // Forward: every model of the input satisfies survivors and
            // resolvents alike.
            assert forall|v: spec_fn(int) -> bool| #[trigger]
                val_sat_cnf(v, old(cnf)@) implies val_sat_cnf(v, cnf@) by {
                assert forall|m: int| 0 <= m < cnf@.len() implies val_sat_clause(
                    v,
                    cnf@[m],
                ) by {
                    let c = cnf@[m];
                    assert(cnf@.contains(c)) by { assert(cnf@[m] == c); }
                    if pre.contains(c) {
                        let q = choose|q: int| 0 <= q < pre.len() && pre[q] == c;
                        assert(val_sat_clause(v, pre[q]));
                    } else {
                        let k = choose|k: int|
                            0 <= k < new_clauses@.len() && norm_clause(
                                #[trigger] new_clauses@[k]@,
                            ) == c;
                        let (c1, c2) = choose|c1: Seq<Literal>, c2: Seq<Literal>|
                            pre.contains(c1) && pre.contains(c2) && c1.contains(l) && c2.contains(
                                lit_neg(l),
                            ) && new_clauses@[k]@.to_set() == resolvent_set(c1, c2, l);
                        let q1 = choose|q1: int| 0 <= q1 < pre.len() && pre[q1] == c1;
                        let q2 = choose|q2: int| 0 <= q2 < pre.len() && pre[q2] == c2;
                        assert(val_sat_clause(v, c1) && val_sat_clause(v, c2));
                        lemma_resolution_correct(c1, c2, l, new_clauses@[k]@, v);
                        crate::cnf::lemma_norm_clause(new_clauses@[k]@);
                        lemma_val_sat_same_set(new_clauses@[k]@, c, v);
                    }
                }
            }
            // Backward: a model of the result extends to one of the
            // input by choosing the pivot's value.
            assert(dp_news_stored(new_clauses@, cnf@)) by {
                assert forall|k: int|
                    0 <= k < new_clauses@.len() implies stored_set_of(
                    cnf@,
                    #[trigger] new_clauses@[k]@,
                ) by {
                    crate::cnf::lemma_norm_clause(new_clauses@[k]@);
                    let c = norm_clause(new_clauses@[k]@);
                    assert(cnf@.contains(c));
                    assert(c.to_set() == new_clauses@[k]@.to_set());
                    assert(cnf@.contains(c) && c.to_set() == new_clauses@[k]@.to_set());
                }
            }
            assert forall|v: spec_fn(int) -> bool| #[trigger]
                val_sat_cnf(v, cnf@) implies exists|v2: spec_fn(int) -> bool|
                val_sat_cnf(v2, pre) by {
                lemma_dp_step_backward(pre, mid_cs, cnf@, new_clauses@, l, v);
            }
        }
        produced
    }

    /// Eliminate variables by resolution, in first-occurrence order:
    /// for each literal in turn, form every resolvent over it, drop the
    /// clauses that mention its variable and insert the resolvents;
    /// stop after the first literal that produced any resolvent. The
    /// result is equisatisfiable with the input: every model survives,
    /// and a model of the result yields one of the input.
    pub fn davis_putnam_procedure(cnf: &mut CNF)
        requires
            old(cnf).wf(),
        ensures
            final(cnf).wf(),
            final(cnf).var_count == old(cnf).var_count,
            entails(old(cnf)@, final(cnf)@),
            forall|v: spec_fn(int) -> bool| #[trigger]
                val_sat_cnf(v, final(cnf)@) ==> exists|v2: spec_fn(int) -> bool|
                    val_sat_cnf(v2, old(cnf)@),
            (forall|i: int| 0 <= i < old(cnf)@.len() ==> !clause_taut(#[trigger] old(cnf)@[i]))
                && old(cnf)@.len() > 0 && old(cnf)@[0].len() > 0 ==> forall|x: Literal|
                lit_occurs(x, final(cnf)@) ==> x.var != old(cnf)@[0][0].var,
    {
        let ghost taut_free = forall|i: int|
            0 <= i < old(cnf)@.len() ==> !clause_taut(#[trigger] old(cnf)@[i]);
        let ghost headed = old(cnf)@.len() > 0 && old(cnf)@[0].len() > 0;
        // Collect the literals that occur, first occurrence first.
        let mut lits: Vec<Literal> = Vec::new();
        let mut i: usize = 0;
        while i < cnf.clauses.len()
            invariant
                0 <= i <= cnf.clauses@.len(),
                cnf.clauses == old(cnf).clauses,
                cnf.var_count == old(cnf).var_count,
                i == 0 ==> lits@.len() == 0,
                headed && i > 0 ==> lits@.len() > 0 && lits@[0] == old(cnf)@[0][0],
            decreases cnf.clauses@.len() - i,
        {
            let mut k: usize = 0;
            let clause_len = cnf.clauses[i].len();
            while k < clause_len
                invariant
                    0 <= i < cnf.clauses@.len(),
                    0 <= k <= cnf.clauses@[i as int]@.len(),
                    clause_len == cnf.clauses@[i as int]@.len(),
                    cnf.clauses == old(cnf).clauses,
                    cnf.var_count == old(cnf).var_count,
                    i == 0 && k == 0 ==> lits@.len() == 0,
                    headed && (i > 0 || k > 0) ==> lits@.len() > 0 && lits@[0] == old(
                        cnf,
                    )@[0][0],
                decreases clause_len - k,
            {
                let x = cnf.clauses[i][k];
                proof {
                    if i == 0 && k == 0 {
                        assert(x == old(cnf)@[0][0]);
                    }
                }
                let ghost pre_lits = lits@;
                if !clause_contains(&lits, x) {
                    lits.push(x);
                }
                proof {
                    if headed && i == 0 && k == 0 {
                        assert(pre_lits.len() == 0);
                        assert(lits@[0] == x);
                    }
                }
                k += 1;
            }
            i += 1;
        }
        // Run one round per literal until a round yields resolvents.
        let mut done = false;
        let mut li: usize = 0;
        while li < lits.len() && !done
            invariant
                0 <= li <= lits@.len(),
                cnf.wf(),
                cnf.var_count == old(cnf).var_count,
                entails(old(cnf)@, cnf@),
                forall|v: spec_fn(int) -> bool| #[trigger]
                    val_sat_cnf(v, cnf@) ==> exists|v2: spec_fn(int) -> bool|
                        val_sat_cnf(v2, old(cnf)@),
                headed ==> lits@.len() > 0 && lits@[0] == old(cnf)@[0][0],
                li == 0 ==> cnf@ == old(cnf)@,
                done ==> li >= 1,
                taut_free && headed && li > 0 ==> forall|x: Literal|
                    lit_occurs(x, cnf@) ==> x.var != old(cnf)@[0][0].var,
            decreases lits@.len() - li,
        {
            let l = lits[li];
            let ghost pre = cnf@;
            let produced = Self::dp_round(cnf, l);
            if produced {
                done = true;
            }
            proof {
                // Chain the forward entailment.
                assert forall|v: spec_fn(int) -> bool| #[trigger]
                    val_sat_cnf(v, old(cnf)@) implies val_sat_cnf(v, cnf@) by {
                    assert(val_sat_cnf(v, pre));
                }
                // Chain the backward satisfiability transfer.
                assert forall|v: spec_fn(int) -> bool| #[trigger]
                    val_sat_cnf(v, cnf@) implies exists|v2: spec_fn(int) -> bool|
                    val_sat_cnf(v2, old(cnf)@) by {
                    let v1 = choose|v1: spec_fn(int) -> bool| val_sat_cnf(v1, pre);
                    assert(val_sat_cnf(v1, pre));
                }
                // Chain the first variable's elimination.
                if taut_free && headed {
                    if li == 0 {
                        assert(pre == old(cnf)@);
                        assert(l == lits@[0]);
                        assert(forall|x: Literal|
                            lit_occurs(x, cnf@) ==> x.var != old(cnf)@[0][0].var);
                    } else {
                        assert forall|x: Literal|
                            lit_occurs(x, cnf@) implies x.var != old(cnf)@[0][0].var by {
                            assert(lit_occurs(x, pre));
                        }
                    }
                }
            }
            li += 1;
        }
    }

    /// Partition the clauses touching `l` into the two residual lists:
    /// clauses holding `l` with `l` removed, and clauses holding its
    /// negation with the negation removed. The CNF itself is not changed.
    pub fn evaluate_on_literal(cnf: &CNF, l: Literal) -> (r: (Vec<Vec<Literal>>, Vec<Vec<Literal>>))
        requires
            cnf.wf(),
        ensures
            forall|c2: Seq<Literal>|
                #![trigger clauses_view(r.0@).contains(c2)]
                clauses_view(r.0@).contains(c2) <==> exists|c: Seq<Literal>|
                    #[trigger] cnf@.contains(c) && c.contains(l) && c2 == c.filter(
                        |x: Literal| x != l,
                    ),
            forall|c2: Seq<Literal>|
                #![trigger clauses_view(r.1@).contains(c2)]
                clauses_view(r.1@).contains(c2) <==> exists|c: Seq<Literal>|
                    #[trigger] cnf@.contains(c) && c.contains(lit_neg(l)) && !c.contains(l) && c2
                        == c.filter(|x: Literal| x != lit_neg(l)),
            forall|k: int|
                0 <= k < r.0@.len() ==> sorted_strict(#[trigger] clauses_view(r.0@)[k]),
            forall|k: int|
                0 <= k < r.1@.len() ==> sorted_strict(#[trigger] clauses_view(r.1@)[k]),
    {
        let ghost cs0 = cnf@;
        let mut pos: Vec<Vec<Literal>> = Vec::new();
        let mut neg: Vec<Vec<Literal>> = Vec::new();
        let mut i: usize = 0;
        while i < cnf.clauses.len()
            invariant
                0 <= i <= cs0.len(),
                cs0 == cnf@,
                cnf.wf(),
                forall|c2: Seq<Literal>|
                    #![trigger clauses_view(pos@).contains(c2)]
                    clauses_view(pos@).contains(c2) <==> exists|k: int|
                        0 <= k < i && (#[trigger] cs0[k]).contains(l) && c2 == cs0[k].filter(
                            |x: Literal| x != l,
                        ),
                forall|c2: Seq<Literal>|
                    #![trigger clauses_view(neg@).contains(c2)]
                    clauses_view(neg@).contains(c2) <==> exists|k: int|
                        0 <= k < i && (#[trigger] cs0[k]).contains(lit_neg(l)) && !cs0[k].contains(
                            l,
                        ) && c2 == cs0[k].filter(|x: Literal| x != lit_neg(l)),
                forall|k: int|
                    0 <= k < pos@.len() ==> sorted_strict(#[trigger] clauses_view(pos@)[k]),
                forall|k: int|
                    0 <= k < neg@.len() ==> sorted_strict(#[trigger] clauses_view(neg@)[k]),
            decreases cs0.len() - i,
        {
            proof {
                assert(cs0[i as int] == cnf.clauses@[i as int]@);
            }
            let ghost ppos = pos@;
            let ghost pneg = neg@;
            if clause_contains(&cnf.clauses[i], l) {
                let rm = Self::remove_literal(&cnf.clauses[i], l);
                pos.push(rm);
                proof {
                    assert(clauses_view(pos@) =~= clauses_view(ppos).push(
                        cs0[i as int].filter(|x: Literal| x != l),
                    ));
                    assert forall|c2: Seq<Literal>|
                        clauses_view(pos@).contains(c2) implies exists|k: int|
                        0 <= k < i + 1 && (#[trigger] cs0[k]).contains(l) && c2 == cs0[k].filter(
                            |x: Literal| x != l,
                        ) by {
                        let m = choose|m: int|
                            0 <= m < pos@.len() && clauses_view(pos@)[m] == c2;
                        if m < ppos.len() {
                            assert(clauses_view(ppos).contains(c2)) by {
                                assert(clauses_view(ppos)[m] == c2);
                            }
                        } else {
                            assert(0 <= i < i + 1 && cs0[i as int].contains(l) && c2 == cs0[
                                i as int
                            ].filter(|x: Literal| x != l));
                        }
                    }
                    assert forall|c2: Seq<Literal>|
                        (exists|k: int|
                            0 <= k < i + 1 && (#[trigger] cs0[k]).contains(l) && c2 == cs0[
                                k
                            ].filter(|x: Literal| x != l)) implies clauses_view(pos@).contains(
                        c2,
                    ) by {
                        let k = choose|k: int|
                            0 <= k < i + 1 && cs0[k].contains(l) && c2 == cs0[k].filter(
                                |x: Literal| x != l,
                            );
                        if k < i {
                            assert(clauses_view(ppos).contains(c2));
                            let m = choose|m: int|
                                0 <= m < ppos.len() && clauses_view(ppos)[m] == c2;
                            assert(clauses_view(pos@)[m] == c2);
                        } else {
                            assert(clauses_view(pos@)[pos@.len() - 1] == c2);
                        }
                    }
                }
            } else if clause_contains(&cnf.clauses[i], l.neg()) {
                let rm = Self::remove_literal(&cnf.clauses[i], l.neg());
                neg.push(rm);
                proof {
                    assert(clauses_view(neg@) =~= clauses_view(pneg).push(
                        cs0[i as int].filter(|x: Literal| x != lit_neg(l)),
                    ));
                    assert forall|c2: Seq<Literal>|
                        clauses_view(neg@).contains(c2) implies exists|k: int|
                        0 <= k < i + 1 && (#[trigger] cs0[k]).contains(lit_neg(l)) && !cs0[
                            k
                        ].contains(l) && c2 == cs0[k].filter(|x: Literal| x != lit_neg(l)) by {
                        let m = choose|m: int|
                            0 <= m < neg@.len() && clauses_view(neg@)[m] == c2;
                        if m < pneg.len() {
                            assert(clauses_view(pneg).contains(c2)) by {
                                assert(clauses_view(pneg)[m] == c2);
                            }
                        } else {
                            assert(0 <= i < i + 1 && cs0[i as int].contains(lit_neg(l)) && !cs0[
                                i as int
                            ].contains(l) && c2 == cs0[i as int].filter(
                                |x: Literal| x != lit_neg(l),
                            ));
                        }
                    }
                    assert forall|c2: Seq<Literal>|
                        (exists|k: int|
                            0 <= k < i + 1 && (#[trigger] cs0[k]).contains(lit_neg(l)) && !cs0[
                                k
                            ].contains(l) && c2 == cs0[k].filter(|x: Literal| x != lit_neg(l)))
                        implies clauses_view(neg@).contains(c2) by {
                        let k = choose|k: int|
                            0 <= k < i + 1 && cs0[k].contains(lit_neg(l)) && !cs0[k].contains(l)
                                && c2 == cs0[k].filter(|x: Literal| x != lit_neg(l));
                        if k < i {
                            assert(clauses_view(pneg).contains(c2));
                            let m = choose|m: int|
                                0 <= m < pneg.len() && clauses_view(pneg)[m] == c2;
                            assert(clauses_view(neg@)[m] == c2);
                        } else {
                            assert(clauses_view(neg@)[neg@.len() - 1] == c2);
                        }
                    }
                }
            } else {
                proof {
                    assert forall|c2: Seq<Literal>|
                        (exists|k: int|
                            0 <= k < i + 1 && (#[trigger] cs0[k]).contains(l) && c2 == cs0[
                                k
                            ].filter(|x: Literal| x != l)) implies clauses_view(pos@).contains(
                        c2,
                    ) by {
                        let k = choose|k: int|
                            0 <= k < i + 1 && cs0[k].contains(l) && c2 == cs0[k].filter(
                                |x: Literal| x != l,
                            );
                        assert(k < i);
                        assert(clauses_view(ppos).contains(c2));
                    }
                    assert forall|c2: Seq<Literal>|
                        (exists|k: int|
                            0 <= k < i + 1 && (#[trigger] cs0[k]).contains(lit_neg(l)) && !cs0[
                                k
                            ].contains(l) && c2 == cs0[k].filter(|x: Literal| x != lit_neg(l)))
                        implies clauses_view(neg@).contains(c2) by {
                        let k = choose|k: int|
                            0 <= k < i + 1 && cs0[k].contains(lit_neg(l)) && !cs0[k].contains(l)
                                && c2 == cs0[k].filter(|x: Literal| x != lit_neg(l));
                        assert(k < i);
                        assert(clauses_view(pneg).contains(c2));
                    }
                }
            }
            proof {
                lemma_filter_props(cs0[i as int], |x: Literal| x != l);
                lemma_filter_props(cs0[i as int], |x: Literal| x != lit_neg(l));
            }
            i += 1;
        }
        proof {
            assert forall|c2: Seq<Literal>|
                clauses_view(pos@).contains(c2) implies exists|c: Seq<Literal>| #[trigger]
                cnf@.contains(c) && c.contains(l) && c2 == c.filter(|x: Literal| x != l) by {
                let k = choose|k: int|
                    0 <= k < cs0.len() && cs0[k].contains(l) && c2 == cs0[k].filter(
                        |x: Literal| x != l,
                    );
                assert(cnf@.contains(cs0[k]));
            }
            assert forall|c2: Seq<Literal>|
                (exists|c: Seq<Literal>| #[trigger]
                    cnf@.contains(c) && c.contains(l) && c2 == c.filter(|x: Literal| x != l))
                implies clauses_view(pos@).contains(c2) by {
                let c = choose|c: Seq<Literal>|
                    cnf@.contains(c) && c.contains(l) && c2 == c.filter(|x: Literal| x != l);
                let k = choose|k: int| 0 <= k < cs0.len() && cs0[k] == c;
            }
            assert forall|c2: Seq<Literal>|
                clauses_view(neg@).contains(c2) implies exists|c: Seq<Literal>| #[trigger]
                cnf@.contains(c) && c.contains(lit_neg(l)) && !c.contains(l) && c2 == c.filter(
                |x: Literal| x != lit_neg(l),
            ) by {
                let k = choose|k: int|
                    0 <= k < cs0.len() && cs0[k].contains(lit_neg(l)) && !cs0[k].contains(l) && c2
                        == cs0[k].filter(|x: Literal| x != lit_neg(l));
                assert(cnf@.contains(cs0[k]));
            }
            assert forall|c2: Seq<Literal>|
                (exists|c: Seq<Literal>| #[trigger]
                    cnf@.contains(c) && c.contains(lit_neg(l)) && !c.contains(l) && c2 == c.filter(
                        |x: Literal| x != lit_neg(l),
                    )) implies clauses_view(neg@).contains(c2) by {
                let c = choose|c: Seq<Literal>|
                    cnf@.contains(c) && c.contains(lit_neg(l)) && !c.contains(l) && c2 == c.filter(
                        |x: Literal| x != lit_neg(l),
                    );
                let k = choose|k: int| 0 <= k < cs0.len() && cs0[k] == c;
            }
        }
        (pos, neg)
    }

    /// Binary resolution on the pivot `l`. If the pivot is reversed
    /// between the premises they swap roles; if it does not occur
    /// positively in one and negatively in the other there is no
    /// resolution. The resolvent is sorted and duplicate-free.
    pub fn resolute(a: Vec<Literal>, b: Vec<Literal>, l: Literal) -> (r: Option<Vec<Literal>>)
        ensures
            (r is Some) == ((a@.contains(lit_neg(l)) && b@.contains(l)) || (a@.contains(l)
                && b@.contains(lit_neg(l)))),
            a@.contains(lit_neg(l)) && b@.contains(l) ==> r->0@.to_set() == resolvent_set(
                b@,
                a@,
                l,
            ),
            !(a@.contains(lit_neg(l)) && b@.contains(l)) && a@.contains(l) && b@.contains(
                lit_neg(l),
            ) ==> r->0@.to_set() == resolvent_set(a@, b@, l),
            r is Some ==> sorted_strict(r->0@),
    {
        if clause_contains(&a, l.neg()) && clause_contains(&b, l) {
            Some(Self::resolve_core(&b, &a, l))
        } else if clause_contains(&a, l) && clause_contains(&b, l.neg()) {
            Some(Self::resolve_core(&a, &b, l))
        } else {
            None
        }
    }

    /// The resolvent of `a` (holding the pivot) and `b` (holding its
    /// negation): both sides stripped of their pivot occurrence, merged,
    /// sorted and deduplicated.
    fn resolve_core(a: &Vec<Literal>, b: &Vec<Literal>, l: Literal) -> (r: Vec<Literal>)
        ensures
            r@.to_set() == resolvent_set(a@, b@, l),
            sorted_strict(r@),
    {
        let ra = Self::remove_literal(a, l);
        let rb = Self::remove_literal(b, l.neg());
        let mut cat = ra;
        let mut j: usize = 0;
        let ghost rav = cat@;
        while j < rb.len()
            invariant
                0 <= j <= rb@.len(),
                cat@ == rav + rb@.take(j as int),
            decreases rb@.len() - j,
        {
            cat.push(rb[j]);
            proof {
                assert(cat@ =~= rav + rb@.take(j + 1));
            }
            j += 1;
        }
        proof {
            assert(rav + rb@.take(rb@.len() as int) =~= rav + rb@);
        }
        let r = crate::cnf::sort_dedup(&cat);
        proof {
            assert(r@.to_set() =~= resolvent_set(a@, b@, l)) by {
                assert forall|y: Literal| #[trigger] r@.to_set().contains(y) implies resolvent_set(
                    a@,
                    b@,
                    l,
                ).contains(y) by {
                    assert(cat@.contains(y));
                    let k = choose|k: int| 0 <= k < cat@.len() && cat@[k] == y;
                    if k < rav.len() {
                        assert(rav.contains(y)) by { assert(rav[k] == y); }
                        assert(a@.contains(y) && y != l);
                        assert(a@.to_set().remove(l).contains(y));
                    } else {
                        assert(rb@.contains(y)) by { assert(rb@[k - rav.len()] == y); }
                        assert(b@.contains(y) && y != lit_neg(l));
                        assert(b@.to_set().remove(lit_neg(l)).contains(y));
                    }
                }
                assert forall|y: Literal| resolvent_set(a@, b@, l).contains(y) implies #[trigger]
                    r@.to_set().contains(y) by {
                    if a@.to_set().remove(l).contains(y) {
                        assert(a@.contains(y) && y != l);
                        assert(rav.contains(y));
                        let k = choose|k: int| 0 <= k < rav.len() && rav[k] == y;
                        assert(cat@.contains(y)) by { assert(cat@[k] == y); }
                    } else {
                        assert(b@.contains(y) && y != lit_neg(l));
                        assert(rb@.contains(y));
                        let k = choose|k: int| 0 <= k < rb@.len() && rb@[k] == y;
                        assert(cat@.contains(y)) by { assert(cat@[rav.len() + k] == y); }
                    }
                }
            }
        }
        r
    }
}

} // verus!
