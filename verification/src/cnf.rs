//! The literal and CNF data model.
//!
//! A literal is a propositional variable together with a polarity
//! (`sign == true` means the variable occurs negated). A clause is a
//! strictly sorted, duplicate-free vector of literals, read as their
//! disjunction; the empty clause is false. A CNF is a duplicate-free
//! vector of clauses, read as their conjunction, together with an upper
//! bound `var_count` on every variable index that occurs in it.

use vstd::prelude::*;

verus! {

/// A propositional literal: a variable index and a polarity.
/// `sign == false` is the positive polarity, `sign == true` the negated one.
#[derive(Clone, Copy, PartialEq, Eq, Structural, Debug, Hash)]
pub struct Literal {
    pub var: usize,
    pub sign: bool,
}

/// The negation of a literal: the polarity flips, the variable stays.
pub open spec fn lit_neg(l: Literal) -> Literal {
    Literal { var: l.var, sign: !l.sign }
}

/// Total order on literals: lexicographic over (var, sign), with the
/// positive polarity before the negated one.
pub open spec fn lit_lt(a: Literal, b: Literal) -> bool {
    a.var < b.var || (a.var == b.var && !a.sign && b.sign)
}

/// A clause is well formed when its literals are strictly increasing,
/// which makes it both sorted and duplicate-free.
pub open spec fn sorted_strict(c: Seq<Literal>) -> bool {
    forall|i: int, j: int| 0 <= i < j < c.len() ==> lit_lt(c[i], c[j])
}

/// Every variable of the clause is bounded by `bound`.
pub open spec fn clause_vars_le(c: Seq<Literal>, bound: nat) -> bool {
    forall|k: int| 0 <= k < c.len() ==> c[k].var <= bound
}

/// A clause (a disjunction) is satisfied by an assignment, given as the
/// sequence of literals forced true, iff the assignment hits one of its
/// literals.
pub open spec fn clause_sat_by(a: Seq<Literal>, c: Seq<Literal>) -> bool {
    exists|k: int| 0 <= k < c.len() && a.contains(c[k])
}

/// A CNF (a conjunction of clauses) is satisfied by an assignment iff the
/// assignment hits every clause.
pub open spec fn cnf_sat_by(cs: Seq<Seq<Literal>>, a: Seq<Literal>) -> bool {
    forall|i: int| 0 <= i < cs.len() ==> clause_sat_by(a, cs[i])
}

/// A tautological clause mentions some variable in both polarities; as a
/// disjunction it is true under every total valuation.
pub open spec fn clause_taut(c: Seq<Literal>) -> bool {
    exists|i: int, k: int| 0 <= i < c.len() && 0 <= k < c.len() && c[k] == lit_neg(c[i])
}

/// The non-tautological clauses of a CNF, in order.
pub open spec fn non_taut(cs: Seq<Seq<Literal>>) -> Seq<Seq<Literal>> {
    cs.filter(|c: Seq<Literal>| !clause_taut(c))
}

/// The literal occurs in some clause of the CNF.
pub open spec fn lit_occurs(x: Literal, cs: Seq<Seq<Literal>>) -> bool {
    exists|i: int, k: int| 0 <= i < cs.len() && 0 <= k < cs[i].len() && cs[i][k] == x
}

/// The total size of a CNF: each clause counts its length plus one.
pub open spec fn cnf_size(cs: Seq<Seq<Literal>>) -> nat
    decreases cs.len(),
{
    if cs.len() == 0 {
        0
    } else {
        cnf_size(cs.drop_last()) + cs.last().len() + 1
    }
}

impl Literal {
    /// The negation of this literal.
    pub fn neg(&self) -> (r: Literal)
        ensures
            r == lit_neg(*self),
    {
        Literal { var: self.var, sign: !self.sign }
    }
}

/// Strict comparison in the literal order, executable form.
pub fn lit_lt_exec(a: Literal, b: Literal) -> (r: bool)
    ensures
        r == lit_lt(a, b),
{
    a.var < b.var || (a.var == b.var && !a.sign && b.sign)
}

/// Whether the assignment hits some literal of the clause.
pub fn clause_hit(assignment: &Vec<Literal>, c: &Vec<Literal>) -> (r: bool)
    ensures
        r == clause_sat_by(assignment@, c@),
{
    let mut k: usize = 0;
    while k < c.len()
        invariant
            0 <= k <= c@.len(),
            forall|m: int| 0 <= m < k ==> !assignment@.contains(c@[m]),
        decreases c@.len() - k,
    {
        if clause_contains(assignment, c[k]) {
            return true;
        }
        k += 1;
    }
    false
}

/// Whether the clause contains the literal.
pub fn clause_contains(c: &Vec<Literal>, l: Literal) -> (r: bool)
    ensures
        r == c@.contains(l),
{
    let mut i: usize = 0;
    while i < c.len()
        invariant
            0 <= i <= c@.len(),
            forall|k: int| 0 <= k < i ==> c@[k] != l,
        decreases c@.len() - i,
    {
        if c[i] == l {
            assert(c@.contains(l));
            return true;
        }
        i += 1;
    }
    false
}

/// The sorted, deduplicated form of a clause: inserting each literal in
/// order into a strictly sorted sequence.
pub open spec fn insert_sorted_spec(s: Seq<Literal>, x: Literal) -> Seq<Literal>
    decreases s.len(),
{
    if s.len() == 0 {
        seq![x]
    } else if x == s[0] {
        s
    } else if lit_lt(x, s[0]) {
        seq![x] + s
    } else {
        seq![s[0]] + insert_sorted_spec(s.drop_first(), x)
    }
}

/// The normal form of a clause: its literals sorted ascending with
/// duplicates removed.
pub open spec fn norm_clause(c: Seq<Literal>) -> Seq<Literal>
    decreases c.len(),
{
    if c.len() == 0 {
        Seq::<Literal>::empty()
    } else {
        insert_sorted_spec(norm_clause(c.drop_last()), c.last())
    }
}

pub proof fn lemma_insert_sorted_spec(s: Seq<Literal>, x: Literal)
    requires
        sorted_strict(s),
    ensures
        sorted_strict(insert_sorted_spec(s, x)),
        insert_sorted_spec(s, x).to_set() == s.to_set().insert(x),
    decreases s.len(),
{
    let r = insert_sorted_spec(s, x);
    if s.len() == 0 {
        assert(r =~= seq![x]);
        assert(r.to_set() =~= s.to_set().insert(x)) by {
            assert(r.contains(x)) by { assert(r[0] == x); }
        }
    } else if x == s[0] {
        assert(s.contains(s[0])) by { assert(s[0] == s[0]); }
        assert(r.to_set() =~= s.to_set().insert(x));
    } else if lit_lt(x, s[0]) {
        assert(sorted_strict(r)) by {
            assert forall|i: int, j: int| 0 <= i < j < r.len() implies lit_lt(r[i], r[j]) by {
                if i == 0 {
                    assert(r[j] == s[j - 1]);
                    if j == 1 {
                        assert(r[j] == s[0]);
                    } else {
                        assert(lit_lt(s[0], s[j - 1]));
                    }
                } else {
                    assert(r[i] == s[i - 1] && r[j] == s[j - 1]);
                }
            }
        }
        assert(r.to_set() =~= s.to_set().insert(x)) by {
            assert forall|y: Literal| r.to_set().contains(y) implies s.to_set().insert(x).contains(
                y,
            ) by {
                let k = choose|k: int| 0 <= k < r.len() && r[k] == y;
                if k > 0 {
                    assert(s.contains(y)) by { assert(s[k - 1] == y); }
                }
            }
            assert forall|y: Literal| s.to_set().insert(x).contains(y) implies r.to_set().contains(
                y,
            ) by {
                if y == x {
                    assert(r.contains(y)) by { assert(r[0] == y); }
                } else {
                    let k = choose|k: int| 0 <= k < s.len() && s[k] == y;
                    assert(r.contains(y)) by { assert(r[k + 1] == y); }
                }
            }
        }
    } else {
        assert(lit_lt(s[0], x));
        let tail = s.drop_first();
        assert(sorted_strict(tail)) by {
            assert forall|i: int, j: int| 0 <= i < j < tail.len() implies lit_lt(
                tail[i],
                tail[j],
            ) by {
                assert(tail[i] == s[i + 1] && tail[j] == s[j + 1]);
            }
        }
        lemma_insert_sorted_spec(tail, x);
        let rec = insert_sorted_spec(tail, x);
        assert(forall|k: int| 0 <= k < tail.len() ==> lit_lt(s[0], #[trigger] tail[k])) by {
            assert(forall|k: int| 0 <= k < tail.len() ==> #[trigger] tail[k] == s[k + 1]);
        }
        assert(sorted_strict(r)) by {
            assert forall|i: int, j: int| 0 <= i < j < r.len() implies lit_lt(r[i], r[j]) by {
                if i == 0 {
                    assert(r[j] == rec[j - 1]);
                    assert(rec.to_set().contains(rec[j - 1])) by {
                        assert(rec.contains(rec[j - 1]));
                    }
                    if rec[j - 1] == x {
                    } else {
                        assert(tail.to_set().contains(rec[j - 1]));
                        let k = choose|k: int| 0 <= k < tail.len() && tail[k] == rec[j - 1];
                        assert(lit_lt(s[0], tail[k]));
                    }
                } else {
                    assert(r[i] == rec[i - 1] && r[j] == rec[j - 1]);
                }
            }
        }
        assert(r.to_set() =~= s.to_set().insert(x)) by {
            assert forall|y: Literal| r.to_set().contains(y) implies s.to_set().insert(x).contains(
                y,
            ) by {
                let k = choose|k: int| 0 <= k < r.len() && r[k] == y;
                if k == 0 {
                    assert(s.contains(y)) by { assert(s[0] == y); }
                } else {
                    assert(rec.contains(rec[k - 1]));
                    assert(rec.to_set().contains(y));
                    if y != x {
                        assert(tail.to_set().contains(y));
                        let m = choose|m: int| 0 <= m < tail.len() && tail[m] == y;
                        assert(s.contains(y)) by { assert(s[m + 1] == y); }
                    }
                }
            }
            assert forall|y: Literal| s.to_set().insert(x).contains(y) implies r.to_set().contains(
                y,
            ) by {
                if y == x || tail.to_set().contains(y) {
                    assert(rec.to_set().contains(y));
                    let m = choose|m: int| 0 <= m < rec.len() && rec[m] == y;
                    assert(r.contains(y)) by { assert(r[m + 1] == y); }
                } else {
                    assert(s.contains(y));
                    let k = choose|k: int| 0 <= k < s.len() && s[k] == y;
                    if k == 0 {
                        assert(r.contains(y)) by { assert(r[0] == y); }
                    } else {
                        assert(tail.contains(y)) by { assert(tail[k - 1] == y); }
                        assert(tail.to_set().contains(y));
                    }
                }
            }
        }
    }
}

pub proof fn lemma_norm_clause(c: Seq<Literal>)
    ensures
        sorted_strict(norm_clause(c)),
        norm_clause(c).to_set() == c.to_set(),
    decreases c.len(),
{
    if c.len() == 0 {
        assert(norm_clause(c).to_set() =~= c.to_set());
    } else {
        lemma_norm_clause(c.drop_last());
        lemma_insert_sorted_spec(norm_clause(c.drop_last()), c.last());
        assert(norm_clause(c).to_set() =~= c.to_set()) by {
            assert(c.drop_last().push(c.last()) =~= c);
            assert forall|y: Literal| c.to_set().contains(y) implies norm_clause(
                c,
            ).to_set().contains(y) by {
                let k = choose|k: int| 0 <= k < c.len() && c[k] == y;
                if k < c.len() - 1 {
                    assert(c.drop_last().contains(y)) by { assert(c.drop_last()[k] == y); }
                }
            }
            assert forall|y: Literal| norm_clause(c).to_set().contains(y) implies c.to_set(
            ).contains(y) by {
                if y != c.last() {
                    assert(c.drop_last().to_set().contains(y));
                    let k = choose|k: int| 0 <= k < c.drop_last().len() && c.drop_last()[k] == y;
                    assert(c.contains(y)) by { assert(c[k] == y); }
                } else {
                    assert(c.contains(y)) by { assert(c[c.len() - 1] == y); }
                }
            }
        }
    }
}

/// Normalizing never lengthens a clause.
pub proof fn lemma_norm_clause_len(c: Seq<Literal>)
    ensures
        norm_clause(c).len() <= c.len(),
{
    lemma_norm_clause(c);
    let n = norm_clause(c);
    assert(n.no_duplicates()) by {
        assert forall|i: int, j: int| 0 <= i < n.len() && 0 <= j < n.len() && i != j implies n[i]
            != n[j] by {
            if i < j {
                assert(lit_lt(n[i], n[j]));
            } else {
                assert(lit_lt(n[j], n[i]));
            }
        }
    }
    n.unique_seq_to_set();
    c.lemma_cardinality_of_set();
}

/// A clause that is already sorted and duplicate-free is its own normal
/// form.
pub proof fn lemma_norm_sorted_id(s: Seq<Literal>)
    requires
        sorted_strict(s),
    ensures
        norm_clause(s) == s,
{
    lemma_norm_clause(s);
    lemma_sorted_unique(norm_clause(s), s);
}

/// Two strictly sorted clauses with the same literal set are equal:
/// the normal form of a clause is unique.
pub proof fn lemma_sorted_unique(s1: Seq<Literal>, s2: Seq<Literal>)
    requires
        sorted_strict(s1),
        sorted_strict(s2),
        s1.to_set() == s2.to_set(),
    ensures
        s1 == s2,
    decreases s1.len(),
{
    if s1.len() == 0 {
        if s2.len() > 0 {
            assert(s2.to_set().contains(s2[0])) by { assert(s2.contains(s2[0])); }
            assert(false);
        }
        assert(s1 =~= s2);
    } else {
        if s2.len() == 0 {
            assert(s1.to_set().contains(s1[0])) by { assert(s1.contains(s1[0])); }
            assert(false);
        }
        // The heads are both the minimum of the shared literal set.
        assert(s2.to_set().contains(s1[0])) by { assert(s1.contains(s1[0])); }
        assert(s1.to_set().contains(s2[0])) by { assert(s2.contains(s2[0])); }
        let j = choose|j: int| 0 <= j < s2.len() && s2[j] == s1[0];
        let k = choose|k: int| 0 <= k < s1.len() && s1[k] == s2[0];
        assert(s1[0] == s2[0]) by {
            if j > 0 {
                assert(lit_lt(s2[0], s2[j]));
            }
            if k > 0 {
                assert(lit_lt(s1[0], s1[k]));
            }
        }
        let t1 = s1.drop_first();
        let t2 = s2.drop_first();
        assert(sorted_strict(t1) && sorted_strict(t2)) by {
            assert(forall|i: int| 0 <= i < t1.len() ==> #[trigger] t1[i] == s1[i + 1]);
            assert(forall|i: int| 0 <= i < t2.len() ==> #[trigger] t2[i] == s2[i + 1]);
        }
        assert(t1.to_set() =~= t2.to_set()) by {
            assert forall|y: Literal| t1.to_set().contains(y) implies t2.to_set().contains(y) by {
                let m = choose|m: int| 0 <= m < t1.len() && t1[m] == y;
                assert(s1[m + 1] == y);
                assert(lit_lt(s1[0], y));
                assert(s2.to_set().contains(y)) by { assert(s1.contains(y)); }
                let n = choose|n: int| 0 <= n < s2.len() && s2[n] == y;
                assert(n > 0);
                assert(t2.contains(y)) by { assert(t2[n - 1] == y); }
            }
            assert forall|y: Literal| t2.to_set().contains(y) implies t1.to_set().contains(y) by {
                let m = choose|m: int| 0 <= m < t2.len() && t2[m] == y;
                assert(s2[m + 1] == y);
                assert(lit_lt(s2[0], y));
                assert(s1.to_set().contains(y)) by { assert(s2.contains(y)); }
                let n = choose|n: int| 0 <= n < s1.len() && s1[n] == y;
                assert(n > 0);
                assert(t1.contains(y)) by { assert(t1[n - 1] == y); }
            }
        }
        lemma_sorted_unique(t1, t2);
        assert(s1 =~= s2) by {
            assert(forall|i: int| 0 < i < s1.len() ==> #[trigger] s1[i] == t1[i - 1]);
            assert(forall|i: int| 0 < i < s2.len() ==> #[trigger] s2[i] == t2[i - 1]);
        }
    }
}

/// The position of the first literal not below `x` in a sorted clause.
fn lower_bound(c: &Vec<Literal>, x: Literal) -> (pos: usize)
    requires
        sorted_strict(c@),
    ensures
        0 <= pos <= c@.len(),
        forall|k: int| 0 <= k < pos ==> lit_lt(c@[k], x),
        pos < c@.len() ==> !lit_lt(c@[pos as int], x),
{
    let mut i: usize = 0;
    while i < c.len()
        invariant
            0 <= i <= c@.len(),
            forall|k: int| 0 <= k < i ==> lit_lt(c@[k], x),
        decreases c@.len() - i,
    {
        if !lit_lt_exec(c[i], x) {
            return i;
        }
        i += 1;
    }
    i
}

/// Insert a literal into a sorted clause, keeping it sorted and
/// duplicate-free.
pub fn insert_lit(c: &mut Vec<Literal>, x: Literal)
    requires
        sorted_strict(old(c)@),
    ensures
        sorted_strict(final(c)@),
        final(c)@.to_set() == old(c)@.to_set().insert(x),
        final(c)@ == insert_sorted_spec(old(c)@, x),
{
    let ghost s0 = c@;
    let pos = lower_bound(c, x);
    if pos < c.len() && c[pos] == x {
        proof {
            assert(c@.to_set().contains(x)) by { assert(c@.contains(x)); }
            assert(c@.to_set() =~= s0.to_set().insert(x));
            lemma_insert_sorted_spec(s0, x);
            lemma_sorted_unique(c@, insert_sorted_spec(s0, x));
        }
        return ;
    }
    c.insert(pos, x);
    proof {
        let r = c@;
        assert(r == s0.insert(pos as int, x));
        assert(r[pos as int] == x) by { s0.insert_ensures(pos as int, x); }
        assert(forall|k: int| 0 <= k < pos ==> #[trigger] r[k] == s0[k]) by {
            s0.insert_ensures(pos as int, x);
        }
        assert(forall|k: int| pos < k < r.len() ==> #[trigger] r[k] == s0[k - 1]) by {
            s0.insert_ensures(pos as int, x);
        }
        assert(sorted_strict(r)) by {
            assert forall|i: int, j: int| 0 <= i < j < r.len() implies lit_lt(r[i], r[j]) by {
                if i < pos && j < pos {
                } else if i < pos && j == pos {
                    assert(lit_lt(s0[i], x));
                } else if i == pos && j > pos {
                    assert(r[j] == s0[j - 1]);
                    assert(j - 1 >= pos);
                    if j - 1 == pos {
                        assert(!lit_lt(s0[pos as int], x) && s0[pos as int] != x);
                        assert(lit_lt(x, s0[pos as int]));
                    } else {
                        assert(!lit_lt(s0[pos as int], x) && s0[pos as int] != x);
                        assert(lit_lt(x, s0[pos as int]));
                        assert(lit_lt(s0[pos as int], s0[j - 1]));
                    }
                } else if i < pos && j > pos {
                    assert(lit_lt(s0[i], x));
                    if j - 1 == pos {
                        assert(lit_lt(x, s0[pos as int]));
                        assert(r[j] == s0[j - 1]);
                    } else {
                        assert(lit_lt(s0[i], s0[j - 1]));
                    }
                } else {
                    assert(r[i] == s0[i - 1] && r[j] == s0[j - 1]);
                }
            }
        }
        assert(r.to_set() =~= s0.to_set().insert(x)) by {
            assert forall|y: Literal| r.to_set().contains(y) implies s0.to_set().insert(x).contains(
                y,
            ) by {
                let k = choose|k: int| 0 <= k < r.len() && r[k] == y;
                if k < pos {
                    assert(s0.contains(y)) by { assert(s0[k] == y); }
                } else if k > pos {
                    assert(s0.contains(y)) by { assert(s0[k - 1] == y); }
                }
            }
            assert forall|y: Literal| s0.to_set().insert(x).contains(y) implies r.to_set().contains(
                y,
            ) by {
                if y == x {
                    assert(r.contains(y)) by { assert(r[pos as int] == y); }
                } else {
                    let k = choose|k: int| 0 <= k < s0.len() && s0[k] == y;
                    if k < pos {
                        assert(r.contains(y)) by { assert(r[k] == y); }
                    } else {
                        assert(r.contains(y)) by { assert(r[k + 1] == y); }
                    }
                }
            }
        }
        lemma_insert_sorted_spec(s0, x);
        lemma_sorted_unique(r, insert_sorted_spec(s0, x));
    }
}

/// The sorted, duplicate-free copy of a clause.
pub fn sort_dedup(c: &Vec<Literal>) -> (r: Vec<Literal>)
    ensures
        sorted_strict(r@),
        r@.to_set() == c@.to_set(),
        r@ == norm_clause(c@),
{
    let mut r: Vec<Literal> = Vec::new();
    let mut i: usize = 0;
    proof {
        assert(c@.take(0).to_set() =~= Seq::<Literal>::empty().to_set());
    }
    while i < c.len()
        invariant
            0 <= i <= c@.len(),
            sorted_strict(r@),
            r@ == norm_clause(c@.take(i as int)),
            r@.to_set() == c@.take(i as int).to_set(),
        decreases c@.len() - i,
    {
        let ghost pre = r@;
        insert_lit(&mut r, c[i]);
        proof {
            let t = c@.take(i + 1);
            assert(t.drop_last() =~= c@.take(i as int));
            assert(t.last() == c@[i as int]);
            assert(r@ == norm_clause(t));
            assert(r@.to_set() =~= t.to_set()) by {
                assert forall|y: Literal| t.to_set().contains(y) implies r@.to_set().contains(
                    y,
                ) by {
                    let k = choose|k: int| 0 <= k < t.len() && t[k] == y;
                    if k < i {
                        assert(c@.take(i as int).contains(y)) by {
                            assert(c@.take(i as int)[k] == y);
                        }
                        assert(pre.to_set().contains(y));
                    }
                }
                assert forall|y: Literal| r@.to_set().contains(y) implies t.to_set().contains(
                    y,
                ) by {
                    if y != c@[i as int] {
                        assert(pre.to_set().contains(y));
                        assert(c@.take(i as int).contains(y));
                        let k = choose|k: int| 0 <= k < i && c@.take(i as int)[k] == y;
                        assert(t.contains(y)) by { assert(t[k] == y); }
                    } else {
                        assert(t.contains(y)) by { assert(t[t.len() - 1] == y); }
                    }
                }
            }
        }
        i += 1;
    }
    proof {
        assert(c@.take(c@.len() as int) =~= c@);
    }
    r
}

/// The mathematical view of a vector of clauses: the sequence of the
/// clauses' literal sequences.
pub open spec fn clauses_view(cs: Seq<Vec<Literal>>) -> Seq<Seq<Literal>> {
    cs.map_values(|c: Vec<Literal>| c@)
}

/// The largest variable of the clause, or `floor` if none is larger.
pub open spec fn max_var(c: Seq<Literal>, floor: nat) -> nat
    decreases c.len(),
{
    if c.len() == 0 {
        floor
    } else {
        let m = max_var(c.drop_last(), floor);
        if c.last().var > m {
            c.last().var as nat
        } else {
            m
        }
    }
}

pub proof fn lemma_max_var(c: Seq<Literal>, floor: nat)
    ensures
        floor <= max_var(c, floor),
        forall|k: int| 0 <= k < c.len() ==> (#[trigger] c[k]).var <= max_var(c, floor),
    decreases c.len(),
{
    if c.len() > 0 {
        lemma_max_var(c.drop_last(), floor);
        assert(forall|k: int| 0 <= k < c.len() - 1 ==> #[trigger] c[k] == c.drop_last()[k]);
    }
}

/// A clause whose variables respect the floor does not raise the maximum.
pub proof fn lemma_max_var_floor(c: Seq<Literal>, floor: nat)
    requires
        clause_vars_le(c, floor),
    ensures
        max_var(c, floor) == floor,
    decreases c.len(),
{
    if c.len() > 0 {
        assert(forall|k: int| 0 <= k < c.len() - 1 ==> #[trigger] c.drop_last()[k] == c[k]);
        lemma_max_var_floor(c.drop_last(), floor);
        assert(c[c.len() - 1].var <= floor);
    }
}

/// The largest variable of a clause is the floor or is attained by some
/// literal of the clause.
pub proof fn lemma_max_var_witness(c: Seq<Literal>, floor: nat)
    ensures
        max_var(c, floor) == floor || exists|j: int|
            0 <= j < c.len() && (#[trigger] c[j]).var == max_var(c, floor),
    decreases c.len(),
{
    if c.len() > 0 {
        lemma_max_var_witness(c.drop_last(), floor);
        let m = max_var(c.drop_last(), floor);
        if c.last().var > m {
            assert(c[c.len() - 1].var == max_var(c, floor));
        } else if m != floor {
            let j = choose|j: int|
                0 <= j < c.len() - 1 && (#[trigger] c.drop_last()[j]).var == m;
            assert(c[j] == c.drop_last()[j]);
            assert(c[j].var == max_var(c, floor));
        }
    }
}

/// A deep copy of a clause.
pub fn copy_clause(c: &Vec<Literal>) -> (r: Vec<Literal>)
    ensures
        r@ == c@,
{
    let mut r: Vec<Literal> = Vec::new();
    let mut i: usize = 0;
    while i < c.len()
        invariant
            0 <= i <= c@.len(),
            r@ == c@.take(i as int),
        decreases c@.len() - i,
    {
        r.push(c[i]);
        proof {
            assert(r@ =~= c@.take(i + 1));
        }
        i += 1;
    }
    proof {
        assert(c@.take(c@.len() as int) =~= c@);
    }
    r
}

/// Whether two clauses hold the same literals in the same order.
pub fn clause_eq(a: &Vec<Literal>, b: &Vec<Literal>) -> (r: bool)
    ensures
        r == (a@ == b@),
{
    if a.len() != b.len() {
        return false;
    }
    let mut i: usize = 0;
    while i < a.len()
        invariant
            0 <= i <= a@.len(),
            a@.len() == b@.len(),
            forall|k: int| 0 <= k < i ==> a@[k] == b@[k],
        decreases a@.len() - i,
    {
        if a[i] != b[i] {
            return false;
        }
        i += 1;
    }
    proof {
        assert(a@ =~= b@);
    }
    true
}

/// Whether the clause list already holds this exact clause.
pub fn contains_clause(cs: &Vec<Vec<Literal>>, c: &Vec<Literal>) -> (r: bool)
    ensures
        r == clauses_view(cs@).contains(c@),
{
    let mut i: usize = 0;
    while i < cs.len()
        invariant
            0 <= i <= cs@.len(),
            forall|k: int| 0 <= k < i ==> clauses_view(cs@)[k] != c@,
        decreases cs@.len() - i,
    {
        if clause_eq(&cs[i], c) {
            proof {
                assert(clauses_view(cs@)[i as int] == c@);
            }
            return true;
        }
        i += 1;
    }
    false
}

/// A conjunction of clauses with an upper bound on the variables in use.
pub struct CNF {
    pub clauses: Vec<Vec<Literal>>,
    pub var_count: usize,
}

impl View for CNF {
    type V = Seq<Seq<Literal>>;

    open spec fn view(&self) -> Seq<Seq<Literal>> {
        clauses_view(self.clauses@)
    }
}

impl Clone for CNF {
    /// Cloning keeps the clause sequence and the variable bound.
    fn clone(&self) -> (r: Self)
        ensures
            r@ == self@,
            r.var_count == self.var_count,
            self.wf() ==> r.wf(),
    {
        let mut cs: Vec<Vec<Literal>> = Vec::new();
        let mut i: usize = 0;
        while i < self.clauses.len()
            invariant
                0 <= i <= self.clauses@.len(),
                clauses_view(cs@) == clauses_view(self.clauses@).take(i as int),
            decreases self.clauses@.len() - i,
        {
            cs.push(copy_clause(&self.clauses[i]));
            proof {
                assert(clauses_view(cs@) =~= clauses_view(self.clauses@).take(i + 1));
            }
            i += 1;
        }
        proof {
            assert(clauses_view(self.clauses@).take(self.clauses@.len() as int) =~= clauses_view(
                self.clauses@,
            ));
        }
        CNF { clauses: cs, var_count: self.var_count }
    }
}

impl CNF {
    /// The clause-set invariant: every clause sorted and duplicate-free,
    /// no two equal clauses, and every variable bounded by `var_count`.
    pub open spec fn wf(self) -> bool {
        &&& forall|i: int| 0 <= i < self@.len() ==> sorted_strict(#[trigger] self@[i])
        &&& forall|i: int, j: int| 0 <= i < j < self@.len() ==> self@[i] != self@[j]
        &&& forall|i: int|
            0 <= i < self@.len() ==> clause_vars_le(#[trigger] self@[i], self.var_count as nat)
    }

    /// An empty CNF, trivially satisfiable.
    pub fn new() -> (r: CNF)
        ensures
            r@ =~= Seq::<Seq<Literal>>::empty(),
            r.wf(),
            r.var_count == 0,
    {
        CNF { clauses: Vec::new(), var_count: 0 }
    }

    /// Normalize the clause (sort, deduplicate), raise `var_count` to cover
    /// its variables, and insert it unless an equal clause is present.
    pub fn add_clause(&mut self, clause: Vec<Literal>)
        requires
            old(self).wf(),
        ensures
            final(self).wf(),
            final(self)@.to_set() == old(self)@.to_set().insert(norm_clause(clause@)),
            old(self)@.to_set().contains(norm_clause(clause@)) ==> final(self)@ == old(self)@,
            !old(self)@.to_set().contains(norm_clause(clause@)) ==> final(self)@ == old(
                self,
            )@.push(norm_clause(clause@)),
            final(self).var_count as nat == max_var(clause@, old(self).var_count as nat),
    {
        let s = sort_dedup(&clause);
        let mut i: usize = 0;
        while i < clause.len()
            invariant
                0 <= i <= clause@.len(),
                self.var_count as nat == max_var(clause@.take(i as int), old(
                    self,
                ).var_count as nat),
                self.clauses == old(self).clauses,
            decreases clause@.len() - i,
        {
            if clause[i].var > self.var_count {
                self.var_count = clause[i].var;
            }
            proof {
                let t = clause@.take(i + 1);
                assert(t.drop_last() =~= clause@.take(i as int));
                assert(t.last() == clause@[i as int]);
            }
            i += 1;
        }
        proof {
            assert(clause@.take(clause@.len() as int) =~= clause@);
            lemma_max_var(clause@, old(self).var_count as nat);
        }
        if !contains_clause(&self.clauses, &s) {
            proof {
                assert(!old(self)@.to_set().contains(norm_clause(clause@)));
            }
            self.clauses.push(s);
            proof {
                assert(self@ =~= old(self)@.push(norm_clause(clause@)));
                assert(self@.to_set() =~= old(self)@.to_set().insert(norm_clause(clause@))) by {
                    assert forall|y: Seq<Literal>| self@.to_set().contains(y) implies old(
                        self,
                    )@.to_set().insert(norm_clause(clause@)).contains(y) by {
                        let k = choose|k: int| 0 <= k < self@.len() && self@[k] == y;
                        if k < self@.len() - 1 {
                            assert(old(self)@.contains(y)) by { assert(old(self)@[k] == y); }
                        }
                    }
                    assert forall|y: Seq<Literal>| old(self)@.to_set().insert(
                        norm_clause(clause@),
                    ).contains(y) implies self@.to_set().contains(y) by {
                        if y == norm_clause(clause@) {
                            assert(self@.contains(y)) by { assert(self@[self@.len() - 1] == y); }
                        } else {
                            let k = choose|k: int| 0 <= k < old(self)@.len() && old(self)@[k] == y;
                            assert(self@.contains(y)) by { assert(self@[k] == y); }
                        }
                    }
                }
                lemma_norm_clause(clause@);
                assert(final(self).wf()) by {
                    assert(forall|k: int|
                        0 <= k < old(self)@.len() ==> #[trigger] self@[k] == old(self)@[k]);
                    assert(self@[self@.len() - 1] == norm_clause(clause@));
                    assert forall|k: int|
                        0 <= k < self@.len() implies clause_vars_le(
                        #[trigger] self@[k],
                        self.var_count as nat,
                    ) by {
                        if k < self@.len() - 1 {
                            assert(clause_vars_le(old(self)@[k], old(self).var_count as nat));
                        } else {
                            assert forall|m: int|
                                0 <= m < norm_clause(clause@).len() implies norm_clause(
                                clause@,
                            )[m].var <= self.var_count by {
                                let y = norm_clause(clause@)[m];
                                assert(clause@.to_set().contains(y)) by {
                                    assert(norm_clause(clause@).contains(y));
                                }
                                let n = choose|n: int| 0 <= n < clause@.len() && clause@[n] == y;
                            }
                        }
                    }
                }
            }
        } else {
            proof {
                assert(old(self)@.to_set().contains(norm_clause(clause@))) by {
                    assert(old(self)@.contains(norm_clause(clause@)));
                }
                assert(self@.to_set() =~= old(self)@.to_set().insert(norm_clause(clause@)));
                lemma_norm_clause(clause@);
                assert(final(self).wf()) by {
                    assert forall|k: int|
                        0 <= k < self@.len() implies clause_vars_le(
                        #[trigger] self@[k],
                        self.var_count as nat,
                    ) by {
                        assert(clause_vars_le(old(self)@[k], old(self).var_count as nat));
                    }
                }
            }
        }
    }

    /// Read access to the clause list.
    pub fn get_clauses(&self) -> (r: &Vec<Vec<Literal>>)
        ensures
            clauses_view(r@) == self@,
    {
        &self.clauses
    }

    /// The bound that every variable of every clause respects.
    pub fn var_count(&self) -> (r: usize)
        ensures
            r == self.var_count,
    {
        self.var_count
    }

    /// Some literal of some non-empty clause: the first literal of the
    /// first non-empty clause, or `None` when every clause is empty.
    pub fn get_literal(&self) -> (r: Option<Literal>)
        ensures
            r is Some ==> exists|i: int|
                0 <= i < self@.len() && #[trigger] self@[i].len() > 0 && r->0 == self@[i][0],
            (r is Some) == exists|i: int| 0 <= i < self@.len() && #[trigger] self@[i].len() > 0,
    {
        let mut i: usize = 0;
        while i < self.clauses.len()
            invariant
                0 <= i <= self@.len(),
                forall|k: int| 0 <= k < i ==> #[trigger] self@[k].len() == 0,
            decreases self@.len() - i,
        {
            proof {
                assert(self@[i as int] == self.clauses@[i as int]@);
            }
            if self.clauses[i].len() > 0 {
                return Some(self.clauses[i][0]);
            }
            i += 1;
        }
        None
    }

    /// Same choice as `get_literal`, under the name the solvers use.
    pub fn get_any_literal(&self) -> (r: Option<Literal>)
        ensures
            r is Some ==> exists|i: int|
                0 <= i < self@.len() && #[trigger] self@[i].len() > 0 && r->0 == self@[i][0],
            (r is Some) == exists|i: int| 0 <= i < self@.len() && #[trigger] self@[i].len() > 0,
    {
        self.get_literal()
    }

    /// Remove every clause that mentions the literal's variable, in either
    /// polarity.
    #[verifier::spinoff_prover]
    #[verifier::rlimit(100)]
    pub fn remove_clauses_with_literal(&mut self, l: Literal)
        requires
            old(self).wf(),
        ensures
            final(self).wf(),
            final(self).var_count == old(self).var_count,
            forall|c: Seq<Literal>|
                #![trigger final(self)@.contains(c)]
                #![trigger old(self)@.contains(c)]
                final(self)@.contains(c) <==> (old(self)@.contains(c) && !c.contains(l)
                    && !c.contains(lit_neg(l))),
    {
        let mut kept: Vec<Vec<Literal>> = Vec::new();
        let mut i: usize = 0;
        while i < self.clauses.len()
            invariant
                0 <= i <= self.clauses@.len(),
                self.clauses == old(self).clauses,
                self.var_count == old(self).var_count,
                forall|c: Seq<Literal>|
                    #![trigger clauses_view(kept@).contains(c)]
                    #![trigger old(self)@.take(i as int).contains(c)]
                    clauses_view(kept@).contains(c) <==> (old(self)@.take(i as int).contains(c)
                        && !c.contains(l) && !c.contains(lit_neg(l))),
                forall|k: int, m: int|
                    0 <= k < m < kept@.len() ==> clauses_view(kept@)[k] != clauses_view(kept@)[m],
                forall|k: int|
                    0 <= k < kept@.len() ==> old(self)@.contains(#[trigger] clauses_view(kept@)[k]),
            decreases self.clauses@.len() - i,
        {
            let c = copy_clause(&self.clauses[i]);
            proof {
                assert(c@ == old(self)@[i as int]);
            }
            let keep = !clause_contains(&c, l) && !clause_contains(&c, l.neg());
            let ghost pre = kept@;
            if keep {
                proof {
                    if clauses_view(pre).contains(c@) {
                        assert(old(self)@.take(i as int).contains(c@));
                        let m = choose|m: int| 0 <= m < i && old(self)@.take(i as int)[m] == c@;
                        assert(old(self)@[m] == old(self)@[i as int]);
                        assert(false);
                    }
                }
                kept.push(c);
                proof {
                    assert(clauses_view(kept@) =~= clauses_view(pre).push(old(self)@[i as int]));
                }
            }
            proof {
                let t = old(self)@.take(i + 1);
                let ghost cc = old(self)@[i as int];
                assert(forall|m: int| 0 <= m < i ==> t[m] == old(self)@.take(i as int)[m]);
                assert(t[i as int] == cc);
                assert forall|c2: Seq<Literal>|
                    clauses_view(kept@).contains(c2) implies (t.contains(c2) && !c2.contains(l)
                    && !c2.contains(lit_neg(l))) by {
                    let k = choose|k: int| 0 <= k < kept@.len() && clauses_view(kept@)[k] == c2;
                    if k < pre.len() {
                        assert(clauses_view(pre).contains(c2)) by {
                            assert(clauses_view(pre)[k] == c2);
                        }
                        assert(old(self)@.take(i as int).contains(c2));
                        let m = choose|m: int| 0 <= m < i && old(self)@.take(i as int)[m] == c2;
                        assert(t.contains(c2)) by { assert(t[m] == c2); }
                    } else {
                        assert(c2 == cc);
                        assert(t.contains(c2)) by { assert(t[i as int] == c2); }
                    }
                }
                assert forall|c2: Seq<Literal>|
                    t.contains(c2) && !c2.contains(l) && !c2.contains(lit_neg(l))
                    implies clauses_view(kept@).contains(c2) by {
                    let m = choose|m: int| 0 <= m < t.len() && t[m] == c2;
                    if m < i {
                        assert(old(self)@.take(i as int).contains(c2)) by {
                            assert(old(self)@.take(i as int)[m] == c2);
                        }
                        assert(clauses_view(pre).contains(c2));
                        let k = choose|k: int| 0 <= k < pre.len() && clauses_view(pre)[k] == c2;
                        assert(clauses_view(kept@)[k] == c2);
                    } else {
                        assert(c2 == cc);
                        assert(clauses_view(kept@)[kept@.len() - 1] == c2);
                    }
                }
                assert forall|k: int, m: int|
                    0 <= k < m < kept@.len() implies clauses_view(kept@)[k] != clauses_view(
                    kept@,
                )[m] by {
                    if m == kept@.len() - 1 && kept@.len() > pre.len() {
                        if clauses_view(kept@)[k] == cc {
                            assert(clauses_view(pre).contains(cc)) by {
                                assert(clauses_view(pre)[k] == cc);
                            }
                        }
                    }
                }
                assert forall|k: int|
                    0 <= k < kept@.len() implies old(self)@.contains(
                    #[trigger] clauses_view(kept@)[k],
                ) by {
                    if k >= pre.len() {
                        assert(old(self)@.contains(cc)) by { assert(old(self)@[i as int] == cc); }
                    }
                }
            }
            i += 1;
        }
        proof {
            assert(old(self)@.take(old(self)@.len() as int) =~= old(self)@);
        }
        self.clauses = kept;
        proof {
            assert forall|k: int|
                0 <= k < self@.len() implies sorted_strict(#[trigger] self@[k]) && clause_vars_le(
                self@[k],
                self.var_count as nat,
            ) by {
                assert(old(self)@.contains(self@[k]));
                let m = choose|m: int| 0 <= m < old(self)@.len() && old(self)@[m] == self@[k];
            }
        }
    }

    /// Remove every clause equal to one in the given list.
    #[verifier::spinoff_prover]
    #[verifier::rlimit(100)]
    pub fn remove_clauses(&mut self, clauses: &Vec<Vec<Literal>>)
        requires
            old(self).wf(),
        ensures
            final(self).wf(),
            final(self).var_count == old(self).var_count,
            forall|c: Seq<Literal>|
                #![trigger final(self)@.contains(c)]
                #![trigger old(self)@.contains(c)]
                final(self)@.contains(c) <==> (old(self)@.contains(c) && !clauses_view(
                    clauses@,
                ).contains(c)),
    {
        let mut kept: Vec<Vec<Literal>> = Vec::new();
        let mut i: usize = 0;
        while i < self.clauses.len()
            invariant
                0 <= i <= self.clauses@.len(),
                self.clauses == old(self).clauses,
                self.var_count == old(self).var_count,
                forall|c: Seq<Literal>|
                    #![trigger clauses_view(kept@).contains(c)]
                    #![trigger old(self)@.take(i as int).contains(c)]
                    clauses_view(kept@).contains(c) <==> (old(self)@.take(i as int).contains(c)
                        && !clauses_view(clauses@).contains(c)),
                forall|k: int, m: int|
                    0 <= k < m < kept@.len() ==> clauses_view(kept@)[k] != clauses_view(kept@)[m],
                forall|k: int|
                    0 <= k < kept@.len() ==> old(self)@.contains(#[trigger] clauses_view(kept@)[k]),
            decreases self.clauses@.len() - i,
        {
            let c = copy_clause(&self.clauses[i]);
            proof {
                assert(c@ == old(self)@[i as int]);
            }
            let keep = !contains_clause(clauses, &c);
            let ghost pre = kept@;
            if keep {
                proof {
                    if clauses_view(pre).contains(c@) {
                        assert(old(self)@.take(i as int).contains(c@));
                        let m = choose|m: int| 0 <= m < i && old(self)@.take(i as int)[m] == c@;
                        assert(old(self)@[m] == old(self)@[i as int]);
                        assert(false);
                    }
                }
                kept.push(c);
                proof {
                    assert(clauses_view(kept@) =~= clauses_view(pre).push(old(self)@[i as int]));
                }
            }
            proof {
                let t = old(self)@.take(i + 1);
                let ghost cc = old(self)@[i as int];
                assert(forall|m: int| 0 <= m < i ==> t[m] == old(self)@.take(i as int)[m]);
                assert(t[i as int] == cc);
                assert forall|c2: Seq<Literal>|
                    clauses_view(kept@).contains(c2) implies (t.contains(c2) && !clauses_view(
                    clauses@,
                ).contains(c2)) by {
                    let k = choose|k: int| 0 <= k < kept@.len() && clauses_view(kept@)[k] == c2;
                    if k < pre.len() {
                        assert(clauses_view(pre).contains(c2)) by {
                            assert(clauses_view(pre)[k] == c2);
                        }
                        assert(old(self)@.take(i as int).contains(c2));
                        let m = choose|m: int| 0 <= m < i && old(self)@.take(i as int)[m] == c2;
                        assert(t.contains(c2)) by { assert(t[m] == c2); }
                    } else {
                        assert(c2 == cc);
                        assert(t.contains(c2)) by { assert(t[i as int] == c2); }
                    }
                }
                assert forall|c2: Seq<Literal>|
                    t.contains(c2) && !clauses_view(clauses@).contains(c2)
                    implies clauses_view(kept@).contains(c2) by {
                    let m = choose|m: int| 0 <= m < t.len() && t[m] == c2;
                    if m < i {
                        assert(old(self)@.take(i as int).contains(c2)) by {
                            assert(old(self)@.take(i as int)[m] == c2);
                        }
                        assert(clauses_view(pre).contains(c2));
                        let k = choose|k: int| 0 <= k < pre.len() && clauses_view(pre)[k] == c2;
                        assert(clauses_view(kept@)[k] == c2);
                    } else {
                        assert(c2 == cc);
                        assert(clauses_view(kept@)[kept@.len() - 1] == c2);
                    }
                }
                assert forall|k: int, m: int|
                    0 <= k < m < kept@.len() implies clauses_view(kept@)[k] != clauses_view(
                    kept@,
                )[m] by {
                    if m == kept@.len() - 1 && kept@.len() > pre.len() {
                        if clauses_view(kept@)[k] == cc {
                            assert(clauses_view(pre).contains(cc)) by {
                                assert(clauses_view(pre)[k] == cc);
                            }
                        }
                    }
                }
                assert forall|k: int|
                    0 <= k < kept@.len() implies old(self)@.contains(
                    #[trigger] clauses_view(kept@)[k],
                ) by {
                    if k >= pre.len() {
                        assert(old(self)@.contains(cc)) by { assert(old(self)@[i as int] == cc); }
                    }
                }
            }
            i += 1;
        }
        proof {
            assert(old(self)@.take(old(self)@.len() as int) =~= old(self)@);
        }
        self.clauses = kept;
        proof {
            assert forall|k: int|
                0 <= k < self@.len() implies sorted_strict(#[trigger] self@[k]) && clause_vars_le(
                self@[k],
                self.var_count as nat,
            ) by {
                assert(old(self)@.contains(self@[k]));
                let m = choose|m: int| 0 <= m < old(self)@.len() && old(self)@[m] == self@[k];
            }
        }
    }

    /// Insert every clause of the list, normalizing each and skipping
    /// duplicates.
    pub fn add_clauses(&mut self, clauses: &Vec<Vec<Literal>>)
        requires
            old(self).wf(),
        ensures
            final(self).wf(),
            final(self).var_count >= old(self).var_count,
            (forall|k: int|
                0 <= k < clauses@.len() ==> clause_vars_le(
                    (#[trigger] clauses@[k])@,
                    old(self).var_count as nat,
                )) ==> final(self).var_count == old(self).var_count,
            forall|c: Seq<Literal>|
                #![trigger final(self)@.contains(c)]
                #![trigger old(self)@.contains(c)]
                final(self)@.contains(c) <==> (old(self)@.contains(c) || exists|k: int|
                    0 <= k < clauses@.len() && norm_clause(#[trigger] clauses@[k]@) == c),
    {
        let mut i: usize = 0;
        while i < clauses.len()
            invariant
                0 <= i <= clauses@.len(),
                self.wf(),
                self.var_count >= old(self).var_count,
                (forall|k: int|
                    0 <= k < clauses@.len() ==> clause_vars_le(
                        (#[trigger] clauses@[k])@,
                        old(self).var_count as nat,
                    )) ==> self.var_count == old(self).var_count,
                forall|c: Seq<Literal>|
                    #![trigger self@.contains(c)]
                    #![trigger old(self)@.contains(c)]
                    self@.contains(c) <==> (old(self)@.contains(c) || exists|k: int|
                        0 <= k < i && norm_clause(#[trigger] clauses@[k]@) == c),
            decreases clauses@.len() - i,
        {
            let c = copy_clause(&clauses[i]);
            let ghost pre = self@;
            let ghost pre_vc = self.var_count as nat;
            self.add_clause(c);
            proof {
                lemma_max_var(clauses@[i as int]@, pre_vc);
                if forall|k: int|
                    0 <= k < clauses@.len() ==> clause_vars_le(
                        (#[trigger] clauses@[k])@,
                        old(self).var_count as nat,
                    ) {
                    assert(clause_vars_le(clauses@[i as int]@, old(self).var_count as nat));
                    assert(clause_vars_le(clauses@[i as int]@, pre_vc)) by {
                        assert(pre_vc >= old(self).var_count as nat);
                    }
                    lemma_max_var_floor(clauses@[i as int]@, pre_vc);
                }
                assert forall|c2: Seq<Literal>|
                    self@.contains(c2) implies (old(self)@.contains(c2) || exists|k: int|
                    0 <= k < i + 1 && norm_clause(#[trigger] clauses@[k]@) == c2) by {
                    assert(self@.to_set().contains(c2)) by { assert(self@.contains(c2)); }
                    if c2 == norm_clause(clauses@[i as int]@) {
                        assert(0 <= i < i + 1 && norm_clause(clauses@[i as int]@) == c2);
                    } else {
                        assert(pre.to_set().contains(c2));
                        assert(pre.contains(c2));
                    }
                }
                assert forall|c2: Seq<Literal>|
                    (old(self)@.contains(c2) || exists|k: int|
                        0 <= k < i + 1 && norm_clause(#[trigger] clauses@[k]@) == c2)
                    implies self@.contains(c2) by {
                    if c2 == norm_clause(clauses@[i as int]@) {
                        assert(self@.to_set().contains(c2));
                        assert(self@.contains(c2));
                    } else {
                        assert(pre.contains(c2));
                        assert(pre.to_set().contains(c2));
                        assert(self@.to_set().contains(c2));
                        assert(self@.contains(c2));
                    }
                }
            }
            i += 1;
        }
    }

    /// Whether the assignment, read as the set of literals forced true,
    /// hits every clause.
    pub fn eval(&self, assignment: &Vec<Literal>) -> (r: bool)
        ensures
            r == cnf_sat_by(self@, assignment@),
    {
        let mut i: usize = 0;
        while i < self.clauses.len()
            invariant
                0 <= i <= self@.len(),
                forall|k: int| 0 <= k < i ==> clause_sat_by(assignment@, #[trigger] self@[k]),
            decreases self@.len() - i,
        {
            proof {
                assert(self@[i as int] == self.clauses@[i as int]@);
            }
            if !clause_hit(assignment, &self.clauses[i]) {
                return false;
            }
            i += 1;
        }
        true
    }

    /// Whether some clause is the empty clause, which makes the CNF
    /// unsatisfiable.
    pub fn has_empty_clause(&self) -> (r: bool)
        ensures
            r == exists|i: int| 0 <= i < self@.len() && self@[i].len() == 0,
    {
        let mut i: usize = 0;
        while i < self.clauses.len()
            invariant
                0 <= i <= self@.len(),
                self@.len() == self.clauses@.len(),
                forall|k: int| 0 <= k < i ==> self@[k].len() != 0,
            decreases self@.len() - i,
        {
            assert(self@[i as int] == self.clauses@[i as int]@);
            if self.clauses[i].len() == 0 {
                return true;
            }
            i += 1;
        }
        false
    }
}

} // verus!
