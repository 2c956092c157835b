//! The PPSZ-style solver: bounded resolution preprocessing over an
//! indexed clause store, then randomized restarts that assign variables
//! in a random order, following unit clauses when one is available.

use vstd::prelude::*;

use crate::cnf::clause_contains;
use crate::cnf::clause_vars_le;
use crate::cnf::cnf_sat_by;
use crate::cnf::copy_clause;
use crate::cnf::lit_neg;
use crate::cnf::non_taut;
use crate::cnf::sorted_strict;
use crate::cnf::Literal;
use crate::cnf::CNF;
use crate::rng::rand_bool;
use crate::rng::rand_shuffle;
use crate::simplify::clause_is_taut;
use crate::simplify::lemma_resolution_correct;
use crate::simplify::resolvent_set;
use crate::simplify::val_sat_clause;
use crate::simplify::val_sat_lit;
use crate::simplify::SATSolver;
use crate::solver::Error;
use crate::solver::Solver;

verus! {

/// The index code of a literal: two slots per variable, the negated
/// polarity on the odd one.
pub open spec fn code_of(l: Literal) -> int {
    2 * (l.var as int) + if l.sign {
        1int
    } else {
        0int
    }
}

/// The executable literal code.
pub fn code_of_exec(l: Literal) -> (r: usize)
    requires
        l.var < usize::MAX / 2,
    ensures
        r as int == code_of(l),
{
    2 * l.var + if l.sign {
        1
    } else {
        0
    }
}

/// Some entry of the index list equals `i`.
pub open spec fn idx_has(s: Seq<usize>, i: int) -> bool {
    exists|j: int| 0 <= j < s.len() && s[j] as int == i
}

/// The clause with both polarities of the pivot's variable removed, in
/// order.
pub open spec fn residual_of(c: Seq<Literal>, l: Literal) -> Seq<Literal>
    decreases c.len(),
{
    if c.len() == 0 {
        Seq::<Literal>::empty()
    } else {
        let rest = residual_of(c.drop_last(), l);
        if c.last() == l || c.last() == lit_neg(l) {
            rest
        } else {
            rest.push(c.last())
        }
    }
}

/// The residual keeps exactly the other literals and stays sorted.
pub proof fn lemma_residual_of_props(c: Seq<Literal>, l: Literal)
    ensures
        forall|y: Literal|
            #[trigger] residual_of(c, l).contains(y) <==> (c.contains(y) && y != l && y
                != lit_neg(l)),
        sorted_strict(c) ==> sorted_strict(residual_of(c, l)),
        residual_of(c, l).len() <= c.len(),
    decreases c.len(),
{
    let f = residual_of(c, l);
    if c.len() == 0 {
        assert forall|y: Literal| #[trigger] f.contains(y) implies (c.contains(y) && y != l && y
            != lit_neg(l)) by {
            let k = choose|k: int| 0 <= k < f.len() && f[k] == y;
        }
    } else {
        let d = c.drop_last();
        lemma_residual_of_props(d, l);
        let fd = residual_of(d, l);
        if sorted_strict(c) {
            assert(sorted_strict(d)) by {
                assert(forall|k: int| 0 <= k < d.len() ==> #[trigger] d[k] == c[k]);
            }
            if !(c.last() == l || c.last() == lit_neg(l)) {
                assert forall|i: int, j: int| 0 <= i < j < f.len() implies crate::cnf::lit_lt(
                    f[i],
                    f[j],
                ) by {
                    if j < f.len() - 1 {
                        assert(f[i] == fd[i] && f[j] == fd[j]);
                    } else {
                        assert(f[j] == c.last());
                        assert(fd.contains(fd[i])) by { assert(fd[i] == fd[i]); }
                        assert(d.contains(f[i]));
                        let k = choose|k: int| 0 <= k < d.len() && d[k] == f[i];
                        assert(d[k] == c[k]);
                        assert(crate::cnf::lit_lt(c[k], c.last()));
                    }
                }
                assert(sorted_strict(f));
            } else {
                assert(f == fd);
            }
        }
        assert forall|y: Literal| #[trigger] f.contains(y) implies (c.contains(y) && y != l && y
            != lit_neg(l)) by {
            let k = choose|k: int| 0 <= k < f.len() && f[k] == y;
            if !(c.last() == l || c.last() == lit_neg(l)) && k == f.len() - 1 {
                assert(y == c.last());
                assert(c.contains(y)) by { assert(c[c.len() - 1] == y); }
            } else {
                assert(fd.contains(y)) by { assert(fd[k] == y); }
                assert(d.contains(y));
                let m = choose|m: int| 0 <= m < d.len() && d[m] == y;
                assert(c.contains(y)) by { assert(c[m] == y); }
            }
        }
        assert forall|y: Literal| c.contains(y) && y != l && y != lit_neg(l) implies #[trigger]
            f.contains(y) by {
            let k = choose|k: int| 0 <= k < c.len() && c[k] == y;
            if k == c.len() - 1 {
                assert(f.contains(y)) by { assert(f[f.len() - 1] == y); }
            } else {
                assert(d.contains(y)) by { assert(d[k] == y); }
                assert(fd.contains(y));
                let m = choose|m: int| 0 <= m < fd.len() && fd[m] == y;
                assert(f.contains(y)) by { assert(f[m] == y); }
            }
        }
    }
}

/// The residual of a clause under a committed literal is present in the
/// store: as a unit literal when one literal is left, in the clause list
/// otherwise.
pub open spec fn residual_recorded(e: ExtendedCNF, c: Seq<Literal>, l: Literal) -> bool {
    if residual_of(c, l).len() == 1 {
        e.unit_clauses@.contains(residual_of(c, l)[0])
    } else {
        exists|j: int| 0 <= j < e.clauses@.len() && #[trigger] e.clauses@[j]@ == residual_of(c, l)
    }
}

/// A denormalized clause store for PPSZ. Non-unit clauses sit in
/// `clauses` and are never removed; `active` marks the live ones. For
/// every literal, `lit_index` lists the live clauses that contain it.
/// Unit clauses live in `unit_clauses` as bare literals.
pub struct ExtendedCNF {
    pub clauses: Vec<Vec<Literal>>,
    pub active: Vec<bool>,
    pub lit_index: Vec<Vec<usize>>,
    pub unit_clauses: Vec<Literal>,
    pub var_count: usize,
}

impl ExtendedCNF {
    /// The store's invariant: the index lists are duplicate-free, point
    /// at stored clauses, and list exactly the live clauses holding
    /// their literal; every stored clause is sorted with bounded
    /// variables, and the unit literals are duplicate-free and bounded.
    pub open spec fn wf(self) -> bool {
        &&& self.active@.len() == self.clauses@.len()
        &&& self.lit_index@.len() == 2 * (self.var_count as int) + 2
        &&& self.var_count < usize::MAX / 2
        &&& forall|code: int|
            0 <= code < self.lit_index@.len() ==> (#[trigger] self.lit_index@[code]@).no_duplicates()
        &&& forall|code: int, j: int|
            0 <= code < self.lit_index@.len() && 0 <= j < self.lit_index@[code]@.len() ==> (
            #[trigger] self.lit_index@[code]@[j]) < self.clauses@.len()
        &&& forall|l: Literal, i: int|
            l.var <= self.var_count && 0 <= i < self.clauses@.len() ==> (#[trigger] idx_has(
                self.lit_index@[code_of(l)]@,
                i,
            ) <==> (self.active@[i] && self.clauses@[i]@.contains(l)))
        &&& forall|i: int|
            0 <= i < self.clauses@.len() ==> sorted_strict(#[trigger] self.clauses@[i]@)
                && clause_vars_le(self.clauses@[i]@, self.var_count as nat)
        &&& self.unit_clauses@.no_duplicates()
        &&& forall|k: int|
            0 <= k < self.unit_clauses@.len() ==> (#[trigger] self.unit_clauses@[k]).var
                <= self.var_count
    }

    /// The clause sits in the store's clause list, live or not.
    pub open spec fn known_stored(self, c: Seq<Literal>) -> bool {
        exists|i: int| 0 <= i < self.clauses@.len() && #[trigger] self.clauses@[i]@ == c
    }

    /// Every stored clause, live or not, and every unit literal holds
    /// under the valuation.
    pub open spec fn stored_sat(self, v: spec_fn(int) -> bool) -> bool {
        &&& forall|i: int|
            0 <= i < self.clauses@.len() ==> val_sat_clause(v, #[trigger] self.clauses@[i]@)
        &&& forall|k: int|
            0 <= k < self.unit_clauses@.len() ==> val_sat_lit(v, #[trigger] self.unit_clauses@[k])
    }

    /// The clause is currently live in the store.
    pub open spec fn active_clause(self, c: Seq<Literal>) -> bool {
        exists|i: int|
            0 <= i < self.clauses@.len() && self.active@[i] && #[trigger] self.clauses@[i]@ == c
    }
}

/// Literal codes are unique per literal.
pub proof fn lemma_code_inj(a: Literal, b: Literal)
    ensures
        code_of(a) == code_of(b) ==> a == b,
{
    if code_of(a) == code_of(b) {
        if a.sign == b.sign {
            assert(a.var == b.var);
        } else {
            assert(false);
        }
    }
}

impl ExtendedCNF {
    /// Drop clause `i` from the live set: unlist it from every literal's
    /// index list and clear its mark.
    fn deactivate(&mut self, i: usize)
        requires
            old(self).wf(),
            i < old(self).clauses@.len(),
        ensures
            final(self).wf(),
            final(self).clauses@ == old(self).clauses@,
            final(self).unit_clauses@ == old(self).unit_clauses@,
            final(self).var_count == old(self).var_count,
            final(self).active@ == old(self).active@.update(i as int, false),
    {
        let ghost c = self.clauses@[i as int]@;
        let n = self.clauses[i].len();
        let mut k: usize = 0;
        while k < n
            invariant
                0 <= k <= c.len(),
                n == c.len(),
                i < self.clauses@.len(),
                self.clauses@ == old(self).clauses@,
                self.active@ == old(self).active@,
                self.unit_clauses@ == old(self).unit_clauses@,
                self.var_count == old(self).var_count,
                self.var_count < usize::MAX / 2,
                self.lit_index@.len() == old(self).lit_index@.len(),
                self.lit_index@.len() == 2 * (self.var_count as int) + 2,
                self.active@.len() == self.clauses@.len(),
                c == self.clauses@[i as int]@,
                sorted_strict(c),
                clause_vars_le(c, self.var_count as nat),
                forall|code: int|
                    0 <= code < self.lit_index@.len() ==> (
                    #[trigger] self.lit_index@[code]@).no_duplicates(),
                forall|code: int, j: int|
                    0 <= code < self.lit_index@.len() && 0 <= j < self.lit_index@[code]@.len()
                        ==> (#[trigger] self.lit_index@[code]@[j]) < self.clauses@.len(),
                forall|l2: Literal, i2: int|
                    l2.var <= self.var_count && 0 <= i2 < self.clauses@.len() && i2 != i as int
                        ==> (#[trigger] idx_has(self.lit_index@[code_of(l2)]@, i2) <==> (
                    self.active@[i2] && self.clauses@[i2]@.contains(l2))),
                forall|l2: Literal|
                    l2.var <= self.var_count ==> (#[trigger] idx_has(
                        self.lit_index@[code_of(l2)]@,
                        i as int,
                    ) <==> (self.active@[i as int] && exists|j: int|
                        k <= j < c.len() && c[j] == l2)),
            decreases c.len() - k,
        {
            proof {
                assert(c[k as int].var <= self.var_count);
            }
            let lit = self.clauses[i][k];
            let code = code_of_exec(lit);
            let ghost pre_rows = self.lit_index@;
            let ghost pre_row = self.lit_index@[code as int]@;
            remove_index(&mut self.lit_index[code], i);
            proof {
                let rows = self.lit_index@;
                assert(rows == pre_rows.update(code as int, rows[code as int]));
                assert(forall|cd: int|
                    0 <= cd < rows.len() && cd != code as int ==> #[trigger] rows[cd]
                        == pre_rows[cd]);
                let row = rows[code as int]@;
                // Validity of the shrunk list.
                assert forall|j: int| 0 <= j < row.len() implies (#[trigger] row[j])
                    < self.clauses@.len() by {
                    assert(row.contains(row[j]));
                    assert(pre_row.contains(row[j]));
                    let m = choose|m: int| 0 <= m < pre_row.len() && pre_row[m] == row[j];
                }
                // The iff for clauses other than i is untouched: only
                // the entry i left the list for this literal's code.
                assert forall|l2: Literal, i2: int|
                    l2.var <= self.var_count && 0 <= i2 < self.clauses@.len() && i2 != i as int
                    implies (#[trigger] idx_has(rows[code_of(l2)]@, i2) <==> (self.active@[i2]
                    && self.clauses@[i2]@.contains(l2))) by {
                    if code_of(l2) == code as int {
                        assert(idx_has(row, i2) <==> idx_has(pre_row, i2)) by {
                            if idx_has(row, i2) {
                                let j = choose|j: int|
                                    0 <= j < row.len() && row[j] as int == i2;
                                assert(row.contains(row[j]));
                                assert(pre_row.contains(row[j]));
                                let m = choose|m: int|
                                    0 <= m < pre_row.len() && pre_row[m] == row[j];
                                assert(idx_has(pre_row, i2)) by {
                                    assert(pre_row[m] as int == i2);
                                }
                            }
                            if idx_has(pre_row, i2) {
                                let j = choose|j: int|
                                    0 <= j < pre_row.len() && pre_row[j] as int == i2;
                                assert(pre_row.contains(pre_row[j]));
                                assert(pre_row[j] != i);
                                assert(row.contains(pre_row[j]));
                                let m = choose|m: int|
                                    0 <= m < row.len() && row[m] == pre_row[j];
                                assert(idx_has(row, i2)) by { assert(row[m] as int == i2); }
                            }
                        }
                    }
                }
                // For clause i itself, the processed prefix has grown.
                assert forall|l2: Literal| l2.var <= self.var_count implies (#[trigger] idx_has(
                    rows[code_of(l2)]@,
                    i as int,
                ) <==> (self.active@[i as int] && exists|j: int|
                    k + 1 <= j < c.len() && c[j] == l2)) by {
                    lemma_code_inj(l2, c[k as int]);
                    if l2 == c[k as int] {
                        assert(!idx_has(row, i as int)) by {
                            if idx_has(row, i as int) {
                                let j = choose|j: int|
                                    0 <= j < row.len() && row[j] as int == i as int;
                                assert(row.contains(row[j]));
                                assert(row[j] != i);
                            }
                        }
                        assert(!(exists|j: int| k + 1 <= j < c.len() && c[j] == l2)) by {
                            if exists|j: int| k + 1 <= j < c.len() && c[j] == l2 {
                                let j = choose|j: int| k + 1 <= j < c.len() && c[j] == l2;
                                assert(crate::cnf::lit_lt(c[k as int], c[j]));
                            }
                        }
                    } else {
                        assert(code_of(l2) != code as int);
                        assert(rows[code_of(l2)] == pre_rows[code_of(l2)]);
                        assert((exists|j: int| k <= j < c.len() && c[j] == l2) <==> (exists|j: int|
                            k + 1 <= j < c.len() && c[j] == l2)) by {
                            if exists|j: int| k <= j < c.len() && c[j] == l2 {
                                let j = choose|j: int| k <= j < c.len() && c[j] == l2;
                                assert(j != k);
                            }
                        }
                    }
                }
            }
            k += 1;
        }
        self.active.set(i, false);
        proof {
            assert forall|l2: Literal, i2: int|
                l2.var <= self.var_count && 0 <= i2 < self.clauses@.len() implies (
            #[trigger] idx_has(self.lit_index@[code_of(l2)]@, i2) <==> (self.active@[i2]
                && self.clauses@[i2]@.contains(l2))) by {
                if i2 == i as int {
                    assert(!self.active@[i2]);
                    assert(!idx_has(self.lit_index@[code_of(l2)]@, i2)) by {
                        if idx_has(self.lit_index@[code_of(l2)]@, i2) {
                            assert(exists|j: int| c.len() <= j < c.len() && c[j] == l2);
                        }
                    }
                }
            }
        }
    }

    /// Append a clause as a live entry and list it for each literal.
    fn push_active_clause(&mut self, c: Vec<Literal>)
        requires
            old(self).wf(),
            sorted_strict(c@),
            clause_vars_le(c@, old(self).var_count as nat),
        ensures
            final(self).wf(),
            final(self).clauses@.len() == old(self).clauses@.len() + 1,
            forall|i2: int|
                0 <= i2 < old(self).clauses@.len() ==> #[trigger] final(self).clauses@[i2]
                    == old(self).clauses@[i2],
            final(self).clauses@[old(self).clauses@.len() as int]@ == c@,
            final(self).active@ == old(self).active@.push(true),
            final(self).unit_clauses@ == old(self).unit_clauses@,
            final(self).var_count == old(self).var_count,
    {
        let i = self.clauses.len();
        let ghost cv = c@;
        self.clauses.push(c);
        self.active.push(true);
        proof {
            assert(self.clauses@[i as int]@ == cv);
            assert(forall|i2: int|
                0 <= i2 < i ==> #[trigger] self.clauses@[i2] == old(self).clauses@[i2]);
            assert(forall|i2: int|
                0 <= i2 < i ==> #[trigger] self.active@[i2] == old(self).active@[i2]);
        }
        let n = self.clauses[i].len();
        let mut k: usize = 0;
        while k < n
            invariant
                0 <= k <= cv.len(),
                n == cv.len(),
                i < self.clauses@.len(),
                i as int == self.clauses@.len() - 1,
                self.clauses@.len() == old(self).clauses@.len() + 1,
                forall|i2: int|
                    0 <= i2 < i ==> #[trigger] self.clauses@[i2] == old(self).clauses@[i2],
                self.clauses@[i as int]@ == cv,
                self.active@ == old(self).active@.push(true),
                self.unit_clauses@ == old(self).unit_clauses@,
                self.var_count == old(self).var_count,
                self.var_count < usize::MAX / 2,
                self.lit_index@.len() == old(self).lit_index@.len(),
                self.lit_index@.len() == 2 * (self.var_count as int) + 2,
                self.active@.len() == self.clauses@.len(),
                sorted_strict(cv),
                clause_vars_le(cv, self.var_count as nat),
                forall|code: int|
                    0 <= code < self.lit_index@.len() ==> (
                    #[trigger] self.lit_index@[code]@).no_duplicates(),
                forall|code: int, j: int|
                    0 <= code < self.lit_index@.len() && 0 <= j < self.lit_index@[code]@.len()
                        ==> (#[trigger] self.lit_index@[code]@[j]) < self.clauses@.len(),
                forall|l2: Literal, i2: int|
                    l2.var <= self.var_count && 0 <= i2 < self.clauses@.len() && i2 != i as int
                        ==> (#[trigger] idx_has(self.lit_index@[code_of(l2)]@, i2) <==> (
                    self.active@[i2] && self.clauses@[i2]@.contains(l2))),
                forall|l2: Literal|
                    l2.var <= self.var_count ==> (#[trigger] idx_has(
                        self.lit_index@[code_of(l2)]@,
                        i as int,
                    ) <==> exists|j: int| 0 <= j < k && cv[j] == l2),
            decreases cv.len() - k,
        {
            proof {
                assert(cv[k as int].var <= self.var_count);
            }
            let lit = self.clauses[i][k];
            let code = code_of_exec(lit);
            let ghost pre_rows = self.lit_index@;
            let ghost pre_row = self.lit_index@[code as int]@;
            proof {
                // The new entry is not yet listed: all entries are
                // below the new clause's position or differ from it.
                assert(!pre_row.contains(i)) by {
                    if pre_row.contains(i) {
                        let j = choose|j: int| 0 <= j < pre_row.len() && pre_row[j] == i;
                        assert(idx_has(pre_row, i as int)) by {
                            assert(pre_row[j] as int == i as int);
                        }
                        assert(exists|j2: int| 0 <= j2 < k && cv[j2] == lit);
                        let j2 = choose|j2: int| 0 <= j2 < k && cv[j2] == lit;
                        assert(crate::cnf::lit_lt(cv[j2], cv[k as int]));
                    }
                }
            }
            self.lit_index[code].push(i);
            proof {
                let rows = self.lit_index@;
                let row = rows[code as int]@;
                assert(row == pre_row.push(i));
                assert(forall|cd: int|
                    0 <= cd < rows.len() && cd != code as int ==> #[trigger] rows[cd]
                        == pre_rows[cd]);
                assert(row.no_duplicates()) by {
                    assert forall|a: int, b: int|
                        0 <= a < b < row.len() implies row[a] != row[b] by {
                        if b == row.len() - 1 {
                            if row[a] == i {
                                assert(pre_row.contains(i)) by { assert(pre_row[a] == i); }
                            }
                        } else {
                            assert(row[a] == pre_row[a] && row[b] == pre_row[b]);
                        }
                    }
                }
                assert forall|j: int| 0 <= j < row.len() implies (#[trigger] row[j])
                    < self.clauses@.len() by {
                    if j < row.len() - 1 {
                        assert(row[j] == pre_row[j]);
                    }
                }
                assert forall|l2: Literal, i2: int|
                    l2.var <= self.var_count && 0 <= i2 < self.clauses@.len() && i2 != i as int
                    implies (#[trigger] idx_has(rows[code_of(l2)]@, i2) <==> (self.active@[i2]
                    && self.clauses@[i2]@.contains(l2))) by {
                    if code_of(l2) == code as int {
                        assert(idx_has(row, i2) <==> idx_has(pre_row, i2)) by {
                            if idx_has(row, i2) {
                                let j = choose|j: int|
                                    0 <= j < row.len() && row[j] as int == i2;
                                assert(j < row.len() - 1);
                                assert(idx_has(pre_row, i2)) by {
                                    assert(pre_row[j] as int == i2);
                                }
                            }
                            if idx_has(pre_row, i2) {
                                let j = choose|j: int|
                                    0 <= j < pre_row.len() && pre_row[j] as int == i2;
                                assert(idx_has(row, i2)) by { assert(row[j] as int == i2); }
                            }
                        }
                    }
                }
                assert forall|l2: Literal| l2.var <= self.var_count implies (#[trigger] idx_has(
                    rows[code_of(l2)]@,
                    i as int,
                ) <==> exists|j: int| 0 <= j < k + 1 && cv[j] == l2) by {
                    lemma_code_inj(l2, cv[k as int]);
                    if l2 == cv[k as int] {
                        assert(idx_has(row, i as int)) by {
                            assert(row[row.len() - 1] as int == i as int);
                        }
                        assert(exists|j: int| 0 <= j < k + 1 && cv[j] == l2) by {
                            assert(cv[k as int] == l2);
                        }
                    } else {
                        assert(code_of(l2) != code as int);
                        assert(rows[code_of(l2)] == pre_rows[code_of(l2)]);
                        assert((exists|j: int| 0 <= j < k && cv[j] == l2) <==> (exists|j: int|
                            0 <= j < k + 1 && cv[j] == l2)) by {
                            if exists|j: int| 0 <= j < k + 1 && cv[j] == l2 {
                                let j = choose|j: int| 0 <= j < k + 1 && cv[j] == l2;
                                assert(j != k);
                            }
                        }
                    }
                }
            }
            k += 1;
        }
        proof {
            assert forall|l2: Literal, i2: int|
                l2.var <= self.var_count && 0 <= i2 < self.clauses@.len() implies (
            #[trigger] idx_has(self.lit_index@[code_of(l2)]@, i2) <==> (self.active@[i2]
                && self.clauses@[i2]@.contains(l2))) by {
                if i2 == i as int {
                    assert((exists|j: int| 0 <= j < cv.len() && cv[j] == l2) == cv.contains(l2));
                    assert(self.active@[i2]);
                }
            }
        }
    }

    /// Record a unit literal unless it is already recorded.
    fn push_unit(&mut self, l: Literal)
        requires
            old(self).wf(),
            l.var <= old(self).var_count,
        ensures
            final(self).wf(),
            final(self).clauses@ == old(self).clauses@,
            final(self).active@ == old(self).active@,
            final(self).var_count == old(self).var_count,
            forall|x: Literal|
                #![trigger final(self).unit_clauses@.contains(x)]
                final(self).unit_clauses@.contains(x) <==> (old(self).unit_clauses@.contains(x)
                    || x == l),
            old(self).unit_clauses@.contains(l) ==> final(self).unit_clauses@ == old(self).unit_clauses@,
            !old(self).unit_clauses@.contains(l) ==> final(self).unit_clauses@ == old(self).unit_clauses@.push(l),
            final(self).lit_index@ == old(self).lit_index@,
    {
        let ghost pre = self.unit_clauses@;
        if !clause_contains(&self.unit_clauses, l) {
            self.unit_clauses.push(l);
            proof {
                assert(self.unit_clauses@ == pre.push(l));
                assert forall|x: Literal| #[trigger]
                    self.unit_clauses@.contains(x) implies (pre.contains(x) || x == l) by {
                    let j = choose|j: int|
                        0 <= j < self.unit_clauses@.len() && self.unit_clauses@[j] == x;
                    if j < pre.len() {
                        assert(pre.contains(x)) by { assert(pre[j] == x); }
                    }
                }
                assert forall|x: Literal| pre.contains(x) || x == l implies #[trigger]
                    self.unit_clauses@.contains(x) by {
                    if x == l {
                        assert(self.unit_clauses@[pre.len() as int] == l);
                    } else {
                        let j = choose|j: int| 0 <= j < pre.len() && pre[j] == x;
                        assert(self.unit_clauses@[j] == x);
                    }
                }
                assert(self.unit_clauses@.no_duplicates()) by {
                    assert forall|a: int, b: int|
                        0 <= a < b < self.unit_clauses@.len() implies self.unit_clauses@[a]
                        != self.unit_clauses@[b] by {
                        if b == self.unit_clauses@.len() - 1 {
                            if self.unit_clauses@[a] == l {
                                assert(pre.contains(l)) by { assert(pre[a] == l); }
                            }
                        }
                    }
                }
            }
        }
    }
}

impl ExtendedCNF {
    /// A clause is known when it is stored, as a unit literal for
    /// singletons and in the clause store otherwise, live or not.
    pub open spec fn known(self, c: Seq<Literal>) -> bool {
        if c.len() == 1 {
            self.unit_clauses@.contains(c[0])
        } else {
            exists|i: int| 0 <= i < self.clauses@.len() && #[trigger] self.clauses@[i]@ == c
        }
    }

    /// Build the indexed store from a CNF: unit clauses become unit
    /// literals, larger clauses are stored live and indexed.
    pub fn from_cnf(cnf: &CNF) -> (r: ExtendedCNF)
        requires
            cnf.wf(),
            cnf.var_count < usize::MAX / 2,
        ensures
            r.wf(),
            r.var_count == cnf.var_count,
            forall|l: Literal| #[trigger] r.unit_clauses@.contains(l) <==> cnf@.contains(seq![l]),
            forall|c: Seq<Literal>|
                #[trigger] r.active_clause(c) <==> (cnf@.contains(c) && c.len() != 1),
    {
        let ghost cs0 = cnf@;
        let target = 2 * cnf.var_count + 2;
        let mut lit_index: Vec<Vec<usize>> = Vec::new();
        while lit_index.len() < target
            invariant
                lit_index@.len() <= target,
                forall|code: int|
                    0 <= code < lit_index@.len() ==> (#[trigger] lit_index@[code]@).len() == 0,
            decreases target - lit_index@.len(),
        {
            lit_index.push(Vec::new());
        }
        let mut ext = ExtendedCNF {
            clauses: Vec::new(),
            active: Vec::new(),
            lit_index,
            unit_clauses: Vec::new(),
            var_count: cnf.var_count,
        };
        proof {
            assert(ext.wf()) by {
                assert forall|l: Literal, i: int|
                    l.var <= ext.var_count && 0 <= i < ext.clauses@.len() implies (
                #[trigger] idx_has(ext.lit_index@[code_of(l)]@, i) <==> (ext.active@[i]
                    && ext.clauses@[i]@.contains(l))) by {}
            }
        }
        let mut i: usize = 0;
        while i < cnf.clauses.len()
            invariant
                0 <= i <= cs0.len(),
                cs0 == cnf@,
                cnf.wf(),
                ext.wf(),
                ext.var_count == cnf.var_count,
                forall|l: Literal| #[trigger]
                    ext.unit_clauses@.contains(l) <==> exists|k: int|
                        0 <= k < i && cs0[k] =~= seq![l],
                forall|c: Seq<Literal>| #[trigger]
                    ext.active_clause(c) <==> (exists|k: int| 0 <= k < i && cs0[k] == c && c.len()
                        != 1),
            decreases cs0.len() - i,
        {
            proof {
                assert(cs0[i as int] == cnf.clauses@[i as int]@);
                assert(clause_vars_le(cs0[i as int], cnf.var_count as nat));
            }
            let c = copy_clause(&cnf.clauses[i]);
            let ghost cv = c@;
            if c.len() == 1 {
                let l0 = c[0];
                let ghost pre = ext;
                ext.push_unit(l0);
                proof {
                    assert forall|l: Literal| #[trigger]
                        ext.unit_clauses@.contains(l) implies exists|k: int|
                        0 <= k < i + 1 && cs0[k] =~= seq![l] by {
                        if l == l0 {
                            assert(cs0[i as int] =~= seq![l0]);
                        }
                    }
                    assert forall|l: Literal|
                        (exists|k: int| 0 <= k < i + 1 && cs0[k] =~= seq![l]) implies #[trigger]
                        ext.unit_clauses@.contains(l) by {
                        let k = choose|k: int| 0 <= k < i + 1 && cs0[k] =~= seq![l];
                        if k == i {
                            assert(l == l0) by { assert(cs0[i as int][0] == l); }
                        }
                    }
                    assert forall|c2: Seq<Literal>| #[trigger]
                        ext.active_clause(c2) implies (exists|k: int|
                        0 <= k < i + 1 && cs0[k] == c2 && c2.len() != 1) by {
                        let i2 = choose|i2: int|
                            0 <= i2 < ext.clauses@.len() && ext.active@[i2]
                                && #[trigger] ext.clauses@[i2]@ == c2;
                        assert(pre.active_clause(c2)) by {
                            assert(pre.clauses@[i2]@ == c2 && pre.active@[i2]);
                        }
                    }
                    assert forall|c2: Seq<Literal>|
                        (exists|k: int| 0 <= k < i + 1 && cs0[k] == c2 && c2.len() != 1)
                        implies #[trigger] ext.active_clause(c2) by {
                        let k = choose|k: int| 0 <= k < i + 1 && cs0[k] == c2 && c2.len() != 1;
                        assert(k < i);
                        assert(pre.active_clause(c2));
                        let i2 = choose|i2: int|
                            0 <= i2 < pre.clauses@.len() && pre.active@[i2]
                                && #[trigger] pre.clauses@[i2]@ == c2;
                        assert(ext.active_clause(c2)) by {
                            assert(ext.clauses@[i2]@ == c2 && ext.active@[i2]);
                        }
                    }
                }
            } else {
                let ghost pre = ext;
                ext.push_active_clause(c);
                proof {
                    let ni = pre.clauses@.len() as int;
                    assert forall|c2: Seq<Literal>| #[trigger]
                        ext.active_clause(c2) implies (exists|k: int|
                        0 <= k < i + 1 && cs0[k] == c2 && c2.len() != 1) by {
                        let i2 = choose|i2: int|
                            0 <= i2 < ext.clauses@.len() && ext.active@[i2]
                                && #[trigger] ext.clauses@[i2]@ == c2;
                        if i2 < ni {
                            assert(pre.active_clause(c2)) by {
                                assert(pre.clauses@[i2]@ == c2 && pre.active@[i2]);
                            }
                        } else {
                            assert(c2 == cv);
                            assert(cs0[i as int] == c2);
                        }
                    }
                    assert forall|c2: Seq<Literal>|
                        (exists|k: int| 0 <= k < i + 1 && cs0[k] == c2 && c2.len() != 1)
                        implies #[trigger] ext.active_clause(c2) by {
                        let k = choose|k: int| 0 <= k < i + 1 && cs0[k] == c2 && c2.len() != 1;
                        if k < i {
                            assert(pre.active_clause(c2));
                            let i2 = choose|i2: int|
                                0 <= i2 < pre.clauses@.len() && pre.active@[i2]
                                    && #[trigger] pre.clauses@[i2]@ == c2;
                            assert(ext.active_clause(c2)) by {
                                assert(ext.clauses@[i2]@ == c2 && ext.active@[i2]);
                            }
                        } else {
                            assert(ext.active_clause(c2)) by {
                                assert(ext.clauses@[ni]@ == c2 && ext.active@[ni]);
                            }
                        }
                    }
                    assert forall|l: Literal| #[trigger]
                        ext.unit_clauses@.contains(l) implies exists|k: int|
                        0 <= k < i + 1 && cs0[k] =~= seq![l] by {}
                    assert forall|l: Literal|
                        (exists|k: int| 0 <= k < i + 1 && cs0[k] =~= seq![l]) implies #[trigger]
                        ext.unit_clauses@.contains(l) by {
                        let k = choose|k: int| 0 <= k < i + 1 && cs0[k] =~= seq![l];
                        assert(k < i);
                    }
                }
            }
            i += 1;
        }
        proof {
            assert forall|l: Literal| #[trigger] ext.unit_clauses@.contains(l) implies
                cs0.contains(seq![l]) by {
                let k = choose|k: int| 0 <= k < cs0.len() && cs0[k] =~= seq![l];
                assert(cs0[k] == seq![l]);
            }
            assert forall|l: Literal| cs0.contains(seq![l]) implies #[trigger]
                ext.unit_clauses@.contains(l) by {
                let k = choose|k: int| 0 <= k < cs0.len() && cs0[k] == seq![l];
                assert(cs0[k] =~= seq![l]);
            }
            assert forall|c2: Seq<Literal>| #[trigger] ext.active_clause(c2) implies (
            cs0.contains(c2) && c2.len() != 1) by {
                let k = choose|k: int| 0 <= k < cs0.len() && cs0[k] == c2 && c2.len() != 1;
                assert(cs0.contains(c2)) by { assert(cs0[k] == c2); }
            }
            assert forall|c2: Seq<Literal>|
                cs0.contains(c2) && c2.len() != 1 implies #[trigger] ext.active_clause(c2) by {
                let k = choose|k: int| 0 <= k < cs0.len() && cs0[k] == c2;
            }
        }
        ext
    }

    /// The clause with both polarities of the pivot's variable removed,
    /// in order.
    pub fn clause_without_literal(clause: Vec<Literal>, l: Literal) -> (r: Vec<Literal>)
        ensures
            r@ == residual_of(clause@, l),
            forall|y: Literal| #[trigger]
                r@.contains(y) <==> (clause@.contains(y) && y != l && y != lit_neg(l)),
            sorted_strict(clause@) ==> sorted_strict(r@),
            r@.len() <= clause@.len(),
    {
        let mut r: Vec<Literal> = Vec::new();
        let mut j: usize = 0;
        while j < clause.len()
            invariant
                0 <= j <= clause@.len(),
                r@ == residual_of(clause@.take(j as int), l),
            decreases clause@.len() - j,
        {
            let keep = clause[j] != l && clause[j] != l.neg();
            if keep {
                r.push(clause[j]);
            }
            proof {
                let t = clause@.take(j + 1);
                assert(t.drop_last() =~= clause@.take(j as int));
                assert(t.last() == clause@[j as int]);
            }
            j += 1;
        }
        proof {
            assert(clause@.take(clause@.len() as int) =~= clause@);
            lemma_residual_of_props(clause@, l);
        }
        r
    }

    /// The index list of the clauses currently holding the literal.
    pub fn get_clauses_with(&self, l: Literal) -> (r: &Vec<usize>)
        requires
            self.wf(),
            l.var <= self.var_count,
        ensures
            r@ == self.lit_index@[code_of(l)]@,
    {
        let code = code_of_exec(l);
        &self.lit_index[code]
    }

    /// The index list of the clauses holding the literal, or nothing for
    /// a variable the store does not track.
    pub fn clauses_with(&self, l: Literal) -> (r: Option<&Vec<usize>>)
        requires
            self.wf(),
        ensures
            (r is Some) == (l.var <= self.var_count),
            r is Some ==> r->0@ == self.lit_index@[code_of(l)]@,
    {
        if l.var <= self.var_count {
            Some(self.get_clauses_with(l))
        } else {
            None
        }
    }

    /// Every literal for which either polarity currently indexes some
    /// clause, each listed once; the list is closed under negation.
    pub fn get_literals(&self) -> (r: Vec<Literal>)
        requires
            self.wf(),
        ensures
            r@.no_duplicates(),
            forall|k: int| 0 <= k < r@.len() ==> (#[trigger] r@[k]).var <= self.var_count,
            forall|x: Literal| #[trigger]
                r@.contains(x) <==> (x.var <= self.var_count && (self.lit_index@[code_of(
                    x,
                )]@.len() > 0 || self.lit_index@[code_of(lit_neg(x))]@.len() > 0)),
            forall|x: Literal| #[trigger] r@.contains(x) ==> r@.contains(lit_neg(x)),
    {
        let mut r: Vec<Literal> = Vec::new();
        let mut code: usize = 0;
        while code < self.lit_index.len()
            invariant
                0 <= code <= self.lit_index@.len(),
                self.wf(),
                r@.no_duplicates(),
                forall|k: int| 0 <= k < r@.len() ==> (#[trigger] r@[k]).var <= self.var_count,
                forall|x: Literal| #[trigger]
                    r@.contains(x) <==> (x.var <= self.var_count && exists|c: int|
                        0 <= c < code && (c == code_of(x) || c == code_of(lit_neg(x))) && (
                        #[trigger] self.lit_index@[c]@).len() > 0),
            decreases self.lit_index@.len() - code,
        {
            let ghost at_entry = r@;
            if self.lit_index[code].len() > 0 {
                let lit = Literal { var: code / 2, sign: code % 2 == 1 };
                proof {
                    assert(code < 2 * (self.var_count as int) + 2);
                    assert(code / 2 <= self.var_count);
                    assert(code_of(lit) == code as int);
                }
                if !clause_contains(&r, lit) {
                    let ghost pre = r@;
                    r.push(lit);
                    proof {
                        assert forall|a: int, b: int|
                            0 <= a < b < r@.len() implies r@[a] != r@[b] by {
                            if b == r@.len() - 1 {
                                if r@[a] == lit {
                                    assert(pre.contains(lit)) by { assert(pre[a] == lit); }
                                }
                            }
                        }
                        assert(r@.contains(lit)) by { assert(r@[r@.len() - 1] == lit); }
                    }
                }
                let ghost mid = r@;
                let nl = lit.neg();
                if !clause_contains(&r, nl) {
                    let ghost pre = r@;
                    r.push(nl);
                    proof {
                        assert forall|a: int, b: int|
                            0 <= a < b < r@.len() implies r@[a] != r@[b] by {
                            if b == r@.len() - 1 {
                                if r@[a] == nl {
                                    assert(pre.contains(nl)) by { assert(pre[a] == nl); }
                                }
                            }
                        }
                    }
                }
                proof {
                    assert(r@.contains(nl)) by {
                        if mid.contains(nl) {
                            let b = choose|b: int| 0 <= b < mid.len() && mid[b] == nl;
                            assert(r@[b] == nl);
                        } else {
                            assert(r@[r@.len() - 1] == nl);
                        }
                    }
                    assert(r@.contains(lit)) by {
                        assert(mid.contains(lit));
                        let a = choose|a: int| 0 <= a < mid.len() && mid[a] == lit;
                        assert(r@[a] == lit);
                    }
                    assert forall|x: Literal| #[trigger]
                        r@.contains(x) implies (x.var <= self.var_count && exists|c: int|
                        0 <= c < code + 1 && (c == code_of(x) || c == code_of(lit_neg(x))) && (
                        #[trigger] self.lit_index@[c]@).len() > 0) by {
                        if at_entry.contains(x) {
                        } else {
                            assert(x == lit || x == nl);
                            assert(code_of(lit) == code as int && code_of(lit_neg(nl))
                                == code as int);
                        }
                    }
                    assert forall|x: Literal|
                        (x.var <= self.var_count && exists|c: int|
                            0 <= c < code + 1 && (c == code_of(x) || c == code_of(lit_neg(x)))
                                && (#[trigger] self.lit_index@[c]@).len() > 0) implies #[trigger]
                        r@.contains(x) by {
                        let c = choose|c: int|
                            0 <= c < code + 1 && (c == code_of(x) || c == code_of(lit_neg(x)))
                                && self.lit_index@[c]@.len() > 0;
                        if c == code as int {
                            lemma_code_inj(x, lit);
                            lemma_code_inj(lit_neg(x), lit);
                            assert(x == lit || x == nl);
                        } else {
                            assert(at_entry.contains(x));
                            let a = choose|a: int|
                                0 <= a < at_entry.len() && at_entry[a] == x;
                            assert(r@.contains(x)) by { assert(r@[a] == x); }
                        }
                    }
                }
            } else {
                proof {
                    assert forall|x: Literal|
                        (x.var <= self.var_count && exists|c: int|
                            0 <= c < code + 1 && (c == code_of(x) || c == code_of(lit_neg(x)))
                                && (#[trigger] self.lit_index@[c]@).len() > 0) implies #[trigger]
                        r@.contains(x) by {
                        let c = choose|c: int|
                            0 <= c < code + 1 && (c == code_of(x) || c == code_of(lit_neg(x)))
                                && self.lit_index@[c]@.len() > 0;
                        assert(c != code as int);
                    }
                }
            }
            code += 1;
        }
        proof {
            assert forall|x: Literal| #[trigger]
                r@.contains(x) implies (x.var <= self.var_count && (self.lit_index@[code_of(
                x,
            )]@.len() > 0 || self.lit_index@[code_of(lit_neg(x))]@.len() > 0)) by {
                let c = choose|c: int|
                    0 <= c < self.lit_index@.len() && (c == code_of(x) || c == code_of(
                        lit_neg(x),
                    )) && self.lit_index@[c]@.len() > 0;
            }
            assert forall|x: Literal|
                (x.var <= self.var_count && (self.lit_index@[code_of(x)]@.len() > 0
                    || self.lit_index@[code_of(lit_neg(x))]@.len() > 0)) implies #[trigger]
                r@.contains(x) by {
                if self.lit_index@[code_of(x)]@.len() > 0 {
                    assert(0 <= code_of(x) < self.lit_index@.len());
                } else {
                    assert(0 <= code_of(lit_neg(x)) < self.lit_index@.len());
                }
            }
            assert forall|x: Literal| #[trigger] r@.contains(x) implies r@.contains(
                lit_neg(x),
            ) by {
                assert(lit_neg(lit_neg(x)) == x);
            }
        }
        r
    }

    /// Whether the clause is already known to the store.
    pub fn contains(&self, clause: &Vec<Literal>) -> (r: bool)
        ensures
            r == self.known(clause@),
    {
        if clause.len() == 1 {
            clause_contains(&self.unit_clauses, clause[0])
        } else {
            let r = crate::cnf::contains_clause(&self.clauses, clause);
            proof {
                if crate::cnf::clauses_view(self.clauses@).contains(clause@) {
                    let i = choose|i: int|
                        0 <= i < self.clauses@.len() && crate::cnf::clauses_view(
                            self.clauses@,
                        )[i] == clause@;
                    assert(self.clauses@[i]@ == clause@);
                }
                if self.known(clause@) {
                    let i = choose|i: int|
                        0 <= i < self.clauses@.len() && #[trigger] self.clauses@[i]@ == clause@;
                    assert(crate::cnf::clauses_view(self.clauses@)[i] == clause@);
                    assert(crate::cnf::clauses_view(self.clauses@).contains(clause@));
                }
            }
            r
        }
    }

    /// Add a clause unless an equal one is known: units join the unit
    /// literals, anything else is stored live. Reports whether anything
    /// was added.
    pub fn add_clause(&mut self, clause: Vec<Literal>) -> (r: bool)
        requires
            old(self).wf(),
            sorted_strict(clause@),
            clause_vars_le(clause@, old(self).var_count as nat),
        ensures
            final(self).wf(),
            final(self).var_count == old(self).var_count,
            r == !old(self).known(clause@),
            !r ==> final(self).unit_clauses@ == old(self).unit_clauses@ && final(self).clauses@
                == old(self).clauses@ && final(self).active@ == old(self).active@,
            r && clause@.len() == 1 ==> final(self).unit_clauses@ == old(self).unit_clauses@.push(clause@[0]) && final(self).clauses@ == old(self).clauses@
                && final(self).active@ == old(self).active@,
            r && clause@.len() != 1 ==> final(self).unit_clauses@ == old(self).unit_clauses@ && (
            forall|c2: Seq<Literal>| #[trigger]
                final(self).active_clause(c2) <==> (old(self).active_clause(c2) || c2
                    == clause@)),
            r && clause@.len() != 1 ==> final(self).active@ == old(self).active@.push(true),
            r && clause@.len() != 1 ==> final(self).clauses@.len() == old(self).clauses@.len() + 1
                && (forall|i: int|
                0 <= i < old(self).clauses@.len() ==> #[trigger] final(self).clauses@[i] == old(self).clauses@[i]) && final(self).clauses@[old(self).clauses@.len() as int]@
                == clause@,
            r && clause@.len() == 1 || !r ==> final(self).clauses@ == old(self).clauses@,
    {
        if self.contains(&clause) {
            return false;
        }
        if clause.len() == 1 {
            proof {
                assert(clause@[0].var <= self.var_count);
            }
            let l0 = clause[0];
            let ghost pre = self.unit_clauses@;
            self.push_unit(l0);
            proof {
                assert(self.unit_clauses@ == pre.push(clause@[0]));
            }
            true
        } else {
            let ghost pre = *self;
            self.push_active_clause(clause);
            proof {
                let ni = pre.clauses@.len() as int;
                assert forall|c2: Seq<Literal>| #[trigger]
                    self.active_clause(c2) implies (pre.active_clause(c2) || c2 == clause@) by {
                    let i2 = choose|i2: int|
                        0 <= i2 < self.clauses@.len() && self.active@[i2]
                            && #[trigger] self.clauses@[i2]@ == c2;
                    if i2 < ni {
                        assert(pre.active_clause(c2)) by {
                            assert(pre.clauses@[i2]@ == c2 && pre.active@[i2]);
                        }
                    }
                }
                assert forall|c2: Seq<Literal>|
                    (pre.active_clause(c2) || c2 == clause@) implies #[trigger] self.active_clause(
                    c2,
                ) by {
                    if c2 == clause@ {
                        assert(self.active_clause(c2)) by {
                            assert(self.clauses@[ni]@ == c2 && self.active@[ni]);
                        }
                    } else {
                        let i2 = choose|i2: int|
                            0 <= i2 < pre.clauses@.len() && pre.active@[i2]
                                && #[trigger] pre.clauses@[i2]@ == c2;
                        assert(self.active_clause(c2)) by {
                            assert(self.clauses@[i2]@ == c2 && self.active@[i2]);
                        }
                    }
                }
            }
            true
        }
    }
}

/// Remove the first occurrence of `x` from a duplicate-free literal list.
fn remove_lit(row: &mut Vec<Literal>, x: Literal)
    requires
        old(row)@.no_duplicates(),
    ensures
        final(row)@.no_duplicates(),
        forall|y: Literal| #[trigger] final(row)@.contains(y) <==> (old(row)@.contains(y) && y
            != x),
{
    let mut pos: usize = 0;
    while pos < row.len()
        invariant
            0 <= pos <= row@.len(),
            row@ == old(row)@,
            forall|j: int| 0 <= j < pos ==> row@[j] != x,
        decreases row@.len() - pos,
    {
        if row[pos] == x {
            row.remove(pos);
            proof {
                let pre = old(row)@;
                assert(pre[pos as int] == x);
                assert(forall|j: int| 0 <= j < pos ==> #[trigger] row@[j] == pre[j]);
                assert(forall|j: int| pos <= j < row@.len() ==> #[trigger] row@[j] == pre[j + 1]);
                assert(row@.no_duplicates()) by {
                    assert forall|a: int, b: int|
                        0 <= a < b < row@.len() implies row@[a] != row@[b] by {
                        if a < pos && b < pos {
                        } else if a < pos {
                            assert(row@[a] == pre[a] && row@[b] == pre[b + 1]);
                        } else {
                            assert(row@[a] == pre[a + 1] && row@[b] == pre[b + 1]);
                        }
                    }
                }
                assert forall|y: Literal| #[trigger] row@.contains(y) implies (pre.contains(y) && y
                    != x) by {
                    let j = choose|j: int| 0 <= j < row@.len() && row@[j] == y;
                    if j < pos {
                        assert(pre.contains(y)) by { assert(pre[j] == y); }
                        if y == x {
                            assert(pre[j] == pre[pos as int]);
                        }
                    } else {
                        assert(pre.contains(y)) by { assert(pre[j + 1] == y); }
                        if y == x {
                            assert(pre[j + 1] == pre[pos as int]);
                        }
                    }
                }
                assert forall|y: Literal| pre.contains(y) && y != x implies #[trigger]
                    row@.contains(y) by {
                    let j = choose|j: int| 0 <= j < pre.len() && pre[j] == y;
                    if j < pos {
                        assert(row@.contains(y)) by { assert(row@[j] == y); }
                    } else if j > pos {
                        assert(row@.contains(y)) by { assert(row@[j - 1] == y); }
                    }
                }
            }
            return ;
        }
        pos += 1;
    }
    proof {
        assert forall|y: Literal| #[trigger] row@.contains(y) implies (old(row)@.contains(y) && y
            != x) by {
            let j = choose|j: int| 0 <= j < row@.len() && row@[j] == y;
        }
    }
}

impl ExtendedCNF {
    /// Commit the literal as true. Fails when its negation is a unit.
    /// Otherwise the unit for it (if any) is consumed, every live clause
    /// holding it is dropped, and every live clause holding its negation
    /// is replaced by its residual, deduplicated, a residual of one
    /// literal joining the units. Afterwards nothing live mentions the
    /// literal's variable.
    pub fn apply(&mut self, l: Literal) -> (r: Option<Error>)
        requires
            old(self).wf(),
            l.var <= old(self).var_count,
        ensures
            final(self).wf(),
            final(self).var_count == old(self).var_count,
            (r is Some) == old(self).unit_clauses@.contains(lit_neg(l)),
            r is Some ==> final(self).unit_clauses@ == old(self).unit_clauses@ && final(self).clauses@ == old(self).clauses@ && final(self).active@ == old(self).active@,
            r is None ==> !final(self).unit_clauses@.contains(l) && !final(self).unit_clauses@.contains(lit_neg(l)),
            r is None ==> forall|u: Literal|
                old(self).unit_clauses@.contains(u) && u != l ==> final(self).unit_clauses@.contains(u),
            r is None ==> forall|i: int|
                0 <= i < final(self).clauses@.len() && final(self).active@[i] ==> !(
                #[trigger] final(self).clauses@[i]@).contains(l) && !final(self).clauses@[i]@.contains(lit_neg(l)),
            r is Some ==> r->0@ == "Unsatisfiable"@,
            r is None ==> final(self).clauses@.len() >= old(self).clauses@.len() && (forall|i: int|
                0 <= i < old(self).clauses@.len() ==> #[trigger] final(self).clauses@[i] == old(self).clauses@[i]),
            r is None ==> forall|i: int|
                0 <= i < old(self).clauses@.len() && old(self).active@[i] && !(
                #[trigger] old(self).clauses@[i]@).contains(l) && !old(self).clauses@[i]@.contains(lit_neg(l)) ==> final(self).active@[i],
            r is None ==> forall|i: int|
                0 <= i < old(self).clauses@.len() && old(self).active@[i] && (
                #[trigger] old(self).clauses@[i]@).contains(lit_neg(l)) && !old(self).clauses@[i]@.contains(l) ==> residual_recorded(
                    *final(self),
                    old(self).clauses@[i]@,
                    l,
                ),
            r is None ==> final(self).lit_index@[code_of(l)]@.len() == 0 && final(self).lit_index@[code_of(lit_neg(l))]@.len() == 0,
    {
        if clause_contains(&self.unit_clauses, l.neg()) {
            return Some(Error::new("Unsatisfiable"));
        }
        remove_lit(&mut self.unit_clauses, l);
        proof {
            assert(self.unit_clauses@.no_duplicates());
            assert(!self.unit_clauses@.contains(l));
            assert(!self.unit_clauses@.contains(lit_neg(l)));
            assert forall|k: int|
                0 <= k < self.unit_clauses@.len() implies (
            #[trigger] self.unit_clauses@[k]).var <= self.var_count by {
                assert(self.unit_clauses@.contains(self.unit_clauses@[k]));
                assert(old(self).unit_clauses@.contains(self.unit_clauses@[k]));
                let j = choose|j: int|
                    0 <= j < old(self).unit_clauses@.len() && old(self).unit_clauses@[j]
                        == self.unit_clauses@[k];
            }
        }
        // Drop every live clause satisfied by the literal.
        let code_l = code_of_exec(l);
        let sat_list = copy_row(&self.lit_index[code_l]);
        proof {
            assert forall|i2: int|
                0 <= i2 < self.clauses@.len() && self.active@[i2] && (
            #[trigger] self.clauses@[i2]@).contains(l) implies exists|j: int|
                0 <= j < sat_list@.len() && sat_list@[j] as int == i2 by {
                assert(idx_has(self.lit_index@[code_of(l)]@, i2));
            }
            assert forall|j: int| 0 <= j < sat_list@.len() implies (#[trigger] sat_list@[j])
                < self.clauses@.len() by {
                assert(sat_list@[j] == self.lit_index@[code_of(l)]@[j]);
            }
            assert forall|j: int| 0 <= j < sat_list@.len() implies (#[trigger] old(self).clauses@[sat_list@[j] as int]@).contains(l) by {
                assert(sat_list@[j] == self.lit_index@[code_of(l)]@[j]);
                assert(idx_has(self.lit_index@[code_of(l)]@, sat_list@[j] as int)) by {
                    assert(self.lit_index@[code_of(l)]@[j] as int == sat_list@[j] as int);
                }
            }
        }
        let ghost u1 = self.unit_clauses@;
        let mut m: usize = 0;
        while m < sat_list.len()
            invariant
                0 <= m <= sat_list@.len(),
                self.wf(),
                self.clauses@ == old(self).clauses@,
                self.unit_clauses@ == u1,
                self.var_count == old(self).var_count,
                l.var <= self.var_count,
                forall|j: int| 0 <= j < sat_list@.len() ==> (#[trigger] sat_list@[j]) < self.clauses@.len(),
                forall|j: int|
                    0 <= j < sat_list@.len() ==> (#[trigger] old(self).clauses@[sat_list@[j] as int]@).contains(l),
                forall|i2: int|
                    0 <= i2 < self.clauses@.len() && old(self).active@[i2] && !(
                    #[trigger] old(self).clauses@[i2]@).contains(l) ==> self.active@[i2],
                forall|i2: int|
                    0 <= i2 < self.clauses@.len() && self.active@[i2]
                        && (#[trigger] self.clauses@[i2]@).contains(l) ==> exists|j: int|
                        m <= j < sat_list@.len() && sat_list@[j] as int == i2,
            decreases sat_list@.len() - m,
        {
            let idx = sat_list[m];
            let ghost pre_active = self.active@;
            self.deactivate(idx);
            proof {
                assert forall|i2: int|
                    0 <= i2 < self.clauses@.len() && self.active@[i2] && (
                #[trigger] self.clauses@[i2]@).contains(l) implies exists|j: int|
                    m + 1 <= j < sat_list@.len() && sat_list@[j] as int == i2 by {
                    assert(pre_active[i2]);
                    let j = choose|j: int|
                        m <= j < sat_list@.len() && sat_list@[j] as int == i2;
                    if j == m {
                        assert(i2 == idx as int);
                        assert(!self.active@[i2]);
                    }
                }
            }
            m += 1;
        }
        proof {
            assert forall|i2: int|
                0 <= i2 < self.clauses@.len() && self.active@[i2] implies !(
            #[trigger] self.clauses@[i2]@).contains(l) by {
                if self.clauses@[i2]@.contains(l) {
                    assert(exists|j: int|
                        sat_list@.len() <= j < sat_list@.len() && sat_list@[j] as int == i2);
                }
            }
        }
        // Replace every live clause falsified by the literal with its
        // residual.
        let code_nl = code_of_exec(l.neg());
        let neg_list = copy_row(&self.lit_index[code_nl]);
        proof {
            assert forall|i2: int|
                0 <= i2 < self.clauses@.len() && self.active@[i2] && (
            #[trigger] self.clauses@[i2]@).contains(lit_neg(l)) implies exists|j: int|
                0 <= j < neg_list@.len() && neg_list@[j] as int == i2 by {
                assert(idx_has(self.lit_index@[code_of(lit_neg(l))]@, i2));
            }
            assert forall|j: int| 0 <= j < neg_list@.len() implies (#[trigger] neg_list@[j])
                < self.clauses@.len() by {
                assert(neg_list@[j] == self.lit_index@[code_of(lit_neg(l))]@[j]);
            }
            assert forall|j: int| 0 <= j < neg_list@.len() implies (#[trigger] old(self).clauses@[neg_list@[j] as int]@).contains(lit_neg(l)) by {
                assert(neg_list@[j] == self.lit_index@[code_of(lit_neg(l))]@[j]);
                assert(idx_has(self.lit_index@[code_of(lit_neg(l))]@, neg_list@[j] as int)) by {
                    assert(self.lit_index@[code_of(lit_neg(l))]@[j] as int
                        == neg_list@[j] as int);
                }
            }
            // Every old live clause holding the negation and not the
            // literal is listed for processing.
            assert forall|i2: int|
                0 <= i2 < self.clauses@.len() && old(self).active@[i2] && (
            #[trigger] old(self).clauses@[i2]@).contains(lit_neg(l)) && !old(self).clauses@[i2]@.contains(l) implies exists|j: int|
                0 <= j < neg_list@.len() && neg_list@[j] as int == i2 by {
                assert(self.active@[i2]);
            }
        }
        let ghost base_len = self.clauses@.len() as int;
        let mut m2: usize = 0;
        while m2 < neg_list.len()
            invariant
                0 <= m2 <= neg_list@.len(),
                self.wf(),
                self.var_count == old(self).var_count,
                l.var <= self.var_count,
                self.clauses@.len() >= base_len,
                forall|i2: int|
                    0 <= i2 < base_len ==> #[trigger] self.clauses@[i2] == old(self).clauses@[i2],
                forall|j: int| 0 <= j < neg_list@.len() ==> (#[trigger] neg_list@[j]) < base_len,
                forall|j: int|
                    0 <= j < neg_list@.len() ==> (#[trigger] old(self).clauses@[neg_list@[j] as int]@).contains(lit_neg(l)),
                forall|i2: int|
                    0 <= i2 < base_len && old(self).active@[i2] && !(
                    #[trigger] old(self).clauses@[i2]@).contains(l) && !old(self).clauses@[i2]@.contains(lit_neg(l)) ==> self.active@[i2],
                forall|i2: int|
                    0 <= i2 < base_len && old(self).active@[i2] && (
                    #[trigger] old(self).clauses@[i2]@).contains(lit_neg(l)) && !old(self).clauses@[i2]@.contains(l) ==> ((exists|j: int|
                        m2 <= j < neg_list@.len() && neg_list@[j] as int == i2)
                        || residual_recorded(*self, old(self).clauses@[i2]@, l)),
                !self.unit_clauses@.contains(l),
                !self.unit_clauses@.contains(lit_neg(l)),
                forall|u: Literal| #[trigger] u1.contains(u) ==> self.unit_clauses@.contains(u),
                forall|i2: int|
                    0 <= i2 < self.clauses@.len() && self.active@[i2] ==> !(
                    #[trigger] self.clauses@[i2]@).contains(l),
                forall|i2: int|
                    0 <= i2 < self.clauses@.len() && self.active@[i2]
                        && (#[trigger] self.clauses@[i2]@).contains(lit_neg(l)) ==> exists|j: int|
                        m2 <= j < neg_list@.len() && neg_list@[j] as int == i2,
            decreases neg_list@.len() - m2,
        {
            let idx = neg_list[m2];
            let ghost pre_state = *self;
            proof {
                assert(self.clauses@[idx as int] == old(self).clauses@[idx as int]);
            }
            let residual = Self::clause_without_literal(copy_clause(&self.clauses[idx]), l);
            proof {
                let src = self.clauses@[idx as int]@;
                assert(sorted_strict(src) && clause_vars_le(src, self.var_count as nat));
                assert(sorted_strict(residual@));
                assert forall|k: int|
                    0 <= k < residual@.len() implies (#[trigger] residual@[k]).var
                        <= self.var_count by {
                    assert(residual@.contains(residual@[k]));
                    assert(src.contains(residual@[k]));
                    let j = choose|j: int| 0 <= j < src.len() && src[j] == residual@[k];
                }
            }
            let ghost pre_active = self.active@;
            let ghost pre_len = self.clauses@.len() as int;
            self.deactivate(idx);
            let ghost resv = residual@;
            proof {
                assert(resv == residual_of(old(self).clauses@[idx as int]@, l));
            }
            if residual.len() == 1 {
                let r0 = residual[0];
                proof {
                    assert(resv.contains(r0)) by { assert(resv[0] == r0); }
                    assert(r0 != l && r0 != lit_neg(l));
                }
                self.push_unit(r0);
                proof {
                    assert(self.unit_clauses@.contains(r0));
                    assert(residual_recorded(*self, old(self).clauses@[idx as int]@, l)) by {
                        assert(resv[0] == r0);
                    }
                }
            } else {
                if !crate::cnf::contains_clause(&self.clauses, &residual) {
                    let ghost pl = self.clauses@.len() as int;
                    self.push_active_clause(residual);
                    proof {
                        assert(residual_recorded(*self, old(self).clauses@[idx as int]@, l)) by {
                            assert(self.clauses@[pl]@ == resv);
                        }
                    }
                } else {
                    proof {
                        assert(crate::cnf::clauses_view(self.clauses@).contains(resv));
                        let j = choose|j: int|
                            0 <= j < self.clauses@.len() && crate::cnf::clauses_view(
                                self.clauses@,
                            )[j] == resv;
                        assert(residual_recorded(*self, old(self).clauses@[idx as int]@, l)) by {
                            assert(self.clauses@[j]@ == resv);
                        }
                    }
                }
            }
            proof {
                assert forall|i2: int|
                    0 <= i2 < self.clauses@.len() && self.active@[i2] implies !(
                #[trigger] self.clauses@[i2]@).contains(l) by {
                    if i2 >= pre_len {
                        assert(self.clauses@[i2]@ == resv);
                        if resv.contains(l) {
                            assert(false);
                        }
                    }
                }
                assert forall|i2: int|
                    0 <= i2 < self.clauses@.len() && self.active@[i2] && (
                #[trigger] self.clauses@[i2]@).contains(lit_neg(l)) implies exists|j: int|
                    m2 + 1 <= j < neg_list@.len() && neg_list@[j] as int == i2 by {
                    if i2 >= pre_len {
                        assert(self.clauses@[i2]@ == resv);
                        assert(!resv.contains(lit_neg(l)));
                        assert(false);
                    } else {
                        assert(pre_active[i2]);
                        let j = choose|j: int|
                            m2 <= j < neg_list@.len() && neg_list@[j] as int == i2;
                        if j == m2 {
                            assert(i2 == idx as int);
                            assert(!self.active@[i2]);
                        }
                    }
                }
                // This iteration only grew the store.
                assert(self.clauses@.len() >= pre_state.clauses@.len());
                assert(forall|j: int|
                    0 <= j < pre_state.clauses@.len() ==> #[trigger] self.clauses@[j]
                        == pre_state.clauses@[j]);
                assert(forall|u: Literal|
                    pre_state.unit_clauses@.contains(u) ==> self.unit_clauses@.contains(u));
                // The processed clause's residual is recorded (each
                // branch above established it).
                assert(residual_recorded(*self, old(self).clauses@[idx as int]@, l));
                assert forall|i2: int|
                    0 <= i2 < base_len && old(self).active@[i2] && (
                #[trigger] old(self).clauses@[i2]@).contains(lit_neg(l)) && !old(self).clauses@[i2]@.contains(l) implies ((exists|j: int|
                    m2 + 1 <= j < neg_list@.len() && neg_list@[j] as int == i2)
                    || residual_recorded(*self, old(self).clauses@[i2]@, l)) by {
                    let c = old(self).clauses@[i2]@;
                    let res = residual_of(c, l);
                    if residual_recorded(pre_state, c, l) {
                        if res.len() == 1 {
                            assert(pre_state.unit_clauses@.contains(res[0]));
                        } else {
                            let j = choose|j: int|
                                0 <= j < pre_state.clauses@.len()
                                    && #[trigger] pre_state.clauses@[j]@ == res;
                            assert(self.clauses@[j]@ == res);
                        }
                    } else {
                        let j = choose|j: int|
                            m2 <= j < neg_list@.len() && neg_list@[j] as int == i2;
                        if j == m2 {
                            assert(i2 == idx as int);
                        }
                    }
                }
            }
            m2 += 1;
        }
        proof {
            assert forall|i2: int|
                0 <= i2 < self.clauses@.len() && self.active@[i2] implies !(
            #[trigger] self.clauses@[i2]@).contains(lit_neg(l)) by {
                if self.clauses@[i2]@.contains(lit_neg(l)) {
                    assert(exists|j: int|
                        neg_list@.len() <= j < neg_list@.len() && neg_list@[j] as int == i2);
                }
            }
            assert forall|u: Literal|
                old(self).unit_clauses@.contains(u) && u != l implies self.unit_clauses@.contains(
                u,
            ) by {
                assert(u1.contains(u));
            }
            // Both index lists of the committed variable drained.
            assert(self.lit_index@[code_of(l)]@.len() == 0) by {
                if self.lit_index@[code_of(l)]@.len() > 0 {
                    let e0 = self.lit_index@[code_of(l)]@[0];
                    assert(idx_has(self.lit_index@[code_of(l)]@, e0 as int)) by {
                        assert(self.lit_index@[code_of(l)]@[0] as int == e0 as int);
                    }
                    assert(self.active@[e0 as int] && self.clauses@[e0 as int]@.contains(l));
                }
            }
            assert(self.lit_index@[code_of(lit_neg(l))]@.len() == 0) by {
                if self.lit_index@[code_of(lit_neg(l))]@.len() > 0 {
                    let e0 = self.lit_index@[code_of(lit_neg(l))]@[0];
                    assert(idx_has(self.lit_index@[code_of(lit_neg(l))]@, e0 as int)) by {
                        assert(self.lit_index@[code_of(lit_neg(l))]@[0] as int == e0 as int);
                    }
                    assert(self.active@[e0 as int] && self.clauses@[e0 as int]@.contains(
                        lit_neg(l),
                    ));
                }
            }
        }
        None
    }
}

/// Remove the first occurrence of `x` from a duplicate-free index list;
/// afterwards `x` is not listed and nothing else changed.
fn remove_index(row: &mut Vec<usize>, x: usize)
    requires
        old(row)@.no_duplicates(),
    ensures
        final(row)@.no_duplicates(),
        forall|y: usize| #[trigger] final(row)@.contains(y) <==> (old(row)@.contains(y) && y != x),
{
    let mut pos: usize = 0;
    while pos < row.len()
        invariant
            0 <= pos <= row@.len(),
            row@ == old(row)@,
            forall|j: int| 0 <= j < pos ==> row@[j] != x,
        decreases row@.len() - pos,
    {
        if row[pos] == x {
            row.remove(pos);
            proof {
                let pre = old(row)@;
                assert(pre[pos as int] == x);
                assert(forall|j: int| 0 <= j < pos ==> #[trigger] row@[j] == pre[j]);
                assert(forall|j: int|
                    pos <= j < row@.len() ==> #[trigger] row@[j] == pre[j + 1]);
                assert(row@.no_duplicates()) by {
                    assert forall|a: int, b: int|
                        0 <= a < b < row@.len() implies row@[a] != row@[b] by {
                        if a < pos && b < pos {
                        } else if a < pos {
                            assert(row@[a] == pre[a] && row@[b] == pre[b + 1]);
                        } else {
                            assert(row@[a] == pre[a + 1] && row@[b] == pre[b + 1]);
                        }
                    }
                }
                assert forall|y: usize| #[trigger] row@.contains(y) implies (pre.contains(y) && y
                    != x) by {
                    let j = choose|j: int| 0 <= j < row@.len() && row@[j] == y;
                    if j < pos {
                        assert(pre.contains(y)) by { assert(pre[j] == y); }
                        if y == x {
                            assert(pre[j] == pre[pos as int]);
                        }
                    } else {
                        assert(pre.contains(y)) by { assert(pre[j + 1] == y); }
                        if y == x {
                            assert(pre[j + 1] == pre[pos as int]);
                        }
                    }
                }
                assert forall|y: usize| pre.contains(y) && y != x implies #[trigger]
                    row@.contains(y) by {
                    let j = choose|j: int| 0 <= j < pre.len() && pre[j] == y;
                    if j < pos {
                        assert(row@.contains(y)) by { assert(row@[j] == y); }
                    } else if j > pos {
                        assert(row@.contains(y)) by { assert(row@[j - 1] == y); }
                    }
                }
            }
            return ;
        }
        pos += 1;
    }
    proof {
        assert forall|y: usize| #[trigger] row@.contains(y) implies (old(row)@.contains(y) && y
            != x) by {
            let j = choose|j: int| 0 <= j < row@.len() && row@[j] == y;
        }
    }
}

/// How many entries of the mark list are set.
pub open spec fn count_true(s: Seq<bool>) -> nat
    decreases s.len(),
{
    if s.len() == 0 {
        0
    } else {
        count_true(s.drop_last()) + if s.last() {
            1nat
        } else {
            0nat
        }
    }
}

impl Clone for ExtendedCNF {
    /// Cloning copies every part of the store.
    fn clone(&self) -> (r: Self)
        ensures
            r.clauses@.len() == self.clauses@.len(),
            forall|i: int|
                0 <= i < self.clauses@.len() ==> #[trigger] r.clauses@[i]@ == self.clauses@[i]@,
            r.active@ == self.active@,
            r.lit_index@.len() == self.lit_index@.len(),
            forall|c: int|
                0 <= c < self.lit_index@.len() ==> #[trigger] r.lit_index@[c]@
                    == self.lit_index@[c]@,
            r.unit_clauses@ == self.unit_clauses@,
            r.var_count == self.var_count,
            self.wf() ==> r.wf(),
    {
        let mut clauses: Vec<Vec<Literal>> = Vec::new();
        let mut i: usize = 0;
        while i < self.clauses.len()
            invariant
                clauses@.len() == i <= self.clauses@.len(),
                forall|k: int| 0 <= k < i ==> #[trigger] clauses@[k]@ == self.clauses@[k]@,
            decreases self.clauses@.len() - i,
        {
            clauses.push(copy_clause(&self.clauses[i]));
            i += 1;
        }
        let mut active: Vec<bool> = Vec::new();
        let mut j: usize = 0;
        while j < self.active.len()
            invariant
                0 <= j <= self.active@.len(),
                active@ == self.active@.take(j as int),
            decreases self.active@.len() - j,
        {
            active.push(self.active[j]);
            proof {
                assert(active@ =~= self.active@.take(j + 1));
            }
            j += 1;
        }
        proof {
            assert(self.active@.take(self.active@.len() as int) =~= self.active@);
        }
        let mut lit_index: Vec<Vec<usize>> = Vec::new();
        let mut c: usize = 0;
        while c < self.lit_index.len()
            invariant
                lit_index@.len() == c <= self.lit_index@.len(),
                forall|k: int| 0 <= k < c ==> #[trigger] lit_index@[k]@ == self.lit_index@[k]@,
            decreases self.lit_index@.len() - c,
        {
            lit_index.push(copy_row(&self.lit_index[c]));
            c += 1;
        }
        let unit_clauses = copy_clause(&self.unit_clauses);
        let r = ExtendedCNF { clauses, active, lit_index, unit_clauses, var_count: self.var_count };
        proof {
            if self.wf() {
                assert(r.wf()) by {
                    assert forall|l: Literal, i2: int|
                        l.var <= r.var_count && 0 <= i2 < r.clauses@.len() implies (
                    #[trigger] idx_has(r.lit_index@[code_of(l)]@, i2) <==> (r.active@[i2]
                        && r.clauses@[i2]@.contains(l))) by {
                        assert(r.lit_index@[code_of(l)]@ == self.lit_index@[code_of(l)]@);
                        assert(r.clauses@[i2]@ == self.clauses@[i2]@);
                    }
                }
            }
        }
        r
    }
}

impl ExtendedCNF {
    /// The number of live clauses plus unit literals; saturates at the
    /// machine limit.
    pub fn unsatisfied_clauses(&self) -> (r: usize)
        ensures
            count_true(self.active@) + self.unit_clauses@.len() <= usize::MAX ==> r as int
                == count_true(self.active@) + self.unit_clauses@.len(),
            count_true(self.active@) + self.unit_clauses@.len() > usize::MAX ==> r == usize::MAX,
    {
        let mut cnt: usize = 0;
        let mut i: usize = 0;
        while i < self.active.len()
            invariant
                0 <= i <= self.active@.len(),
                cnt as int == count_true(self.active@.take(i as int)),
                cnt <= i,
            decreases self.active@.len() - i,
        {
            proof {
                let t = self.active@.take(i + 1);
                assert(t.drop_last() =~= self.active@.take(i as int));
                assert(t.last() == self.active@[i as int]);
            }
            if self.active[i] {
                cnt += 1;
            }
            i += 1;
        }
        proof {
            assert(self.active@.take(self.active@.len() as int) =~= self.active@);
        }
        if self.unit_clauses.len() <= usize::MAX - cnt {
            cnt + self.unit_clauses.len()
        } else {
            usize::MAX
        }
    }
}

/// A copy of an index list.
fn copy_row(row: &Vec<usize>) -> (r: Vec<usize>)
    ensures
        r@ == row@,
{
    let mut r: Vec<usize> = Vec::new();
    let mut i: usize = 0;
    while i < row.len()
        invariant
            0 <= i <= row@.len(),
            r@ == row@.take(i as int),
        decreases row@.len() - i,
    {
        r.push(row[i]);
        proof {
            assert(r@ =~= row@.take(i + 1));
        }
        i += 1;
    }
    proof {
        assert(row@.take(row@.len() as int) =~= row@);
    }
    r
}


/// The clause's literal set is the resolvent of two clauses stored in
/// the given store, over some pivot.
pub open spec fn stored_resolvent(g: ExtendedCNF, c: Seq<Literal>) -> bool {
    exists|c1: Seq<Literal>, c2: Seq<Literal>, piv: Literal|
        g.known_stored(c1) && g.known_stored(c2) && c1.contains(piv) && c2.contains(lit_neg(piv))
            && c.to_set() == resolvent_set(c1, c2, piv)
}

/// The collected resolvents of one preprocessing round: each sorted,
/// bounded in variables and in length, non-tautological, and the
/// resolvent of two stored clauses over some pivot.
pub open spec fn round_resolvents_ok(news: Seq<Vec<Literal>>, g: ExtendedCNF, cap: int) -> bool {
    forall|m: int|
        0 <= m < news.len() ==> sorted_strict(#[trigger] news[m]@) && clause_vars_le(
            news[m]@,
            g.var_count as nat,
        ) && news[m]@.len() <= cap && !crate::cnf::clause_taut(news[m]@) && stored_resolvent(
            g,
            news[m]@,
        )
}

/// The PPSZ solver configuration: budgets for the bounded-resolution
/// preprocessing and for the randomized restarts, and the frontier of
/// clause positions added in the previous resolution round.
pub struct PPSZ {
    pub max_clauses: usize,
    pub max_resolve_iterations: usize,
    pub max_search_iterations: usize,
    pub max_clause_size: usize,
    pub bounded_resolve_iterations: usize,
    pub potential_resolve_clauses_with_literal: Vec<Vec<usize>>,
}

impl Solver for PPSZ {
    /// Solve by PPSZ with the clause cap scaled to the cube of the
    /// variable count.
    fn solve(&self, cnf: CNF) -> (r: Result<Vec<Literal>, Error>) {
        let n = cnf.var_count();
        let mc = if n <= 1600 {
            proof {
                assert(n * n <= 1600 * 1600) by (nonlinear_arith)
                    requires
                        0 <= n <= 1600,
                ;
                assert(n * n * n <= 1600 * 1600 * 1600) by (nonlinear_arith)
                    requires
                        0 <= n <= 1600,
                ;
            }
            n * n * n / 5
        } else {
            usize::MAX
        };
        let mut s = PPSZ {
            max_clauses: mc,
            max_resolve_iterations: self.max_resolve_iterations,
            max_search_iterations: self.max_search_iterations,
            max_clause_size: self.max_clause_size,
            bounded_resolve_iterations: self.bounded_resolve_iterations,
            potential_resolve_clauses_with_literal: Vec::new(),
        };
        let r = s.solve_ppsz(cnf);
        proof {
            if r is Ok {
                let a = r->Ok_0@;
                crate::simplify::lemma_clause_filter_props(
                    cnf@,
                    |c: Seq<Literal>| !crate::cnf::clause_taut(c),
                );
                assert forall|i: int| 0 <= i < non_taut(cnf@).len() implies crate::cnf::clause_sat_by(
                    a,
                    non_taut(cnf@)[i],
                ) by {
                    let ci = non_taut(cnf@)[i];
                    assert(non_taut(cnf@).contains(ci)) by { assert(non_taut(cnf@)[i] == ci); }
                    assert(cnf@.contains(ci));
                    let m = choose|m: int| 0 <= m < cnf@.len() && cnf@[m] == ci;
                    assert(crate::cnf::clause_sat_by(a, cnf@[m]));
                }
            }
        }
        r
    }
}

impl PPSZ {
    /// The default configuration.
    pub fn new() -> (r: PPSZ)
        ensures
            r.max_clauses == 15000,
            r.max_resolve_iterations == 40,
            r.max_search_iterations == 1000,
            r.max_clause_size == 3,
            r.bounded_resolve_iterations == 2,
            r.potential_resolve_clauses_with_literal@.len() == 0,
    {
        PPSZ {
            max_clauses: 15000,
            max_resolve_iterations: 40,
            max_search_iterations: 1000,
            max_clause_size: 3,
            bounded_resolve_iterations: 2,
            potential_resolve_clauses_with_literal: Vec::new(),
        }
    }

    /// Cap on the count of live clauses during resolution.
    pub fn set_max_clauses(&mut self, value: usize)
        ensures
            final(self).max_clauses == value,
            final(self).max_resolve_iterations == old(self).max_resolve_iterations,
            final(self).max_search_iterations == old(self).max_search_iterations,
            final(self).max_clause_size == old(self).max_clause_size,
            final(self).bounded_resolve_iterations == old(self).bounded_resolve_iterations,
    {
        self.max_clauses = value;
    }

    /// Rounds of bounded resolution.
    pub fn set_max_resolve_iterations(&mut self, value: usize)
        ensures
            final(self).max_resolve_iterations == value,
            final(self).max_clauses == old(self).max_clauses,
            final(self).max_search_iterations == old(self).max_search_iterations,
            final(self).max_clause_size == old(self).max_clause_size,
            final(self).bounded_resolve_iterations == old(self).bounded_resolve_iterations,
    {
        self.max_resolve_iterations = value;
    }

    /// Randomized restarts.
    pub fn set_max_search_iterations(&mut self, value: usize)
        ensures
            final(self).max_search_iterations == value,
            final(self).max_clauses == old(self).max_clauses,
            final(self).max_resolve_iterations == old(self).max_resolve_iterations,
            final(self).max_clause_size == old(self).max_clause_size,
            final(self).bounded_resolve_iterations == old(self).bounded_resolve_iterations,
    {
        self.max_search_iterations = value;
    }

    /// Largest resolvent kept.
    pub fn set_max_clause_size(&mut self, value: usize)
        ensures
            final(self).max_clause_size == value,
            final(self).max_clauses == old(self).max_clauses,
            final(self).max_resolve_iterations == old(self).max_resolve_iterations,
            final(self).max_search_iterations == old(self).max_search_iterations,
            final(self).bounded_resolve_iterations == old(self).bounded_resolve_iterations,
    {
        self.max_clause_size = value;
    }

    /// Saturation passes per round.
    pub fn set_bounded_resolve_iterations(&mut self, value: usize)
        ensures
            final(self).bounded_resolve_iterations == value,
            final(self).max_clauses == old(self).max_clauses,
            final(self).max_resolve_iterations == old(self).max_resolve_iterations,
            final(self).max_search_iterations == old(self).max_search_iterations,
            final(self).max_clause_size == old(self).max_clause_size,
    {
        self.bounded_resolve_iterations = value;
    }

    /// Bounded resolution to a budget, then the randomized restart
    /// search. An `Ok` assignment satisfies every clause of the input;
    /// an `Err` only means no restart found a model within the budget.
    pub fn solve_ppsz(&mut self, cnf: CNF) -> (r: Result<Vec<Literal>, Error>)
        requires
            cnf.wf(),
            cnf.var_count < usize::MAX / 2,
        ensures
            r is Ok ==> cnf_sat_by(cnf@, r->Ok_0@),
            cnf@.len() == 0 && old(self).max_search_iterations > 0 ==> r is Ok,
    {
        let mut ext_cnf = ExtendedCNF::from_cnf(&cnf);
        // The first frontier is every currently indexed clause.
        let mut fr: Vec<Vec<usize>> = Vec::new();
        let mut c: usize = 0;
        while c < ext_cnf.lit_index.len()
            invariant
                0 <= c <= ext_cnf.lit_index@.len(),
            decreases ext_cnf.lit_index@.len() - c,
        {
            fr.push(copy_row(&ext_cnf.lit_index[c]));
            c += 1;
        }
        self.potential_resolve_clauses_with_literal = fr;
        let ghost mri = self.max_resolve_iterations;
        let mut i: usize = 0;
        let mut stop = false;
        while i < self.max_resolve_iterations && !stop
            invariant
                ext_cnf.wf(),
                ext_cnf.var_count == cnf.var_count,
                self.max_resolve_iterations == mri,
                self.max_search_iterations == old(self).max_search_iterations,
                i <= mri,
            decreases mri - i,
        {
            let size_cap = self.max_clause_size;
            self.bounded_resolve(&mut ext_cnf, size_cap);
            if ext_cnf.unsatisfied_clauses() > self.max_clauses {
                stop = true;
            }
            i += 1;
        }
        match Self::search(&cnf, &ext_cnf, self.max_search_iterations) {
            Some(eval_set) => Ok(eval_set),
            None => Err(Error::new("Unsatisfiable")),
        }
    }

    /// One round of bounded resolution: resolve every fresh clause of the
    /// previous round against every clause of the opposite polarity,
    /// keep the small, non-tautological, unknown resolvents, and make
    /// them the next frontier.
    pub fn bounded_resolve(&mut self, g: &mut ExtendedCNF, s: usize)
        requires
            old(g).wf(),
        ensures
            final(g).wf(),
            final(g).var_count == old(g).var_count,
            forall|v: spec_fn(int) -> bool| #[trigger]
                old(g).stored_sat(v) ==> final(g).stored_sat(v),
            final(g).clauses@.len() >= old(g).clauses@.len(),
            forall|i: int|
                0 <= i < old(g).clauses@.len() ==> #[trigger] final(g).clauses@[i] == old(g).clauses@[i],
            forall|i: int|
                0 <= i < old(g).active@.len() ==> #[trigger] final(g).active@[i] == old(g).active@[i],
            forall|u: Literal| #[trigger]
                old(g).unit_clauses@.contains(u) ==> final(g).unit_clauses@.contains(u),
            forall|i: int|
                old(g).clauses@.len() <= i < final(g).clauses@.len() ==> ((#[trigger] final(g).clauses@[i]@).len() <= s && !crate::cnf::clause_taut(final(g).clauses@[i]@)
                    && !old(g).known(final(g).clauses@[i]@) && stored_resolvent(
                    *old(g),
                    final(g).clauses@[i]@,
                )),
            forall|u: Literal| #[trigger]
                final(g).unit_clauses@.contains(u) && !old(g).unit_clauses@.contains(u)
                    ==> stored_resolvent(*old(g), seq![u]),
            final(self).potential_resolve_clauses_with_literal@.len() == 2 * (
            old(g).var_count as int) + 2,
            forall|code: int, j: int|
                0 <= code < final(self).potential_resolve_clauses_with_literal@.len() && 0 <= j
                    < final(self).potential_resolve_clauses_with_literal@[code]@.len() ==> old(g).clauses@.len() <= (#[trigger] final(self).potential_resolve_clauses_with_literal@[code]@[j]) < final(g).clauses@.len(),
            final(self).max_clauses == old(self).max_clauses,
            final(self).max_resolve_iterations == old(self).max_resolve_iterations,
            final(self).max_search_iterations == old(self).max_search_iterations,
            final(self).max_clause_size == old(self).max_clause_size,
    {
        let literals = g.get_literals();
        let mut new_clauses: Vec<Vec<Literal>> = Vec::new();
        let mut li: usize = 0;
        while li < literals.len()
            invariant
                0 <= li <= literals@.len(),
                g.wf(),
                g.var_count == old(g).var_count,
                g.clauses@ == old(g).clauses@,
                forall|k: int| 0 <= k < literals@.len() ==> (#[trigger] literals@[k]).var <= g.var_count,
                round_resolvents_ok(new_clauses@, *g, s as int),
            decreases literals@.len() - li,
        {
            let l = literals[li];
            let code = code_of_exec(l);
            if code < self.potential_resolve_clauses_with_literal.len() {
                let with_l = copy_row(&self.potential_resolve_clauses_with_literal[code]);
                let with_not_l = copy_row(g.get_clauses_with(l.neg()));
                let mut ii: usize = 0;
                while ii < with_l.len()
                    invariant
                        0 <= ii <= with_l@.len(),
                        g.wf(),
                        g.var_count == old(g).var_count,
                        g.clauses@ == old(g).clauses@,
                        l.var <= g.var_count,
                        forall|j: int|
                            0 <= j < with_not_l@.len() ==> (#[trigger] with_not_l@[j])
                                < g.clauses@.len(),
                        round_resolvents_ok(new_clauses@, *g, s as int),
                    decreases with_l@.len() - ii,
                {
                    let a_idx = with_l[ii];
                    if a_idx < g.clauses.len() {
                        let mut jj: usize = 0;
                        while jj < with_not_l.len()
                            invariant
                                0 <= jj <= with_not_l@.len(),
                                g.wf(),
                                g.var_count == old(g).var_count,
                                g.clauses@ == old(g).clauses@,
                                l.var <= g.var_count,
                                a_idx < g.clauses@.len(),
                                forall|j: int|
                                    0 <= j < with_not_l@.len() ==> (#[trigger] with_not_l@[j])
                                        < g.clauses@.len(),
                                round_resolvents_ok(new_clauses@, *g, s as int),
                            decreases with_not_l@.len() - jj,
                        {
                            let b_idx = with_not_l[jj];
                            let a = copy_clause(&g.clauses[a_idx]);
                            let b = copy_clause(&g.clauses[b_idx]);
                            let ghost av = a@;
                            let ghost bv = b@;
                            match Self::resolve(a, b, l) {
                                None => {},
                                Some(res) => {
                                    if res.len() <= s && !clause_is_taut(&res) {
                                        proof {
                                            assert forall|k: int|
                                                0 <= k < res@.len() implies (
                                            #[trigger] res@[k]).var <= g.var_count by {
                                                assert(res@.to_set().contains(res@[k])) by {
                                                    assert(res@.contains(res@[k]));
                                                }
                                                if av.to_set().remove(l).contains(res@[k]) {
                                                    assert(av.contains(res@[k]));
                                                    let q = choose|q: int|
                                                        0 <= q < av.len() && av[q] == res@[k];
                                                    assert(clause_vars_le(
                                                        g.clauses@[a_idx as int]@,
                                                        g.var_count as nat,
                                                    ));
                                                } else {
                                                    assert(bv.contains(res@[k]));
                                                    let q = choose|q: int|
                                                        0 <= q < bv.len() && bv[q] == res@[k];
                                                    assert(clause_vars_le(
                                                        g.clauses@[b_idx as int]@,
                                                        g.var_count as nat,
                                                    ));
                                                }
                                            }
                                        }
                                        let ghost pn = new_clauses@;
                                        new_clauses.push(res);
                                        proof {
                                            assert(g.known_stored(av)) by {
                                                assert(g.clauses@[a_idx as int]@ == av);
                                            }
                                            assert(g.known_stored(bv)) by {
                                                assert(g.clauses@[b_idx as int]@ == bv);
                                            }
                                            assert forall|m: int|
                                                0 <= m < new_clauses@.len() implies sorted_strict(
                                                #[trigger] new_clauses@[m]@,
                                            ) && clause_vars_le(
                                                new_clauses@[m]@,
                                                g.var_count as nat,
                                            ) && new_clauses@[m]@.len() <= s
                                                && !crate::cnf::clause_taut(new_clauses@[m]@)
                                                && stored_resolvent(*g, new_clauses@[m]@) by {
                                                if m < pn.len() {
                                                    assert(new_clauses@[m] == pn[m]);
                                                    assert(round_resolvents_ok(pn, *g, s as int));
                                                } else {
                                                    assert(new_clauses@[m]@ == res@);
                                                    if av.contains(lit_neg(l)) && bv.contains(
                                                        l,
                                                    ) {
                                                        assert(g.known_stored(bv)
                                                            && g.known_stored(av) && bv.contains(
                                                            l,
                                                        ) && av.contains(lit_neg(l))
                                                            && res@.to_set() == resolvent_set(
                                                            bv,
                                                            av,
                                                            l,
                                                        ));
                                                    } else {
                                                        assert(g.known_stored(av)
                                                            && g.known_stored(bv) && av.contains(
                                                            l,
                                                        ) && bv.contains(lit_neg(l))
                                                            && res@.to_set() == resolvent_set(
                                                            av,
                                                            bv,
                                                            l,
                                                        ));
                                                    }
                                                }
                                            }
                                        }
                                    }
                                },
                            }
                            jj += 1;
                        }
                    }
                    ii += 1;
                }
            }
            li += 1;
        }
        // The surviving resolvents become the next frontier as they are
        // stored. The gather phase left the store untouched, so they are
        // resolvents of the input store.
        proof {
            assert forall|m2: int|
                0 <= m2 < new_clauses@.len() implies sorted_strict(#[trigger] new_clauses@[m2]@)
                    && clause_vars_le(new_clauses@[m2]@, old(g).var_count as nat)
                    && new_clauses@[m2]@.len() <= s && !crate::cnf::clause_taut(
                    new_clauses@[m2]@,
                ) && stored_resolvent(*old(g), new_clauses@[m2]@) by {
                assert(round_resolvents_ok(new_clauses@, *g, s as int));
                let (c1, c2, piv) = choose|c1: Seq<Literal>, c2: Seq<Literal>, piv: Literal|
                    g.known_stored(c1) && g.known_stored(c2) && c1.contains(piv) && c2.contains(
                        lit_neg(piv),
                    ) && new_clauses@[m2]@.to_set() == resolvent_set(c1, c2, piv);
                let i1 = choose|i1: int|
                    0 <= i1 < g.clauses@.len() && #[trigger] g.clauses@[i1]@ == c1;
                let i2 = choose|i2: int|
                    0 <= i2 < g.clauses@.len() && #[trigger] g.clauses@[i2]@ == c2;
                assert(old(g).known_stored(c1)) by { assert(old(g).clauses@[i1]@ == c1); }
                assert(old(g).known_stored(c2)) by { assert(old(g).clauses@[i2]@ == c2); }
            }
        }
        let target = 2 * g.var_count + 2;
        let mut fr: Vec<Vec<usize>> = Vec::new();
        while fr.len() < target
            invariant
                fr@.len() <= target,
                forall|code: int| 0 <= code < fr@.len() ==> (#[trigger] fr@[code]@).len() == 0,
            decreases target - fr@.len(),
        {
            fr.push(Vec::new());
        }
        self.potential_resolve_clauses_with_literal = fr;
        let mut m: usize = 0;
        while m < new_clauses.len()
            invariant
                0 <= m <= new_clauses@.len(),
                g.wf(),
                g.var_count == old(g).var_count,
                self.max_clauses == old(self).max_clauses,
                self.max_resolve_iterations == old(self).max_resolve_iterations,
                self.max_search_iterations == old(self).max_search_iterations,
                self.max_clause_size == old(self).max_clause_size,
                self.potential_resolve_clauses_with_literal@.len() == 2 * (
                g.var_count as int) + 2,
                forall|m2: int|
                    0 <= m2 < new_clauses@.len() ==> sorted_strict(#[trigger] new_clauses@[m2]@)
                        && clause_vars_le(new_clauses@[m2]@, old(g).var_count as nat)
                        && new_clauses@[m2]@.len() <= s && !crate::cnf::clause_taut(
                        new_clauses@[m2]@,
                    ) && stored_resolvent(*old(g), new_clauses@[m2]@),
                forall|v: spec_fn(int) -> bool| #[trigger]
                    old(g).stored_sat(v) ==> g.stored_sat(v),
                g.clauses@.len() >= old(g).clauses@.len(),
                forall|i: int|
                    0 <= i < old(g).clauses@.len() ==> #[trigger] g.clauses@[i] == old(g).clauses@[i],
                forall|i: int|
                    0 <= i < old(g).active@.len() ==> #[trigger] g.active@[i] == old(g).active@[i],
                forall|u: Literal| #[trigger]
                    old(g).unit_clauses@.contains(u) ==> g.unit_clauses@.contains(u),
                forall|i: int|
                    old(g).clauses@.len() <= i < g.clauses@.len() ==> ((
                    #[trigger] g.clauses@[i]@).len() <= s && !crate::cnf::clause_taut(
                        g.clauses@[i]@,
                    ) && !old(g).known(g.clauses@[i]@) && stored_resolvent(
                        *old(g),
                        g.clauses@[i]@,
                    )),
                forall|u: Literal| #[trigger]
                    g.unit_clauses@.contains(u) && !old(g).unit_clauses@.contains(u)
                        ==> stored_resolvent(*old(g), seq![u]),
                forall|code: int, j: int|
                    0 <= code < self.potential_resolve_clauses_with_literal@.len() && 0 <= j
                        < self.potential_resolve_clauses_with_literal@[code]@.len() ==> old(g).clauses@.len() <= (#[trigger] self.potential_resolve_clauses_with_literal@[
                        code
                    ]@[j]) < g.clauses@.len(),
            decreases new_clauses@.len() - m,
        {
            let clause = copy_clause(&new_clauses[m]);
            let ghost gpre = *g;
            if !g.contains(&clause) {
                let nidx = g.clauses.len();
                let added = g.add_clause(clause);
                proof {
                    assert(added);
                    // A resolvent of satisfied premises is satisfied, so
                    // the store stays entailed.
                    assert forall|v: spec_fn(int) -> bool| #[trigger]
                        old(g).stored_sat(v) implies g.stored_sat(v) by {
                        assert(gpre.stored_sat(v));
                        assert(stored_resolvent(*old(g), new_clauses@[m as int]@));
                        let (c1, c2, piv) = choose|
                            c1: Seq<Literal>,
                            c2: Seq<Literal>,
                            piv: Literal,
                        |
                            old(g).known_stored(c1) && old(g).known_stored(c2) && c1.contains(
                                piv,
                            ) && c2.contains(lit_neg(piv)) && new_clauses@[m as int]@.to_set()
                                == resolvent_set(c1, c2, piv);
                        let i1 = choose|i1: int|
                            0 <= i1 < old(g).clauses@.len() && #[trigger] old(g).clauses@[i1]@
                                == c1;
                        let i2 = choose|i2: int|
                            0 <= i2 < old(g).clauses@.len() && #[trigger] old(g).clauses@[i2]@
                                == c2;
                        assert(gpre.clauses@[i1]@ == c1 && gpre.clauses@[i2]@ == c2);
                        assert(val_sat_clause(v, c1) && val_sat_clause(v, c2));
                        lemma_resolution_correct(c1, c2, piv, new_clauses@[m as int]@, v);
                        assert(val_sat_clause(v, clause@));
                        if clause@.len() == 1 {
                            assert forall|k2: int|
                                0 <= k2 < g.unit_clauses@.len() implies val_sat_lit(
                                v,
                                #[trigger] g.unit_clauses@[k2],
                            ) by {
                                if k2 == g.unit_clauses@.len() - 1 {
                                    let q = choose|q: int|
                                        0 <= q < clause@.len() && val_sat_lit(v, clause@[q]);
                                    assert(g.unit_clauses@[k2] == clause@[0]);
                                } else {
                                    assert(g.unit_clauses@[k2] == gpre.unit_clauses@[k2]);
                                }
                            }
                        } else {
                            assert forall|i3: int|
                                0 <= i3 < g.clauses@.len() implies val_sat_clause(
                                v,
                                #[trigger] g.clauses@[i3]@,
                            ) by {
                                if i3 < gpre.clauses@.len() {
                                    assert(g.clauses@[i3] == gpre.clauses@[i3]);
                                } else {
                                    assert(g.clauses@[i3]@ == clause@);
                                }
                            }
                        }
                    }
                    // The addition keeps the growth characterization.
                    if clause@.len() != 1 {
                        assert(g.clauses@[nidx as int]@ == clause@);
                        assert(!old(g).known(clause@)) by {
                            if old(g).known(clause@) {
                                let i = choose|i: int|
                                    0 <= i < old(g).clauses@.len() && #[trigger] old(g).clauses@[i]@ == clause@;
                                assert(gpre.clauses@[i]@ == clause@);
                                assert(gpre.known(clause@));
                            }
                        }
                        assert forall|i: int|
                            old(g).clauses@.len() <= i < g.clauses@.len() implies ((
                        #[trigger] g.clauses@[i]@).len() <= s && !crate::cnf::clause_taut(
                            g.clauses@[i]@,
                        ) && !old(g).known(g.clauses@[i]@) && stored_resolvent(
                            *old(g),
                            g.clauses@[i]@,
                        )) by {
                            if i < gpre.clauses@.len() {
                                assert(g.clauses@[i] == gpre.clauses@[i]);
                            } else {
                                assert(g.clauses@[i]@ == clause@);
                            }
                        }
                    } else {
                        assert(g.unit_clauses@ == gpre.unit_clauses@.push(clause@[0]));
                        assert forall|u: Literal| #[trigger]
                            g.unit_clauses@.contains(u) && !old(g).unit_clauses@.contains(u)
                            implies stored_resolvent(*old(g), seq![u]) by {
                            let k2 = choose|k2: int|
                                0 <= k2 < g.unit_clauses@.len() && g.unit_clauses@[k2] == u;
                            if k2 < gpre.unit_clauses@.len() {
                                assert(gpre.unit_clauses@.contains(u)) by {
                                    assert(gpre.unit_clauses@[k2] == u);
                                }
                            } else {
                                assert(u == clause@[0]);
                                assert(seq![u] =~= clause@);
                                assert(seq![u].to_set() == clause@.to_set());
                                assert(stored_resolvent(*old(g), clause@));
                                let (c1, c2, piv) = choose|
                                    c1: Seq<Literal>,
                                    c2: Seq<Literal>,
                                    piv: Literal,
                                |
                                    old(g).known_stored(c1) && old(g).known_stored(c2)
                                        && c1.contains(piv) && c2.contains(lit_neg(piv))
                                        && clause@.to_set() == resolvent_set(c1, c2, piv);
                                assert(seq![u].to_set() == resolvent_set(c1, c2, piv));
                            }
                        }
                    }
                }
                proof {
                    assert forall|i: int|
                        0 <= i < old(g).active@.len() implies #[trigger] g.active@[i] == old(g).active@[i] by {
                        assert(old(g).active@.len() == old(g).clauses@.len());
                        assert(gpre.active@.len() == gpre.clauses@.len());
                        assert(g.active@[i] == gpre.active@[i]);
                    }
                    assert forall|u: Literal| #[trigger]
                        old(g).unit_clauses@.contains(u) implies g.unit_clauses@.contains(u) by {
                        assert(gpre.unit_clauses@.contains(u));
                        if clause@.len() == 1 {
                            let k2 = choose|k2: int|
                                0 <= k2 < gpre.unit_clauses@.len() && gpre.unit_clauses@[k2] == u;
                            assert(g.unit_clauses@[k2] == u);
                        }
                    }
                }
                if new_clauses[m].len() > 1 {
                    // The fresh clause joins the next round's frontier.
                    let mut k: usize = 0;
                    while k < new_clauses[m].len()
                        invariant
                            0 <= k <= new_clauses@[m as int]@.len(),
                            m < new_clauses@.len(),
                            g.wf(),
                            clause_vars_le(new_clauses@[m as int]@, g.var_count as nat),
                            old(g).clauses@.len() <= nidx < g.clauses@.len(),
                            self.max_clauses == old(self).max_clauses,
                            self.max_resolve_iterations == old(self).max_resolve_iterations,
                            self.max_search_iterations == old(self).max_search_iterations,
                            self.max_clause_size == old(self).max_clause_size,
                            self.potential_resolve_clauses_with_literal@.len() == 2 * (
                            g.var_count as int) + 2,
                            forall|code: int, j: int|
                                0 <= code < self.potential_resolve_clauses_with_literal@.len()
                                    && 0 <= j < self.potential_resolve_clauses_with_literal@[
                                    code
                                ]@.len() ==> old(g).clauses@.len() <= (
                                #[trigger] self.potential_resolve_clauses_with_literal@[code]@[j])
                                    < g.clauses@.len(),
                        decreases new_clauses@[m as int]@.len() - k,
                    {
                        proof {
                            assert(new_clauses@[m as int]@[k as int].var <= g.var_count);
                        }
                        let code2 = code_of_exec(new_clauses[m][k]);
                        let ghost pre_rows = self.potential_resolve_clauses_with_literal@;
                        self.potential_resolve_clauses_with_literal[code2].push(nidx);
                        proof {
                            let rows = self.potential_resolve_clauses_with_literal@;
                            assert forall|code: int, j: int|
                                0 <= code < rows.len() && 0 <= j < rows[code]@.len() implies old(g).clauses@.len() <= (#[trigger] rows[code]@[j])
                                < g.clauses@.len() by {
                                if code == code2 as int && j == rows[code]@.len() - 1 {
                                    assert(rows[code]@[j] == nidx);
                                } else {
                                    assert(rows[code]@[j] == pre_rows[code]@[j]);
                                }
                            }
                        }
                        k += 1;
                    }
                }
            }
            m += 1;
        }
    }

    /// Binary resolution on the pivot, with the premises swapped when the
    /// pivot is reversed between them.
    pub fn resolve(a: Vec<Literal>, b: Vec<Literal>, l: Literal) -> (r: Option<Vec<Literal>>)
        ensures
            (r is Some) == ((a@.contains(lit_neg(l)) && b@.contains(l)) || (a@.contains(l)
                && b@.contains(lit_neg(l)))),
            a@.contains(lit_neg(l)) && b@.contains(l) ==> r->0@.to_set()
                == crate::simplify::resolvent_set(b@, a@, l),
            !(a@.contains(lit_neg(l)) && b@.contains(l)) && a@.contains(l) && b@.contains(
                lit_neg(l),
            ) ==> r->0@.to_set() == crate::simplify::resolvent_set(a@, b@, l),
            r is Some ==> sorted_strict(r->0@),
    {
        SATSolver::resolute(a, b, l)
    }

    /// Whether the clause mentions a variable in both polarities.
    pub fn is_taut(a: &Vec<Literal>) -> (r: bool)
        ensures
            r == crate::cnf::clause_taut(a@),
    {
        clause_is_taut(a)
    }

    /// The clause with every occurrence of the literal removed.
    pub fn remove_literal(clause: &Vec<Literal>, literal: Literal) -> (r: Vec<Literal>)
        ensures
            forall|y: Literal| #[trigger] r@.contains(y) <==> (clause@.contains(y) && y
                != literal),
            sorted_strict(clause@) ==> sorted_strict(r@),
    {
        SATSolver::remove_literal(clause, literal)
    }

    /// Whether a polarity of the variable is a current unit: `Some(true)`
    /// for the literal itself, `Some(false)` for its negation.
    pub fn check_for_unit_clause(g: &ExtendedCNF, l: Literal) -> (r: Option<bool>)
        ensures
            (r == Some(true)) == g.unit_clauses@.contains(l),
            (r == Some(false)) == (!g.unit_clauses@.contains(l) && g.unit_clauses@.contains(
                lit_neg(l),
            )),
            (r is None) == (!g.unit_clauses@.contains(l) && !g.unit_clauses@.contains(lit_neg(l))),
    {
        if clause_contains(&g.unit_clauses, l) {
            Some(true)
        } else if clause_contains(&g.unit_clauses, l.neg()) {
            Some(false)
        } else {
            None
        }
    }

    /// One step of the Modify procedure: the positive literal when the
    /// positive polarity is a current unit, else the negated literal when
    /// that polarity is a unit, else the polarity given by the random
    /// bit; the chosen literal is then committed to the store.
    pub fn modify_step(g: &mut ExtendedCNF, var: usize, y_bit: bool) -> (r: Literal)
        requires
            old(g).wf(),
            var <= old(g).var_count,
        ensures
            final(g).wf(),
            final(g).var_count == old(g).var_count,
            r.var == var,
            old(g).unit_clauses@.contains(Literal { var, sign: false }) ==> r == (Literal {
                var,
                sign: false,
            }),
            !old(g).unit_clauses@.contains(Literal { var, sign: false }) && old(
                g,
            ).unit_clauses@.contains(Literal { var, sign: true }) ==> r == (Literal {
                var,
                sign: true,
            }),
            !old(g).unit_clauses@.contains(Literal { var, sign: false }) && !old(
                g,
            ).unit_clauses@.contains(Literal { var, sign: true }) ==> r == (Literal {
                var,
                sign: !y_bit,
            }),
    {
        let lit = match Self::check_for_unit_clause(g, Literal { var, sign: false }) {
            Some(true) => Literal { var, sign: false },
            Some(false) => Literal { var, sign: true },
            None => Literal { var, sign: !y_bit },
        };
        let _ = g.apply(lit);
        lit
    }

    /// Assign every variable in the order of the permutation, each step
    /// choosing its polarity by the rule of `modify_step`. Returns one
    /// literal per position, over that position's variable.
    pub fn modify(g: ExtendedCNF, pi: &Vec<usize>, y: &Vec<bool>) -> (r: Vec<Literal>)
        requires
            g.wf(),
            pi@.len() == y@.len(),
            forall|k: int| 0 <= k < pi@.len() ==> (#[trigger] pi@[k]) <= g.var_count,
        ensures
            r@.len() == pi@.len(),
            forall|i: int| 0 <= i < r@.len() ==> (#[trigger] r@[i]).var == pi@[i],
    {
        let mut g = g;
        let ghost vc = g.var_count;
        let mut eval_set: Vec<Literal> = Vec::new();
        let mut i: usize = 0;
        while i < pi.len()
            invariant
                0 <= i <= pi@.len(),
                g.wf(),
                g.var_count == vc,
                eval_set@.len() == i,
                pi@.len() == y@.len(),
                forall|k: int| 0 <= k < pi@.len() ==> (#[trigger] pi@[k]) <= vc,
                forall|k: int| 0 <= k < i ==> (#[trigger] eval_set@[k]).var == pi@[k],
            decreases pi@.len() - i,
        {
            let lit = Self::modify_step(&mut g, pi[i], y[i]);
            eval_set.push(lit);
            i += 1;
        }
        eval_set
    }

    /// The randomized restart loop: a fresh permutation and bit vector
    /// per restart; the first candidate assignment that satisfies the
    /// CNF is returned, checked by `eval`.
    pub fn search(g: &CNF, ext_g: &ExtendedCNF, iterations: usize) -> (r: Option<Vec<Literal>>)
        requires
            ext_g.wf(),
            ext_g.var_count == g.var_count,
        ensures
            r is Some ==> cnf_sat_by(g@, r->0@),
            g@.len() == 0 && iterations > 0 ==> r is Some,
    {
        let n = g.var_count();
        let mut it: usize = 0;
        while it < iterations
            invariant
                ext_g.wf(),
                ext_g.var_count == g.var_count,
                n == g.var_count,
                g@.len() == 0 ==> it == 0,
            decreases iterations - it,
        {
            let mut pi: Vec<usize> = Vec::new();
            let mut v: usize = 1;
            while v <= n
                invariant
                    1 <= v <= n + 1,
                    n < usize::MAX / 2,
                    pi@.len() == v - 1,
                    forall|k: int| 0 <= k < pi@.len() ==> (#[trigger] pi@[k]) <= n,
                decreases n + 1 - v,
            {
                pi.push(v);
                v += 1;
            }
            let ghost pre_pi = pi@;
            rand_shuffle(&mut pi);
            proof {
                pre_pi.to_multiset_ensures();
                pi@.to_multiset_ensures();
                assert forall|k: int| 0 <= k < pi@.len() implies (#[trigger] pi@[k]) <= n by {
                    assert(pi@.contains(pi@[k]));
                    assert(pi@.to_multiset().count(pi@[k]) > 0);
                    assert(pre_pi.contains(pi@[k]));
                    let q = choose|q: int| 0 <= q < pre_pi.len() && pre_pi[q] == pi@[k];
                }
            }
            let mut y: Vec<bool> = Vec::new();
            while y.len() < pi.len()
                invariant
                    y@.len() <= pi@.len(),
                decreases pi@.len() - y@.len(),
            {
                y.push(rand_bool());
            }
            let u = Self::modify(ext_g.clone(), &pi, &y);
            if g.eval(&u) {
                return Some(u);
            }
            proof {
                // A CNF with no clauses is satisfied by any candidate,
                // so this path means there was a clause to miss.
                if g@.len() == 0 {
                    assert(cnf_sat_by(g@, u@));
                }
            }
            it += 1;
        }
        None
    }
}

} // verus!
