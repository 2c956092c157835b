//! The textual CNF format, over ASCII bytes: the first line carries the
//! clause count in decimal, each following line one clause as
//! space-separated signed decimal literals, a leading minus marking the
//! negated polarity. Display and parse are exact inverses on well-formed
//! forms.

use vstd::prelude::*;
use vstd::string::StrSliceExecFns;
use vstd::string::StringSliceAdditionalSpecFns;

use crate::cnf::sorted_strict;
use crate::cnf::Literal;

verus! {

/// The byte codes the format uses.
pub open spec fn is_digit(b: u8) -> bool {
    48 <= b <= 57
}

/// The decimal digits of a number, most significant first.
pub open spec fn dec_digits(n: nat) -> Seq<u8>
    decreases n,
{
    if n < 10 {
        seq![(48 + n) as u8]
    } else {
        dec_digits(n / 10).push((48 + n % 10) as u8)
    }
}

/// A non-empty, all-digit byte string.
pub open spec fn all_digits(s: Seq<u8>) -> bool {
    s.len() > 0 && forall|i: int| 0 <= i < s.len() ==> is_digit(#[trigger] s[i])
}

/// The value of a digit string, leading zeros allowed.
pub open spec fn digits_val(s: Seq<u8>) -> nat
    decreases s.len(),
{
    if s.len() == 0 {
        0
    } else {
        digits_val(s.drop_last()) * 10 + (s.last() - 48) as nat
    }
}

/// The text of a literal: its variable in decimal, after a minus when it
/// is negated.
pub open spec fn lit_text(l: Literal) -> Seq<u8> {
    if l.sign {
        seq![45u8] + dec_digits(l.var as nat)
    } else {
        dec_digits(l.var as nat)
    }
}

/// A literal parsed back from text, or nothing on any other byte string.
/// A leading minus marks the negated polarity, a leading plus is allowed
/// for the positive one.
pub open spec fn parse_lit_text(s: Seq<u8>) -> Option<Literal> {
    if s.len() > 0 && s[0] == 45 {
        if all_digits(s.skip(1)) && digits_val(s.skip(1)) <= usize::MAX {
            Some(Literal { var: digits_val(s.skip(1)) as usize, sign: true })
        } else {
            None
        }
    } else if s.len() > 0 && s[0] == 43 {
        if all_digits(s.skip(1)) && digits_val(s.skip(1)) <= usize::MAX {
            Some(Literal { var: digits_val(s.skip(1)) as usize, sign: false })
        } else {
            None
        }
    } else if all_digits(s) && digits_val(s) <= usize::MAX {
        Some(Literal { var: digits_val(s) as usize, sign: false })
    } else {
        None
    }
}

/// The length of the leading run free of the separator.
pub open spec fn token_len(s: Seq<u8>, sep: u8) -> int
    decreases s.len(),
{
    if s.len() == 0 {
        0
    } else if s[0] == sep {
        0
    } else {
        1 + token_len(s.drop_first(), sep)
    }
}

pub proof fn lemma_token_len_bounds(s: Seq<u8>, sep: u8)
    ensures
        0 <= token_len(s, sep) <= s.len(),
        forall|i: int| 0 <= i < token_len(s, sep) ==> s[i] != sep,
        token_len(s, sep) < s.len() ==> s[token_len(s, sep)] == sep,
    decreases s.len(),
{
    if s.len() > 0 && s[0] != sep {
        lemma_token_len_bounds(s.drop_first(), sep);
        assert(forall|i: int| 0 <= i < s.len() - 1 ==> #[trigger] s.drop_first()[i] == s[i + 1]);
        assert forall|i: int| 0 <= i < token_len(s, sep) implies s[i] != sep by {
            if i > 0 {
                assert(s.drop_first()[i - 1] == s[i]);
            }
        }
    }
}

/// The token length is determined by its characterization.
pub proof fn lemma_token_len_exact(s: Seq<u8>, sep: u8, t: int)
    requires
        0 <= t <= s.len(),
        forall|i: int| 0 <= i < t ==> s[i] != sep,
        t < s.len() ==> s[t] == sep,
    ensures
        token_len(s, sep) == t,
    decreases s.len(),
{
    if s.len() > 0 && s[0] != sep {
        assert(t > 0);
        let d = s.drop_first();
        assert(forall|i: int| 0 <= i < d.len() ==> #[trigger] d[i] == s[i + 1]);
        lemma_token_len_exact(d, sep, t - 1);
    }
}

/// A token followed by the separator starts the combined string.
pub proof fn lemma_token_concat(t: Seq<u8>, r: Seq<u8>, sep: u8)
    requires
        forall|i: int| 0 <= i < t.len() ==> t[i] != sep,
    ensures
        token_len(t + seq![sep] + r, sep) == t.len(),
{
    let s = t + seq![sep] + r;
    assert(forall|i: int| 0 <= i < t.len() ==> #[trigger] s[i] == t[i]);
    assert(s[t.len() as int] == sep);
    lemma_token_len_exact(s, sep, t.len() as int);
}

/// A separator-free string is all one token.
pub proof fn lemma_token_all(t: Seq<u8>, sep: u8)
    requires
        forall|i: int| 0 <= i < t.len() ==> t[i] != sep,
    ensures
        token_len(t, sep) == t.len(),
{
    lemma_token_len_exact(t, sep, t.len() as int);
}

/// The decimal digits of a number read back as its value; digits are
/// digits and there is at least one.
pub proof fn lemma_digits_roundtrip(n: nat)
    ensures
        dec_digits(n).len() >= 1,
        all_digits(dec_digits(n)),
        digits_val(dec_digits(n)) == n,
    decreases n,
{
    if n < 10 {
        let s = dec_digits(n);
        assert(s =~= seq![(48 + n) as u8]);
        assert(digits_val(s) == digits_val(s.drop_last()) * 10 + (s.last() - 48) as nat);
        assert(s.drop_last() =~= Seq::<u8>::empty());
    } else {
        lemma_digits_roundtrip(n / 10);
        let d = dec_digits(n / 10);
        let s = dec_digits(n);
        assert(s == d.push((48 + n % 10) as u8));
        assert(s.drop_last() =~= d);
        assert(all_digits(s)) by {
            assert forall|i: int| 0 <= i < s.len() implies is_digit(#[trigger] s[i]) by {
                if i < d.len() {
                    assert(s[i] == d[i]);
                }
            }
        }
        assert(digits_val(s) == digits_val(d) * 10 + (s.last() - 48) as nat);
        assert(digits_val(s) == (n / 10) * 10 + n % 10);
    }
}

/// The text of a clause: its literals space-separated.
pub open spec fn clause_text(c: Seq<Literal>) -> Seq<u8>
    decreases c.len(),
{
    if c.len() == 0 {
        Seq::<u8>::empty()
    } else if c.len() == 1 {
        lit_text(c[0])
    } else {
        lit_text(c[0]) + seq![32u8] + clause_text(c.drop_first())
    }
}

/// A clause parsed back from one line of text.
pub open spec fn parse_clause_text(s: Seq<u8>) -> Option<Seq<Literal>>
    decreases s.len(),
    via parse_clause_text_dec
{
    if s.len() == 0 {
        Some(Seq::<Literal>::empty())
    } else {
        let tl = token_len(s, 32);
        match parse_lit_text(s.take(tl)) {
            None => None,
            Some(l) => if tl == s.len() {
                Some(seq![l])
            } else {
                match parse_clause_text(s.skip(tl + 1)) {
                    None => None,
                    Some(rest) => Some(seq![l] + rest),
                }
            },
        }
    }
}

#[via_fn]
proof fn parse_clause_text_dec(s: Seq<u8>) {
    lemma_token_len_bounds(s, 32);
}

/// The lines of the clauses, each ended by a newline.
pub open spec fn cnf_body_text(cs: Seq<Seq<Literal>>) -> Seq<u8>
    decreases cs.len(),
{
    if cs.len() == 0 {
        Seq::<u8>::empty()
    } else {
        clause_text(cs[0]) + seq![10u8] + cnf_body_text(cs.drop_first())
    }
}

/// The whole text: the clause count, a newline, then one line per clause.
pub open spec fn cnf_text(cs: Seq<Seq<Literal>>) -> Seq<u8> {
    dec_digits(cs.len()) + seq![10u8] + cnf_body_text(cs)
}

/// The given number of clause lines parsed back.
pub open spec fn parse_cnf_body(s: Seq<u8>, n: nat) -> Option<Seq<Seq<Literal>>>
    decreases n,
{
    if n == 0 {
        if s.len() == 0 {
            Some(Seq::<Seq<Literal>>::empty())
        } else {
            None
        }
    } else {
        let ll = token_len(s, 10);
        if ll == s.len() {
            None
        } else {
            match parse_clause_text(s.take(ll)) {
                None => None,
                Some(c) => match parse_cnf_body(s.skip(ll + 1), (n - 1) as nat) {
                    None => None,
                    Some(rest) => Some(seq![c] + rest),
                },
            }
        }
    }
}

/// A CNF parsed back from its text.
pub open spec fn parse_cnf_text(s: Seq<u8>) -> Option<Seq<Seq<Literal>>> {
    let hl = token_len(s, 10);
    if hl == s.len() {
        None
    } else if all_digits(s.take(hl)) && digits_val(s.take(hl)) <= usize::MAX {
        parse_cnf_body(s.skip(hl + 1), digits_val(s.take(hl)))
    } else {
        None
    }
}

/// The bytes of a literal's text: a possible minus, then digits; never a
/// space or a newline.
pub proof fn lemma_lit_text_bytes(l: Literal)
    ensures
        lit_text(l).len() >= 1,
        forall|i: int|
            0 <= i < lit_text(l).len() ==> (#[trigger] lit_text(l)[i] == 45 || is_digit(
                lit_text(l)[i],
            )),
        forall|i: int| 0 <= i < lit_text(l).len() ==> #[trigger] lit_text(l)[i] != 32,
        forall|i: int| 0 <= i < lit_text(l).len() ==> #[trigger] lit_text(l)[i] != 10,
{
    lemma_digits_roundtrip(l.var as nat);
    let d = dec_digits(l.var as nat);
    if l.sign {
        let s = lit_text(l);
        assert(s == seq![45u8] + d);
        assert forall|i: int| 0 <= i < s.len() implies (#[trigger] s[i] == 45 || is_digit(
            s[i],
        )) by {
            if i > 0 {
                assert(s[i] == d[i - 1]);
            }
        }
    }
}

/// Parsing the text of a literal gives the literal back.
pub proof fn lemma_lit_roundtrip(l: Literal)
    ensures
        parse_lit_text(lit_text(l)) == Some(l),
{
    lemma_digits_roundtrip(l.var as nat);
    let d = dec_digits(l.var as nat);
    if l.sign {
        let s = lit_text(l);
        assert(s == seq![45u8] + d);
        assert(s[0] == 45);
        assert(s.skip(1) =~= d);
    } else {
        assert(lit_text(l) == d);
        assert(d[0] != 45 && d[0] != 43) by {
            assert(is_digit(d[0]));
        }
    }
}

/// The bytes of a clause's text never include a newline.
pub proof fn lemma_clause_text_bytes(c: Seq<Literal>)
    ensures
        forall|i: int| 0 <= i < clause_text(c).len() ==> #[trigger] clause_text(c)[i] != 10,
    decreases c.len(),
{
    if c.len() == 1 {
        lemma_lit_text_bytes(c[0]);
    } else if c.len() > 1 {
        lemma_lit_text_bytes(c[0]);
        lemma_clause_text_bytes(c.drop_first());
        let s = clause_text(c);
        let t = lit_text(c[0]);
        let r = clause_text(c.drop_first());
        assert(s == t + seq![32u8] + r);
        assert forall|i: int| 0 <= i < s.len() implies #[trigger] s[i] != 10 by {
            if i < t.len() {
                assert(s[i] == t[i]);
            } else if i > t.len() {
                assert(s[i] == r[i - t.len() - 1]);
            }
        }
    }
}

/// Parsing the text of a clause gives the clause back.
pub proof fn lemma_clause_roundtrip(c: Seq<Literal>)
    ensures
        parse_clause_text(clause_text(c)) == Some(c),
    decreases c.len(),
{
    if c.len() == 0 {
        assert(clause_text(c).len() == 0);
        assert(parse_clause_text(clause_text(c)) == Some(c)) by {
            assert(Seq::<Literal>::empty() =~= c);
        }
    } else if c.len() == 1 {
        let s = clause_text(c);
        assert(s == lit_text(c[0]));
        lemma_lit_text_bytes(c[0]);
        lemma_token_all(s, 32);
        assert(s.take(s.len() as int) =~= s);
        lemma_lit_roundtrip(c[0]);
        assert(parse_clause_text(s) == Some(seq![c[0]]));
        assert(seq![c[0]] =~= c);
    } else {
        let s = clause_text(c);
        let t = lit_text(c[0]);
        let r = clause_text(c.drop_first());
        assert(s == t + seq![32u8] + r);
        lemma_lit_text_bytes(c[0]);
        lemma_token_concat(t, r, 32);
        assert(token_len(s, 32) == t.len());
        assert(s.take(t.len() as int) =~= t);
        lemma_lit_roundtrip(c[0]);
        assert(t.len() < s.len());
        assert(s.skip(t.len() as int + 1) =~= r);
        lemma_clause_roundtrip(c.drop_first());
        assert(parse_clause_text(s) == Some(seq![c[0]] + c.drop_first()));
        assert(seq![c[0]] + c.drop_first() =~= c);
    }
}

/// Parsing the body lines gives the clauses back.
pub proof fn lemma_body_roundtrip(cs: Seq<Seq<Literal>>)
    ensures
        parse_cnf_body(cnf_body_text(cs), cs.len()) == Some(cs),
    decreases cs.len(),
{
    if cs.len() == 0 {
        assert(Seq::<Seq<Literal>>::empty() =~= cs);
    } else {
        let s = cnf_body_text(cs);
        let t = clause_text(cs[0]);
        let r = cnf_body_text(cs.drop_first());
        assert(s == t + seq![10u8] + r);
        lemma_clause_text_bytes(cs[0]);
        lemma_token_concat(t, r, 10);
        assert(token_len(s, 10) == t.len());
        assert(t.len() < s.len());
        assert(s.take(t.len() as int) =~= t);
        lemma_clause_roundtrip(cs[0]);
        assert(s.skip(t.len() as int + 1) =~= r);
        lemma_body_roundtrip(cs.drop_first());
        assert(parse_cnf_body(s, cs.len()) == Some(seq![cs[0]] + cs.drop_first()));
        assert(seq![cs[0]] + cs.drop_first() =~= cs);
    }
}

/// The parse of a display is the identity: reading back the text of any
/// clause list gives exactly that clause list.
pub proof fn lemma_parse_display_roundtrip(cs: Seq<Seq<Literal>>)
    requires
        cs.len() <= usize::MAX,
    ensures
        parse_cnf_text(cnf_text(cs)) == Some(cs),
{
    let s = cnf_text(cs);
    let h = dec_digits(cs.len());
    let body = cnf_body_text(cs);
    assert(s == h + seq![10u8] + body);
    lemma_digits_roundtrip(cs.len());
    assert(forall|i: int| 0 <= i < h.len() ==> #[trigger] h[i] != 10) by {
        assert(forall|i: int| 0 <= i < h.len() ==> is_digit(#[trigger] h[i]));
    }
    lemma_token_concat(h, body, 10);
    assert(token_len(s, 10) == h.len());
    assert(h.len() < s.len());
    assert(s.take(h.len() as int) =~= h);
    assert(s.skip(h.len() as int + 1) =~= body);
    lemma_body_roundtrip(cs);
}

/// Append the decimal digits of a number.
fn push_dec_digits(out: &mut Vec<u8>, n: usize)
    ensures
        final(out)@ == old(out)@ + dec_digits(n as nat),
    decreases n,
{
    if n < 10 {
        out.push(48 + (n as u8));
        proof {
            assert(out@ =~= old(out)@ + dec_digits(n as nat));
        }
    } else {
        push_dec_digits(out, n / 10);
        out.push(48 + ((n % 10) as u8));
        proof {
            assert(out@ =~= old(out)@ + dec_digits(n as nat));
        }
    }
}

/// Append the text of a literal.
fn append_lit_text(out: &mut Vec<u8>, l: Literal)
    ensures
        final(out)@ == old(out)@ + lit_text(l),
{
    if l.sign {
        out.push(45);
    }
    push_dec_digits(out, l.var);
    proof {
        assert(out@ =~= old(out)@ + lit_text(l));
    }
}

/// Append the text of the clause's literals from `from` on.
fn append_clause_text(out: &mut Vec<u8>, c: &Vec<Literal>, from: usize)
    requires
        from <= c@.len(),
    ensures
        final(out)@ == old(out)@ + clause_text(c@.skip(from as int)),
    decreases c@.len() - from,
{
    let ghost tailv = c@.skip(from as int);
    if from < c.len() {
        proof {
            assert(tailv[0] == c@[from as int]);
        }
        append_lit_text(out, c[from]);
        if from + 1 < c.len() {
            out.push(32);
            append_clause_text(out, c, from + 1);
            proof {
                assert(tailv.drop_first() =~= c@.skip(from as int + 1));
                assert(clause_text(tailv) == lit_text(tailv[0]) + seq![32u8] + clause_text(
                    tailv.drop_first(),
                ));
                assert(out@ =~= old(out)@ + clause_text(tailv));
            }
        } else {
            proof {
                assert(tailv.len() == 1);
                assert(out@ =~= old(out)@ + clause_text(tailv));
            }
        }
    } else {
        proof {
            assert(tailv.len() == 0);
            assert(out@ =~= old(out)@ + clause_text(tailv));
        }
    }
}

/// One clause as one line of text.
pub fn clause_to_text(c: &Vec<Literal>) -> (r: Vec<u8>)
    ensures
        r@ == clause_text(c@),
{
    let mut out: Vec<u8> = Vec::new();
    append_clause_text(&mut out, c, 0);
    proof {
        assert(c@.skip(0) =~= c@);
        assert(out@ =~= clause_text(c@));
    }
    out
}

/// Append the clause lines from `from` on.
fn append_body_text(out: &mut Vec<u8>, cs: &Vec<Vec<Literal>>, from: usize)
    requires
        from <= cs@.len(),
    ensures
        final(out)@ == old(out)@ + cnf_body_text(crate::cnf::clauses_view(cs@).skip(from as int)),
    decreases cs@.len() - from,
{
    let ghost tailv = crate::cnf::clauses_view(cs@).skip(from as int);
    if from < cs.len() {
        proof {
            assert(tailv[0] == cs@[from as int]@);
        }
        append_clause_text(out, &cs[from], 0);
        proof {
            assert(cs@[from as int]@.skip(0) =~= cs@[from as int]@);
        }
        out.push(10);
        append_body_text(out, cs, from + 1);
        proof {
            assert(tailv.drop_first() =~= crate::cnf::clauses_view(cs@).skip(from as int + 1));
            assert(cnf_body_text(tailv) == clause_text(tailv[0]) + seq![10u8] + cnf_body_text(
                tailv.drop_first(),
            ));
            assert(out@ =~= old(out)@ + cnf_body_text(tailv));
        }
    } else {
        proof {
            assert(tailv.len() == 0);
            assert(out@ =~= old(out)@ + cnf_body_text(tailv));
        }
    }
}

impl crate::cnf::CNF {
    /// The CNF rendered in the textual format: the clause count, then one
    /// clause per line.
    pub fn to_text(&self) -> (r: Vec<u8>)
        ensures
            r@ == cnf_text(self@),
    {
        let mut out: Vec<u8> = Vec::new();
        push_dec_digits(&mut out, self.clauses.len());
        out.push(10);
        append_body_text(&mut out, &self.clauses, 0);
        proof {
            assert(crate::cnf::clauses_view(self.clauses@).skip(0) =~= self@);
            assert(out@ =~= cnf_text(self@));
        }
        out
    }
}

/// Earlier digits never lower the value.
proof fn lemma_digits_val_prefix(s: Seq<u8>, k: int)
    requires
        0 <= k <= s.len(),
    ensures
        digits_val(s.take(k)) <= digits_val(s),
    decreases s.len() - k,
{
    if k == s.len() {
        assert(s.take(k) =~= s);
    } else {
        lemma_digits_val_prefix(s, k + 1);
        let t = s.take(k + 1);
        assert(t.drop_last() =~= s.take(k));
        assert(digits_val(t) == digits_val(s.take(k)) * 10 + (t.last() - 48) as nat);
        assert(digits_val(s.take(k)) * 10 >= digits_val(s.take(k))) by (nonlinear_arith);
    }
}

/// Parse the decimal value of `b[from..to]`; nothing unless the range is
/// non-empty, all digits, and the value fits the machine word.
fn parse_digits_range(b: &Vec<u8>, from: usize, to: usize) -> (r: Option<usize>)
    requires
        from <= to <= b@.len(),
    ensures
        (r is Some) == (all_digits(b@.subrange(from as int, to as int)) && digits_val(
            b@.subrange(from as int, to as int),
        ) <= usize::MAX),
        r is Some ==> r->0 as nat == digits_val(b@.subrange(from as int, to as int)),
{
    let ghost whole = b@.subrange(from as int, to as int);
    if from == to {
        return None;
    }
    let mut val: usize = 0;
    let mut i = from;
    while i < to
        invariant
            from <= i <= to <= b@.len(),
            whole == b@.subrange(from as int, to as int),
            val as nat == digits_val(b@.subrange(from as int, i as int)),
            forall|j: int| from <= j < i ==> is_digit(#[trigger] b@[j]),
        decreases to - i,
    {
        let d = b[i];
        proof {
            assert(whole[i - from] == b@[i as int]);
        }
        if !(48 <= d && d <= 57) {
            proof {
                assert(!is_digit(whole[i - from]));
            }
            return None;
        }
        let dv = (d - 48) as usize;
        if val > (usize::MAX - dv) / 10 {
            proof {
                let pre = b@.subrange(from as int, i as int);
                let ext = b@.subrange(from as int, i + 1);
                assert(ext.drop_last() =~= pre);
                assert(ext.last() == b@[i as int]);
                assert(digits_val(ext) == (val as nat) * 10 + dv as nat);
                assert((val as nat) * 10 + dv > usize::MAX) by (nonlinear_arith)
                    requires
                        val as nat > ((usize::MAX - dv) as nat) / 10,
                        0 <= dv <= 9,
                ;
                assert(ext =~= whole.take(i + 1 - from));
                lemma_digits_val_prefix(whole, i + 1 - from);
                assert(digits_val(whole) > usize::MAX);
            }
            return None;
        }
        proof {
            let pre = b@.subrange(from as int, i as int);
            let ext = b@.subrange(from as int, i + 1);
            assert(ext.drop_last() =~= pre);
            assert(ext.last() == b@[i as int]);
            assert((val as nat) * 10 + dv <= usize::MAX) by (nonlinear_arith)
                requires
                    val as nat <= ((usize::MAX - dv) as nat) / 10,
                    0 <= dv <= 9,
            ;
        }
        val = val * 10 + dv;
        i += 1;
    }
    proof {
        assert(b@.subrange(from as int, to as int) =~= whole);
        assert(all_digits(whole)) by {
            assert forall|j: int| 0 <= j < whole.len() implies is_digit(#[trigger] whole[j]) by {
                assert(whole[j] == b@[from + j]);
            }
        }
    }
    Some(val)
}

/// Parse one literal from its bytes.
pub fn parse_lit_bytes(b: &Vec<u8>) -> (r: Result<Literal, crate::solver::Error>)
    ensures
        (r is Ok) == (parse_lit_text(b@) is Some),
        r is Ok ==> parse_lit_text(b@) == Some(r->Ok_0),
{
    if b.len() > 0 && b[0] == 45 {
        proof {
            assert(b@.subrange(1, b@.len() as int) =~= b@.skip(1));
        }
        match parse_digits_range(b, 1, b.len()) {
            Some(v) => Ok(Literal { var: v, sign: true }),
            None => Err(crate::solver::Error::new("not a signed integer")),
        }
    } else if b.len() > 0 && b[0] == 43 {
        proof {
            assert(b@.subrange(1, b@.len() as int) =~= b@.skip(1));
        }
        match parse_digits_range(b, 1, b.len()) {
            Some(v) => Ok(Literal { var: v, sign: false }),
            None => Err(crate::solver::Error::new("not a signed integer")),
        }
    } else {
        proof {
            assert(b@.subrange(0, b@.len() as int) =~= b@);
        }
        match parse_digits_range(b, 0, b.len()) {
            Some(v) => Ok(Literal { var: v, sign: false }),
            None => Err(crate::solver::Error::new("not a signed integer")),
        }
    }
}

impl Literal {
    /// Parse a literal from text: a signed decimal integer, the minus
    /// marking the negated polarity.
    pub fn new(s: &str) -> (r: Result<Literal, crate::solver::Error>)
        ensures
            (r is Ok) == (parse_lit_text(s.spec_bytes()) is Some),
            r is Ok ==> parse_lit_text(s.spec_bytes()) == Some(r->Ok_0),
    {
        let b = s.as_bytes_vec();
        parse_lit_bytes(&b)
    }
}

/// The rest of a clause parse appended to what is already parsed.
pub open spec fn extend_clause_parse(acc: Seq<Literal>, rem: Option<Seq<Literal>>) -> Option<
    Seq<Literal>,
> {
    match rem {
        None => None,
        Some(r) => Some(acc + r),
    }
}

/// A copy of a byte range.
fn copy_byte_range(b: &Vec<u8>, from: usize, to: usize) -> (r: Vec<u8>)
    requires
        from <= to <= b@.len(),
    ensures
        r@ == b@.subrange(from as int, to as int),
{
    let mut r: Vec<u8> = Vec::new();
    let mut i = from;
    while i < to
        invariant
            from <= i <= to <= b@.len(),
            r@ == b@.subrange(from as int, i as int),
        decreases to - i,
    {
        r.push(b[i]);
        proof {
            assert(r@ =~= b@.subrange(from as int, i + 1));
        }
        i += 1;
    }
    r
}

/// Parse one clause line from its bytes.
pub fn parse_clause_bytes(b: &Vec<u8>) -> (r: Result<Vec<Literal>, crate::solver::Error>)
    ensures
        (r is Ok) == (parse_clause_text(b@) is Some),
        r is Ok ==> parse_clause_text(b@) == Some(r->Ok_0@),
{
    let mut acc: Vec<Literal> = Vec::new();
    let mut pos: usize = 0;
    proof {
        assert(b@.skip(0) =~= b@);
        if parse_clause_text(b@) is Some {
            assert(Seq::<Literal>::empty() + parse_clause_text(b@)->0 =~= parse_clause_text(
                b@,
            )->0);
        }
    }
    while pos < b.len()
        invariant
            pos <= b@.len(),
            parse_clause_text(b@) == extend_clause_parse(
                acc@,
                parse_clause_text(b@.skip(pos as int)),
            ),
        decreases b@.len() - pos,
    {
        let ghost rem = b@.skip(pos as int);
        let mut e = pos;
        while e < b.len() && b[e] != 32
            invariant
                pos <= e <= b@.len(),
                forall|j: int| pos <= j < e ==> b@[j] != 32,
            decreases b@.len() - e,
        {
            e += 1;
        }
        proof {
            assert(forall|j: int| 0 <= j < rem.len() ==> #[trigger] rem[j] == b@[pos + j]);
            lemma_token_len_exact(rem, 32, e - pos);
        }
        let tok = copy_byte_range(b, pos, e);
        proof {
            assert(tok@ =~= rem.take(e - pos));
        }
        match parse_lit_bytes(&tok) {
            Err(er) => {
                proof {
                    assert(parse_clause_text(rem) is None);
                }
                return Err(er);
            },
            Ok(l) => {
                let ghost pre_acc = acc@;
                acc.push(l);
                if e == b.len() {
                    proof {
                        assert(e - pos == rem.len());
                        assert(parse_clause_text(rem) == Some(seq![l]));
                        assert(acc@ =~= pre_acc + seq![l]);
                        assert(b@.skip(e as int).len() == 0);
                        assert(parse_clause_text(b@.skip(e as int)) == Some(
                            Seq::<Literal>::empty(),
                        ));
                        assert(pre_acc + seq![l] + Seq::<Literal>::empty() =~= pre_acc + seq![l]);
                        assert(parse_clause_text(b@) == extend_clause_parse(
                            acc@,
                            parse_clause_text(b@.skip(e as int)),
                        ));
                    }
                    pos = e;
                } else {
                    proof {
                        assert(rem[e - pos] == 32);
                        assert(e - pos < rem.len());
                        assert(rem.skip(e - pos + 1) =~= b@.skip(e + 1));
                        assert(parse_clause_text(rem) == (match parse_clause_text(
                            b@.skip(e + 1),
                        ) {
                            None => None::<Seq<Literal>>,
                            Some(rest) => Some(seq![l] + rest),
                        }));
                        assert(acc@ =~= pre_acc + seq![l]);
                        assert forall|rest: Seq<Literal>| true implies pre_acc + (seq![l] + rest)
                            =~= (pre_acc + seq![l]) + rest by {}
                        assert(parse_clause_text(b@) == extend_clause_parse(
                            acc@,
                            parse_clause_text(b@.skip(e + 1)),
                        ));
                    }
                    pos = e + 1;
                }
            },
        }
    }
    proof {
        assert(b@.skip(pos as int).len() == 0);
        assert(parse_clause_text(b@.skip(pos as int)) == Some(Seq::<Literal>::empty()));
        assert(acc@ + Seq::<Literal>::empty() =~= acc@);
    }
    Ok(acc)
}

/// Parse one clause from a line of text, as space-separated signed
/// decimal literals.
pub fn parse_clause_from_line(s: &str) -> (r: Result<Vec<Literal>, crate::solver::Error>)
    ensures
        (r is Ok) == (parse_clause_text(s.spec_bytes()) is Some),
        r is Ok ==> parse_clause_text(s.spec_bytes()) == Some(r->Ok_0@),
{
    let b = s.as_bytes_vec();
    parse_clause_bytes(&b)
}

/// The clause list is already in normal form: every clause sorted, no
/// two clauses equal.
pub open spec fn canonical_clauses(cs: Seq<Seq<Literal>>) -> bool {
    &&& forall|i: int| 0 <= i < cs.len() ==> sorted_strict(#[trigger] cs[i])
    &&& forall|i: int, j: int| 0 <= i < j < cs.len() ==> cs[i] != cs[j]
}

/// The rest of a body parse appended to what is already parsed.
pub open spec fn extend_body_parse(
    acc: Seq<Seq<Literal>>,
    rem: Option<Seq<Seq<Literal>>>,
) -> Option<Seq<Seq<Literal>>> {
    match rem {
        None => None,
        Some(r) => Some(acc + r),
    }
}

/// Parse a whole CNF from its text: the clause count on the first line,
/// then exactly that many clause lines. Every parsed clause is added in
/// order; on a text in normal form the result is exactly the parsed
/// clause list.
#[verifier::spinoff_prover]
#[verifier::rlimit(100)]
pub fn read_cnf_from_text(s: &str) -> (r: Result<crate::cnf::CNF, crate::solver::Error>)
    ensures
        (r is Ok) == (parse_cnf_text(s.spec_bytes()) is Some),
        r is Ok ==> r->Ok_0.wf(),
        r is Ok && canonical_clauses(parse_cnf_text(s.spec_bytes())->0) ==> r->Ok_0@
            == parse_cnf_text(s.spec_bytes())->0,
    {
    let b = s.as_bytes_vec();
    let ghost whole = b@;
    let mut e: usize = 0;
    while e < b.len() && b[e] != 10
        invariant
            0 <= e <= b@.len(),
            forall|j: int| 0 <= j < e ==> b@[j] != 10,
        decreases b@.len() - e,
    {
        e += 1;
    }
    proof {
        lemma_token_len_exact(b@, 10, e as int);
    }
    if e == b.len() {
        return Err(crate::solver::Error::new("missing clause count"));
    }
    proof {
        assert(b@.take(e as int) =~= b@.subrange(0, e as int));
    }
    let count = match parse_digits_range(&b, 0, e) {
        None => {
            return Err(crate::solver::Error::new("bad clause count"));
        },
        Some(c) => c,
    };
    let mut cnf = crate::cnf::CNF::new();
    let ghost mut gcs: Seq<Seq<Literal>> = Seq::empty();
    let mut pos: usize = e + 1;
    let mut k: usize = 0;
    proof {
        assert(gcs + parse_cnf_body(b@.skip(pos as int), count as nat)->0 =~= parse_cnf_body(
            b@.skip(pos as int),
            count as nat,
        )->0);
    }
    while k < count
        invariant
            0 <= k <= count,
            pos <= b@.len(),
            cnf.wf(),
            gcs.len() == k,
            parse_cnf_body(b@.skip((e + 1) as int), count as nat) == extend_body_parse(
                gcs,
                parse_cnf_body(b@.skip(pos as int), (count - k) as nat),
            ),
            canonical_clauses(gcs) ==> cnf@ == gcs,
        decreases count - k,
    {
        let ghost rem = b@.skip(pos as int);
        let mut e2 = pos;
        while e2 < b.len() && b[e2] != 10
            invariant
                pos <= e2 <= b@.len(),
                forall|j: int| pos <= j < e2 ==> b@[j] != 10,
            decreases b@.len() - e2,
        {
            e2 += 1;
        }
        proof {
            assert(forall|j: int| 0 <= j < rem.len() ==> #[trigger] rem[j] == b@[pos + j]);
            lemma_token_len_exact(rem, 10, e2 - pos);
        }
        if e2 == b.len() {
            proof {
                assert(token_len(rem, 10) == rem.len());
                assert(parse_cnf_body(rem, (count - k) as nat) is None);
            }
            return Err(crate::solver::Error::new("missing clause line"));
        }
        let line = copy_byte_range(&b, pos, e2);
        proof {
            assert(line@ =~= rem.take(e2 - pos));
        }
        match parse_clause_bytes(&line) {
            Err(er) => {
                proof {
                    assert(parse_cnf_body(rem, (count - k) as nat) is None);
                }
                return Err(er);
            },
            Ok(clause) => {
                let ghost cv = clause@;
                let ghost pre_cnf = cnf@;
                let ghost pre_gcs = gcs;
                cnf.add_clause(clause);
                proof {
                    assert(parse_cnf_body(b@.skip((e + 1) as int), count as nat)
                        == extend_body_parse(
                        gcs,
                        parse_cnf_body(b@.skip(pos as int), (count - k) as nat),
                    ));
                    gcs = gcs.push(cv);
                    assert(rem.skip(e2 - pos + 1) =~= b@.skip(e2 + 1));
                    assert(parse_cnf_body(b@.skip((e + 1) as int), count as nat)
                        == extend_body_parse(
                        pre_gcs,
                        parse_cnf_body(rem, (count - k) as nat),
                    ));
                    assert(token_len(rem, 10) == e2 - pos);
                    assert(e2 - pos < rem.len());
                    assert(rem.take(token_len(rem, 10)) == line@);
                    assert(parse_clause_text(rem.take(token_len(rem, 10))) == Some(cv));
                    assert(((count - k) as nat - 1) as nat == (count - k - 1) as nat);
                    assert(parse_cnf_body(rem, (count - k) as nat) == (
                    match parse_cnf_body(b@.skip(e2 + 1), (count - k - 1) as nat) {
                        None => None::<Seq<Seq<Literal>>>,
                        Some(rest) => Some(seq![cv] + rest),
                    }));
                    let inner = parse_cnf_body(b@.skip(e2 + 1), (count - k - 1) as nat);
                    if inner is Some {
                        let rest = inner->0;
                        assert(parse_cnf_body(rem, (count - k) as nat) == Some(seq![cv] + rest));
                        assert(pre_gcs + (seq![cv] + rest) =~= gcs + rest);
                        assert(pre_gcs + (seq![cv] + rest) == gcs + rest);
                        assert(extend_body_parse(pre_gcs, parse_cnf_body(rem, (count - k) as nat))
                            == Some(pre_gcs + (seq![cv] + rest)));
                        assert(parse_cnf_body(b@.skip((e + 1) as int), count as nat) == Some(
                            gcs + rest,
                        ));
                        assert(extend_body_parse(gcs, inner) == Some(gcs + rest));
                    } else {
                        assert(parse_cnf_body(rem, (count - k) as nat) is None);
                        assert(extend_body_parse(
                            pre_gcs,
                            parse_cnf_body(rem, (count - k) as nat),
                        ) is None);
                        assert(extend_body_parse(gcs, inner) is None);
                    }
                    assert(parse_cnf_body(b@.skip((e + 1) as int), count as nat)
                        == extend_body_parse(gcs, inner));
                    if canonical_clauses(gcs) {
                        assert(canonical_clauses(pre_gcs)) by {
                            assert forall|i: int|
                                0 <= i < pre_gcs.len() implies sorted_strict(
                                #[trigger] pre_gcs[i],
                            ) by {
                                assert(pre_gcs[i] == gcs[i]);
                                assert(sorted_strict(gcs[i]));
                            }
                            assert forall|i: int, j: int|
                                0 <= i < j < pre_gcs.len() implies pre_gcs[i] != pre_gcs[j] by {
                                assert(pre_gcs[i] == gcs[i] && pre_gcs[j] == gcs[j]);
                            }
                        }
                        assert(pre_cnf == pre_gcs);
                        assert(sorted_strict(cv)) by { assert(gcs[k as int] == cv); }
                        crate::cnf::lemma_norm_sorted_id(cv);
                        assert(!pre_cnf.to_set().contains(cv)) by {
                            if pre_cnf.to_set().contains(cv) {
                                assert(pre_gcs.contains(cv));
                                let q = choose|q: int|
                                    0 <= q < pre_gcs.len() && pre_gcs[q] == cv;
                                assert(gcs[q] == gcs[k as int]);
                            }
                        }
                        assert(cnf@ == pre_cnf.push(cv));
                        assert(cnf@ =~= gcs);
                    }
                }
                pos = e2 + 1;
                k += 1;
            },
        }
    }
    if pos != b.len() {
        proof {
            assert(b@.skip(pos as int).len() > 0);
            assert(parse_cnf_body(b@.skip(pos as int), 0) is None);
        }
        return Err(crate::solver::Error::new("text after the last clause"));
    }
    proof {
        assert(b@.skip(pos as int).len() == 0);
        assert(parse_cnf_body(b@.skip(pos as int), 0) == Some(Seq::<Seq<Literal>>::empty()));
        assert(gcs + Seq::<Seq<Literal>>::empty() =~= gcs);
        assert(parse_cnf_text(whole) == Some(gcs)) by {
            assert(token_len(whole, 10) == e as int);
            assert(whole.take(e as int) =~= whole.subrange(0, e as int));
            assert(whole.skip(e as int + 1) == b@.skip((e + 1) as int));
        }
    }
    Ok(cnf)
}

} // verus!
