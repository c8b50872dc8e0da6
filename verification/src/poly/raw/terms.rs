//! The mathematics of term lists: a polynomial is seen as a sequence of
//! terms, each a coefficient with an exponent vector, and stands for the
//! function that sends an exponent vector to the sum of the coefficients of
//! the terms that carry it.

use vstd::prelude::*;
use crate::poly::ring::{
    lemma_add_cancel, lemma_add_interchange, lemma_add_swap, lemma_neg_add, lemma_neg_neg,
    lemma_mul_zero, lemma_neg_zero, lemma_zero_add, Ring,
};

verus! {

/// `k` is the first position where `a` and `b` differ, and `a` is smaller there.
pub open spec fn lex_witness(a: Seq<nat>, b: Seq<nat>, k: int) -> bool {
    &&& 0 <= k < a.len()
    &&& k < b.len()
    &&& a[k] < b[k]
    &&& forall|j: int| 0 <= j < k ==> a[j] == b[j]
}

/// The canonical order of exponent vectors: lexicographic, variable 0 most
/// significant.
pub open spec fn lex_less(a: Seq<nat>, b: Seq<nat>) -> bool {
    exists|k: int| lex_witness(a, b, k)
}

pub proof fn lemma_lex_irreflexive(a: Seq<nat>)
    ensures
        !lex_less(a, a),
{
}

pub proof fn lemma_lex_transitive(a: Seq<nat>, b: Seq<nat>, c: Seq<nat>)
    requires
        lex_less(a, b),
        lex_less(b, c),
    ensures
        lex_less(a, c),
{
    let k1 = choose|k: int| lex_witness(a, b, k);
    let k2 = choose|k: int| lex_witness(b, c, k);
    if k1 <= k2 {
        assert(lex_witness(a, c, k1));
    } else {
        assert(lex_witness(a, c, k2));
    }
}

pub proof fn lemma_lex_asymmetric(a: Seq<nat>, b: Seq<nat>)
    requires
        lex_less(a, b),
    ensures
        !lex_less(b, a),
        a != b,
{
    if lex_less(b, a) {
        lemma_lex_transitive(a, b, a);
    }
}

proof fn lemma_lex_total_from(a: Seq<nat>, b: Seq<nat>, k: int)
    requires
        a.len() == b.len(),
        0 <= k <= a.len(),
        forall|j: int| 0 <= j < k ==> a[j] == b[j],
    ensures
        a == b || lex_less(a, b) || lex_less(b, a),
    decreases a.len() - k,
{
    if k == a.len() {
        assert(a =~= b);
    } else if a[k] < b[k] {
        assert(lex_witness(a, b, k));
    } else if b[k] < a[k] {
        assert(lex_witness(b, a, k));
    } else {
        lemma_lex_total_from(a, b, k + 1);
    }
}

/// Of two exponent vectors of one length, one is smaller or they are equal.
pub proof fn lemma_lex_total(a: Seq<nat>, b: Seq<nat>)
    requires
        a.len() == b.len(),
    ensures
        a == b || lex_less(a, b) || lex_less(b, a),
{
    lemma_lex_total_from(a, b, 0);
}

/// The sum of two exponent vectors: the exponents of a product of monomials.
pub open spec fn vec_add(a: Seq<nat>, b: Seq<nat>) -> Seq<nat> {
    Seq::new(a.len(), |k: int| a[k] + b[k])
}

/// Adding one vector to both sides keeps the order.
pub proof fn lemma_lex_add(a: Seq<nat>, b: Seq<nat>, m: Seq<nat>)
    requires
        lex_less(a, b),
        a.len() == m.len(),
        b.len() == m.len(),
    ensures
        lex_less(vec_add(a, m), vec_add(b, m)),
        lex_less(vec_add(m, a), vec_add(m, b)),
{
    let k = choose|k: int| lex_witness(a, b, k);
    assert(lex_witness(vec_add(a, m), vec_add(b, m), k));
    assert(lex_witness(vec_add(m, a), vec_add(m, b), k));
}

/// A sequence of terms: coefficients with their exponent vectors.
pub type Terms<R> = Seq<(R, Seq<nat>)>;

/// What the term `t` adds to the coefficient of the monomial `e`.
pub open spec fn term_at<R: Ring>(t: (R, Seq<nat>), e: Seq<nat>) -> R {
    if t.1 == e {
        t.0
    } else {
        R::zero_spec()
    }
}

/// The coefficient of the monomial `e` in the polynomial that `ts` stands for.
pub open spec fn coefficient_in<R: Ring>(ts: Terms<R>, e: Seq<nat>) -> R
    decreases ts.len(),
{
    if ts.len() == 0 {
        R::zero_spec()
    } else {
        coefficient_in(ts.drop_last(), e).add_spec(term_at(ts.last(), e))
    }
}

/// Every coefficient is an element of the ring.
pub open spec fn coefficients_wf<R: Ring>(ts: Terms<R>) -> bool {
    forall|i: int| 0 <= i < ts.len() ==> (#[trigger] ts[i]).0.wf()
}

/// The terms are in canonical form for `nvars` variables: every exponent
/// vector has `nvars` entries, no coefficient is zero, and the exponent
/// vectors increase strictly in canonical order.
pub open spec fn canonical<R: Ring>(ts: Terms<R>, nvars: nat) -> bool {
    &&& forall|i: int|
        0 <= i < ts.len() ==> {
            &&& (#[trigger] ts[i]).0.wf()
            &&& ts[i].0 != R::zero_spec()
            &&& ts[i].1.len() == nvars
        }
    &&& forall|i: int, j: int| 0 <= i < j < ts.len() ==> lex_less(#[trigger] ts[i].1, #[trigger] ts[j].1)
}

pub proof fn lemma_coefficient_wf<R: Ring>(ts: Terms<R>, e: Seq<nat>)
    requires
        coefficients_wf(ts),
    ensures
        coefficient_in(ts, e).wf(),
    decreases ts.len(),
{
    R::lemma_constants();
    if ts.len() > 0 {
        lemma_coefficient_wf(ts.drop_last(), e);
        assert(ts.last() == ts[ts.len() - 1]);
        R::lemma_closed(coefficient_in(ts.drop_last(), e), term_at(ts.last(), e));
    }
}

pub proof fn lemma_coefficient_push<R: Ring>(ts: Terms<R>, t: (R, Seq<nat>), e: Seq<nat>)
    ensures
        coefficient_in(ts.push(t), e) == coefficient_in(ts, e).add_spec(term_at(t, e)),
{
    assert(ts.push(t).drop_last() =~= ts);
}

pub proof fn lemma_coefficient_concat<R: Ring>(a: Terms<R>, b: Terms<R>, e: Seq<nat>)
    requires
        coefficients_wf(a),
        coefficients_wf(b),
    ensures
        coefficient_in(a + b, e) == coefficient_in(a, e).add_spec(coefficient_in(b, e)),
    decreases b.len(),
{
    lemma_coefficient_wf(a, e);
    if b.len() == 0 {
        assert(a + b =~= a);
        R::lemma_add_zero(coefficient_in(a, e));
    } else {
        let b0 = b.drop_last();
        assert((a + b).drop_last() =~= a + b0);
        assert((a + b).last() == b.last());
        lemma_coefficient_concat(a, b0, e);
        lemma_coefficient_wf(b0, e);
        assert(b.last() == b[b.len() - 1]);
        R::lemma_constants();
        R::lemma_add_associative(coefficient_in(a, e), coefficient_in(b0, e), term_at(b.last(), e));
    }
}

/// A monomial that no term carries has the coefficient zero.
pub proof fn lemma_coefficient_absent<R: Ring>(ts: Terms<R>, e: Seq<nat>)
    requires
        forall|i: int| 0 <= i < ts.len() ==> (#[trigger] ts[i]).1 != e,
    ensures
        coefficient_in(ts, e) == R::zero_spec(),
    decreases ts.len(),
{
    R::lemma_constants();
    if ts.len() > 0 {
        lemma_coefficient_absent(ts.drop_last(), e);
        assert(ts.last() == ts[ts.len() - 1]);
        R::lemma_add_zero(R::zero_spec());
    }
}

/// A monomial that exactly one term carries has the coefficient of that term.
pub proof fn lemma_coefficient_single<R: Ring>(ts: Terms<R>, i: int, e: Seq<nat>)
    requires
        0 <= i < ts.len(),
        ts[i].0.wf(),
        ts[i].1 == e,
        forall|j: int| 0 <= j < ts.len() && j != i ==> (#[trigger] ts[j]).1 != e,
    ensures
        coefficient_in(ts, e) == ts[i].0,
    decreases ts.len(),
{
    R::lemma_constants();
    let init = ts.drop_last();
    if i == ts.len() - 1 {
        lemma_coefficient_absent(init, e);
        lemma_zero_add(ts[i].0);
    } else {
        lemma_coefficient_single(init, i, e);
        assert(ts.last() == ts[ts.len() - 1]);
        R::lemma_add_zero(ts[i].0);
    }
}

/// In canonical form, the coefficient of the monomial of a term is the
/// coefficient of that term.
pub proof fn lemma_coefficient_of_term<R: Ring>(ts: Terms<R>, nvars: nat, i: int)
    requires
        canonical(ts, nvars),
        0 <= i < ts.len(),
    ensures
        coefficient_in(ts, ts[i].1) == ts[i].0,
{
    assert forall|j: int| 0 <= j < ts.len() && j != i implies (#[trigger] ts[j]).1 != ts[i].1 by {
        if j < i {
            lemma_lex_asymmetric(ts[j].1, ts[i].1);
        } else {
            lemma_lex_asymmetric(ts[i].1, ts[j].1);
        }
    }
    lemma_coefficient_single(ts, i, ts[i].1);
}

/// In canonical form, a monomial with a non-zero coefficient is that of a term.
pub proof fn lemma_coefficient_nonzero<R: Ring>(ts: Terms<R>, e: Seq<nat>) -> (i: int)
    requires
        coefficient_in(ts, e) != R::zero_spec(),
    ensures
        0 <= i < ts.len(),
        ts[i].1 == e,
{
    if forall|j: int| 0 <= j < ts.len() ==> (#[trigger] ts[j]).1 != e {
        lemma_coefficient_absent(ts, e);
    }
    choose|j: int| 0 <= j < ts.len() && (#[trigger] ts[j]).1 == e
}

/// Two term lists in canonical form that give every monomial the same
/// coefficient are the same list.
pub proof fn lemma_canonical_unique<R: Ring>(a: Terms<R>, b: Terms<R>, nvars: nat)
    requires
        canonical(a, nvars),
        canonical(b, nvars),
        forall|e: Seq<nat>| coefficient_in(a, e) == coefficient_in(b, e),
    ensures
        a == b,
    decreases a.len() + b.len(),
{
    if a.len() == 0 && b.len() == 0 {
        assert(a =~= b);
    } else if a.len() == 0 {
        let t = b.last();
        lemma_coefficient_of_term(b, nvars, b.len() - 1);
        assert(coefficient_in(a, t.1) == coefficient_in(b, t.1));
    } else if b.len() == 0 {
        let t = a.last();
        lemma_coefficient_of_term(a, nvars, a.len() - 1);
        assert(coefficient_in(a, t.1) == coefficient_in(b, t.1));
    } else {
        let n = a.len() - 1;
        let m = b.len() - 1;
        let ta = a[n];
        let tb = b[m];
        lemma_coefficient_of_term(a, nvars, n);
        lemma_coefficient_of_term(b, nvars, m);
        assert(coefficient_in(a, ta.1) == coefficient_in(b, ta.1));
        assert(coefficient_in(a, tb.1) == coefficient_in(b, tb.1));
        let j = lemma_coefficient_nonzero(b, ta.1);
        let i = lemma_coefficient_nonzero(a, tb.1);
        // ta.1 == b[j].1 <= tb.1 == a[i].1 <= ta.1
        if j < m {
            if i < n {
                lemma_lex_transitive(b[j].1, b[m].1, a[n].1);
                lemma_lex_irreflexive(ta.1);
            }
            lemma_lex_irreflexive(ta.1);
        }
        assert(j == m);
        assert(ta.1 == tb.1);
        assert(ta.0 == tb.0);
        assert(ta == tb);
        let a0 = a.drop_last();
        let b0 = b.drop_last();
        assert forall|e: Seq<nat>| coefficient_in(a0, e) == coefficient_in(b0, e) by {
            assert(coefficient_in(a, e) == coefficient_in(b, e));
            assert(coefficients_wf(a0));
            assert(coefficients_wf(b0));
            lemma_coefficient_wf(a0, e);
            lemma_coefficient_wf(b0, e);
            R::lemma_constants();
            lemma_add_cancel(coefficient_in(a0, e), coefficient_in(b0, e), term_at(ta, e));
        }
        lemma_canonical_unique(a0, b0, nvars);
        assert(a =~= a0.push(ta));
        assert(b =~= b0.push(tb));
    }
}

/// A term list in canonical form stays so when a term with a larger
/// exponent vector than all its terms is put behind it.
pub proof fn lemma_canonical_push<R: Ring>(ts: Terms<R>, nvars: nat, t: (R, Seq<nat>))
    requires
        canonical(ts, nvars),
        t.0.wf(),
        t.0 != R::zero_spec(),
        t.1.len() == nvars,
        ts.len() > 0 ==> lex_less(ts.last().1, t.1),
    ensures
        canonical(ts.push(t), nvars),
{
    let r = ts.push(t);
    assert forall|i: int, j: int| 0 <= i < j < r.len() implies lex_less(
        #[trigger] r[i].1,
        #[trigger] r[j].1,
    ) by {
        if j == ts.len() {
            if i < ts.len() - 1 {
                assert(lex_less(ts[i].1, ts[ts.len() - 1].1));
                lemma_lex_transitive(ts[i].1, ts.last().1, t.1);
            }
        } else {
            assert(lex_less(ts[i].1, ts[j].1));
        }
    }
}

/// A term list in canonical form stays so when a term is put between the
/// terms with smaller and those with larger exponent vectors.
pub proof fn lemma_canonical_insert<R: Ring>(ts: Terms<R>, nvars: nat, pos: int, t: (R, Seq<nat>))
    requires
        canonical(ts, nvars),
        0 <= pos <= ts.len(),
        t.0.wf(),
        t.0 != R::zero_spec(),
        t.1.len() == nvars,
        forall|i: int| 0 <= i < pos ==> lex_less((#[trigger] ts[i]).1, t.1),
        forall|i: int| pos <= i < ts.len() ==> lex_less(t.1, (#[trigger] ts[i]).1),
    ensures
        canonical(ts.insert(pos, t), nvars),
{
    let r = ts.insert(pos, t);
    assert forall|i: int, j: int| 0 <= i < j < r.len() implies lex_less(
        #[trigger] r[i].1,
        #[trigger] r[j].1,
    ) by {
        let oi = if i < pos { i } else { i - 1 };
        let oj = if j < pos { j } else { j - 1 };
        if i == pos {
            assert(r[j] == ts[oj]);
        } else if j == pos {
            assert(r[i] == ts[oi]);
        } else {
            assert(r[i] == ts[oi]);
            assert(r[j] == ts[oj]);
            assert(lex_less(ts[oi].1, ts[oj].1));
        }
    }
    assert forall|i: int| 0 <= i < r.len() implies {
        &&& (#[trigger] r[i]).0.wf()
        &&& r[i].0 != R::zero_spec()
        &&& r[i].1.len() == nvars
    } by {
        if i != pos {
            let oi = if i < pos { i } else { i - 1 };
            assert(r[i] == ts[oi]);
        }
    }
}

/// A term list in canonical form stays so when a term is taken out.
pub proof fn lemma_canonical_remove<R: Ring>(ts: Terms<R>, nvars: nat, pos: int)
    requires
        canonical(ts, nvars),
        0 <= pos < ts.len(),
    ensures
        canonical(ts.remove(pos), nvars),
{
    let r = ts.remove(pos);
    assert forall|i: int, j: int| 0 <= i < j < r.len() implies lex_less(
        #[trigger] r[i].1,
        #[trigger] r[j].1,
    ) by {
        let oi = if i < pos { i } else { i + 1 };
        let oj = if j < pos { j } else { j + 1 };
        assert(r[i] == ts[oi]);
        assert(r[j] == ts[oj]);
        assert(lex_less(ts[oi].1, ts[oj].1));
    }
    assert forall|i: int| 0 <= i < r.len() implies {
        &&& (#[trigger] r[i]).0.wf()
        &&& r[i].0 != R::zero_spec()
        &&& r[i].1.len() == nvars
    } by {
        let oi = if i < pos { i } else { i + 1 };
        assert(r[i] == ts[oi]);
    }
}

/// A term list in canonical form stays so when a coefficient is replaced by
/// another that is not zero.
pub proof fn lemma_canonical_update<R: Ring>(ts: Terms<R>, nvars: nat, pos: int, c: R)
    requires
        canonical(ts, nvars),
        0 <= pos < ts.len(),
        c.wf(),
        c != R::zero_spec(),
    ensures
        canonical(ts.update(pos, (c, ts[pos].1)), nvars),
{
    let r = ts.update(pos, (c, ts[pos].1));
    assert forall|i: int, j: int| 0 <= i < j < r.len() implies lex_less(
        #[trigger] r[i].1,
        #[trigger] r[j].1,
    ) by {
        assert(r[i].1 == ts[i].1);
        assert(r[j].1 == ts[j].1);
        assert(lex_less(ts[i].1, ts[j].1));
    }
    assert forall|i: int| 0 <= i < r.len() implies {
        &&& (#[trigger] r[i]).0.wf()
        &&& r[i].0 != R::zero_spec()
        &&& r[i].1.len() == nvars
    } by {
        if i != pos {
            assert(r[i] == ts[i]);
        }
    }
}

/// Every prefix and suffix of a list of ring elements is one.
pub proof fn lemma_coefficients_wf_parts<R: Ring>(ts: Terms<R>, pos: int)
    requires
        coefficients_wf(ts),
        0 <= pos <= ts.len(),
    ensures
        coefficients_wf(ts.subrange(0, pos)),
        coefficients_wf(ts.subrange(pos, ts.len() as int)),
{
    let a = ts.subrange(0, pos);
    let b = ts.subrange(pos, ts.len() as int);
    assert forall|i: int| 0 <= i < a.len() implies (#[trigger] a[i]).0.wf() by {
        assert(a[i] == ts[i]);
    }
    assert forall|i: int| 0 <= i < b.len() implies (#[trigger] b[i]).0.wf() by {
        assert(b[i] == ts[pos + i]);
    }
}

/// A term that is put into the list adds its coefficient to its monomial.
pub proof fn lemma_coefficient_insert<R: Ring>(
    ts: Terms<R>,
    pos: int,
    t: (R, Seq<nat>),
    e: Seq<nat>,
)
    requires
        coefficients_wf(ts),
        t.0.wf(),
        0 <= pos <= ts.len(),
    ensures
        coefficient_in(ts.insert(pos, t), e) == coefficient_in(ts, e).add_spec(term_at(t, e)),
{
    R::lemma_constants();
    let a = ts.subrange(0, pos);
    let b = ts.subrange(pos, ts.len() as int);
    lemma_coefficients_wf_parts(ts, pos);
    assert(ts =~= a + b);
    assert(ts.insert(pos, t) =~= a.push(t) + b);
    assert(coefficients_wf(a.push(t))) by {
        assert forall|i: int| 0 <= i < a.push(t).len() implies (#[trigger] a.push(t)[i]).0.wf() by {
            if i < a.len() {
                assert(a.push(t)[i] == a[i]);
            }
        }
    }
    lemma_coefficient_concat(a, b, e);
    lemma_coefficient_concat(a.push(t), b, e);
    lemma_coefficient_push(a, t, e);
    lemma_coefficient_wf(a, e);
    lemma_coefficient_wf(b, e);
    lemma_add_swap(coefficient_in(a, e), term_at(t, e), coefficient_in(b, e));
}

/// The coefficient of a monomial before a term was taken out of the list is
/// the one after it, plus what the term added.
pub proof fn lemma_coefficient_remove<R: Ring>(ts: Terms<R>, pos: int, e: Seq<nat>)
    requires
        coefficients_wf(ts),
        0 <= pos < ts.len(),
    ensures
        coefficient_in(ts, e) == coefficient_in(ts.remove(pos), e).add_spec(term_at(ts[pos], e)),
{
    let r = ts.remove(pos);
    assert(coefficients_wf(r)) by {
        assert forall|i: int| 0 <= i < r.len() implies (#[trigger] r[i]).0.wf() by {
            let oi = if i < pos { i } else { i + 1 };
            assert(r[i] == ts[oi]);
        }
    }
    assert(r.insert(pos, ts[pos]) =~= ts);
    lemma_coefficient_insert(r, pos, ts[pos], e);
}

/// `r` stands for the polynomial of `a` plus the term `t`.
pub open spec fn is_sum_with_term<R: Ring>(r: Terms<R>, a: Terms<R>, t: (R, Seq<nat>)) -> bool {
    forall|e: Seq<nat>| #[trigger] coefficient_in(r, e) == coefficient_in(a, e).add_spec(term_at(t, e))
}

/// Adding `c` to the coefficient of term `pos`, or taking the term out where
/// the sum is zero, adds the term `(c, ts[pos].1)` to the polynomial.
pub proof fn lemma_coefficient_merge<R: Ring>(ts: Terms<R>, pos: int, c: R)
    requires
        coefficients_wf(ts),
        c.wf(),
        0 <= pos < ts.len(),
    ensures
        is_sum_with_term(
            ts.update(pos, (ts[pos].0.add_spec(c), ts[pos].1)),
            ts,
            (c, ts[pos].1),
        ),
        ts[pos].0.add_spec(c) == R::zero_spec() ==> is_sum_with_term(
            ts.remove(pos),
            ts,
            (c, ts[pos].1),
        ),
{
    R::lemma_constants();
    let old_c = ts[pos].0;
    let sum = old_c.add_spec(c);
    R::lemma_closed(old_c, c);
    let rem = ts.remove(pos);
    let upd = ts.update(pos, (sum, ts[pos].1));
    assert(coefficients_wf(rem)) by {
        assert forall|i: int| 0 <= i < rem.len() implies (#[trigger] rem[i]).0.wf() by {
            let oi = if i < pos { i } else { i + 1 };
            assert(rem[i] == ts[oi]);
        }
    }
    assert(rem.insert(pos, (sum, ts[pos].1)) =~= upd);
    assert forall|e: Seq<nat>| #[trigger]
        coefficient_in(upd, e) == coefficient_in(ts, e).add_spec(term_at((c, ts[pos].1), e)) by {
        lemma_coefficient_remove(ts, pos, e);
        lemma_coefficient_insert(rem, pos, (sum, ts[pos].1), e);
        lemma_coefficient_wf(rem, e);
        let x = coefficient_in(rem, e);
        if ts[pos].1 == e {
            R::lemma_add_associative(x, old_c, c);
        } else {
            R::lemma_add_zero(x);
        }
    }
    if sum == R::zero_spec() {
        assert forall|e: Seq<nat>| #[trigger]
            coefficient_in(rem, e) == coefficient_in(ts, e).add_spec(term_at((c, ts[pos].1), e)) by {
            lemma_coefficient_remove(ts, pos, e);
            lemma_coefficient_wf(rem, e);
            let x = coefficient_in(rem, e);
            R::lemma_add_zero(x);
            if ts[pos].1 == e {
                R::lemma_add_associative(x, old_c, c);
            }
        }
    }
}

/// A list of ring elements stays one when a ring element is put into it.
pub proof fn lemma_coefficients_wf_push<R: Ring>(ts: Terms<R>, t: (R, Seq<nat>))
    requires
        coefficients_wf(ts),
        t.0.wf(),
    ensures
        coefficients_wf(ts.push(t)),
{
    assert forall|i: int| 0 <= i < ts.push(t).len() implies (#[trigger] ts.push(t)[i]).0.wf() by {
        if i < ts.len() {
            assert(ts.push(t)[i] == ts[i]);
        }
    }
}

/// `r` stands for the sum of the polynomials of `a` and `b`.
pub open spec fn is_sum<R: Ring>(r: Terms<R>, a: Terms<R>, b: Terms<R>) -> bool {
    forall|e: Seq<nat>| #[trigger]
        coefficient_in(r, e) == coefficient_in(a, e).add_spec(coefficient_in(b, e))
}

/// The terms of `ts` with their coefficients negated.
pub open spec fn negated<R: Ring>(ts: Terms<R>) -> Terms<R> {
    Seq::new(ts.len(), |i: int| (ts[i].0.neg_spec(), ts[i].1))
}

/// The terms of `ts`, each multiplied by the term `t`: coefficient times
/// coefficient, exponent vector plus exponent vector.
pub open spec fn shifted<R: Ring>(ts: Terms<R>, t: (R, Seq<nat>)) -> Terms<R> {
    Seq::new(ts.len(), |i: int| (ts[i].0.mul_spec(t.0), vec_add(ts[i].1, t.1)))
}

/// The coefficient of the monomial `e` in the product of the polynomials of
/// `a` and `b`: the sum, over the terms of `b`, of what `a` times that term
/// gives to `e`.
pub open spec fn product_coefficient<R: Ring>(a: Terms<R>, b: Terms<R>, e: Seq<nat>) -> R
    decreases b.len(),
{
    if b.len() == 0 {
        R::zero_spec()
    } else {
        product_coefficient(a, b.drop_last(), e).add_spec(coefficient_in(shifted(a, b.last()), e))
    }
}

/// `r` stands for the product of the polynomials of `a` and `b`.
pub open spec fn is_product<R: Ring>(r: Terms<R>, a: Terms<R>, b: Terms<R>) -> bool {
    forall|e: Seq<nat>| #[trigger] coefficient_in(r, e) == product_coefficient(a, b, e)
}

/// The empty term list is the sum of two empty lists.
pub proof fn lemma_merge_start<R: Ring>()
    ensures
        is_sum(Terms::<R>::empty(), Terms::<R>::empty(), Terms::<R>::empty()),
{
    R::lemma_constants();
    R::lemma_add_zero(R::zero_spec());
}

/// One more term of the left operand goes to the sum.
pub proof fn lemma_merge_left<R: Ring>(out: Terms<R>, a: Terms<R>, b: Terms<R>, x: (R, Seq<nat>))
    requires
        is_sum(out, a, b),
        coefficients_wf(a),
        coefficients_wf(b),
        x.0.wf(),
    ensures
        is_sum(out.push(x), a.push(x), b),
{
    R::lemma_constants();
    assert forall|e: Seq<nat>| #[trigger]
        coefficient_in(out.push(x), e) == coefficient_in(a.push(x), e).add_spec(
            coefficient_in(b, e),
        ) by {
        lemma_coefficient_push(out, x, e);
        lemma_coefficient_push(a, x, e);
        lemma_coefficient_wf(a, e);
        lemma_coefficient_wf(b, e);
        assert(coefficient_in(out, e) == coefficient_in(a, e).add_spec(coefficient_in(b, e)));
        lemma_add_swap(coefficient_in(a, e), coefficient_in(b, e), term_at(x, e));
    }
}

/// One more term of the right operand goes to the sum.
pub proof fn lemma_merge_right<R: Ring>(out: Terms<R>, a: Terms<R>, b: Terms<R>, y: (R, Seq<nat>))
    requires
        is_sum(out, a, b),
        coefficients_wf(a),
        coefficients_wf(b),
        y.0.wf(),
    ensures
        is_sum(out.push(y), a, b.push(y)),
{
    R::lemma_constants();
    assert forall|e: Seq<nat>| #[trigger]
        coefficient_in(out.push(y), e) == coefficient_in(a, e).add_spec(
            coefficient_in(b.push(y), e),
        ) by {
        lemma_coefficient_push(out, y, e);
        lemma_coefficient_push(b, y, e);
        lemma_coefficient_wf(a, e);
        lemma_coefficient_wf(b, e);
        assert(coefficient_in(out, e) == coefficient_in(a, e).add_spec(coefficient_in(b, e)));
        R::lemma_add_associative(coefficient_in(a, e), coefficient_in(b, e), term_at(y, e));
    }
}

/// Two terms with one exponent vector, one of each operand, go to the sum as
/// one term, or as none where their coefficients cancel.
pub proof fn lemma_merge_both<R: Ring>(
    out: Terms<R>,
    a: Terms<R>,
    b: Terms<R>,
    x: (R, Seq<nat>),
    y: (R, Seq<nat>),
)
    requires
        is_sum(out, a, b),
        coefficients_wf(a),
        coefficients_wf(b),
        x.0.wf(),
        y.0.wf(),
        x.1 == y.1,
    ensures
        is_sum(out.push((x.0.add_spec(y.0), x.1)), a.push(x), b.push(y)),
        x.0.add_spec(y.0) == R::zero_spec() ==> is_sum(out, a.push(x), b.push(y)),
{
    R::lemma_constants();
    let s = (x.0.add_spec(y.0), x.1);
    R::lemma_closed(x.0, y.0);
    assert forall|e: Seq<nat>| #[trigger]
        coefficient_in(out.push(s), e) == coefficient_in(a.push(x), e).add_spec(
            coefficient_in(b.push(y), e),
        ) by {
        lemma_coefficient_push(out, s, e);
        lemma_coefficient_push(a, x, e);
        lemma_coefficient_push(b, y, e);
        lemma_coefficient_wf(a, e);
        lemma_coefficient_wf(b, e);
        assert(coefficient_in(out, e) == coefficient_in(a, e).add_spec(coefficient_in(b, e)));
        lemma_add_interchange(
            coefficient_in(a, e),
            coefficient_in(b, e),
            term_at(x, e),
            term_at(y, e),
        );
        if x.1 != e {
            R::lemma_add_zero(R::zero_spec());
        }
    }
    if x.0.add_spec(y.0) == R::zero_spec() {
        assert forall|e: Seq<nat>| #[trigger]
            coefficient_in(out, e) == coefficient_in(a.push(x), e).add_spec(
                coefficient_in(b.push(y), e),
            ) by {
            lemma_coefficient_push(out, s, e);
            assert(coefficient_in(out.push(s), e) == coefficient_in(a.push(x), e).add_spec(
                coefficient_in(b.push(y), e),
            ));
            lemma_coefficient_wf(a, e);
            lemma_coefficient_wf(b, e);
            R::lemma_closed(coefficient_in(a, e), coefficient_in(b, e));
            R::lemma_add_zero(coefficient_in(out, e));
        }
    }
}

/// The coefficients of the negated terms are the negated coefficients.
pub proof fn lemma_coefficient_negated<R: Ring>(ts: Terms<R>, e: Seq<nat>)
    requires
        coefficients_wf(ts),
    ensures
        coefficient_in(negated(ts), e) == coefficient_in(ts, e).neg_spec(),
        coefficients_wf(negated(ts)),
    decreases ts.len(),
{
    R::lemma_constants();
    assert forall|i: int| 0 <= i < ts.len() implies (#[trigger] negated(ts)[i]).0.wf() by {
        R::lemma_closed(ts[i].0, ts[i].0);
    }
    if ts.len() == 0 {
        lemma_neg_zero::<R>();
    } else {
        let init = ts.drop_last();
        lemma_coefficient_negated(init, e);
        assert(negated(ts).drop_last() =~= negated(init));
        assert(ts.last() == ts[ts.len() - 1]);
        lemma_coefficient_wf(init, e);
        lemma_neg_add(coefficient_in(init, e), term_at(ts.last(), e));
        lemma_neg_zero::<R>();
    }
}

/// Negation keeps the canonical form.
pub proof fn lemma_canonical_negated<R: Ring>(ts: Terms<R>, nvars: nat)
    requires
        canonical(ts, nvars),
    ensures
        canonical(negated(ts), nvars),
{
    let r = negated(ts);
    assert forall|i: int| 0 <= i < r.len() implies {
        &&& (#[trigger] r[i]).0.wf()
        &&& r[i].0 != R::zero_spec()
        &&& r[i].1.len() == nvars
    } by {
        R::lemma_closed(ts[i].0, ts[i].0);
        lemma_neg_neg(ts[i].0);
        lemma_neg_zero::<R>();
    }
    assert forall|i: int, j: int| 0 <= i < j < r.len() implies lex_less(
        #[trigger] r[i].1,
        #[trigger] r[j].1,
    ) by {
        assert(lex_less(ts[i].1, ts[j].1));
    }
}

/// `r` stands for the polynomial of `a` with every coefficient multiplied
/// by `c`.
pub open spec fn is_scaled<R: Ring>(r: Terms<R>, a: Terms<R>, c: R) -> bool {
    forall|e: Seq<nat>| #[trigger] coefficient_in(r, e) == coefficient_in(a, e).mul_spec(c)
}

/// `r` stands for the polynomial of `a` times the term `t`.
pub open spec fn is_shifted<R: Ring>(r: Terms<R>, a: Terms<R>, t: (R, Seq<nat>)) -> bool {
    forall|e: Seq<nat>| #[trigger] coefficient_in(r, e) == coefficient_in(shifted(a, t), e)
}

/// Some exponent of some term of `a`, added to the exponent of `m` for the
/// same variable, exceeds `max`.
pub open spec fn shift_overflows<R: Ring>(a: Terms<R>, m: Seq<nat>, max: nat) -> bool {
    exists|i: int, k: int|
        0 <= i < a.len() && 0 <= k < m.len() && (#[trigger] a[i].1[k]) + m[k] > max
}

/// Some exponent of some term of `a`, added to the exponent of some term of
/// `b` for the same variable, exceeds `max`.
pub open spec fn product_overflows<R: Ring>(a: Terms<R>, b: Terms<R>, max: nat) -> bool {
    exists|j: int| 0 <= j < b.len() && shift_overflows(a, (#[trigger] b[j]).1, max)
}

/// A prefix of a term list, one term longer.
pub proof fn lemma_prefix_step<R: Ring>(ts: Terms<R>, i: int)
    requires
        0 <= i < ts.len(),
    ensures
        ts.subrange(0, i + 1) == ts.subrange(0, i).push(ts[i]),
{
    assert(ts.subrange(0, i + 1) =~= ts.subrange(0, i).push(ts[i]));
}

/// The shortest and the longest prefix of a term list.
pub proof fn lemma_prefix_whole<R: Ring>(ts: Terms<R>)
    ensures
        ts.subrange(0, ts.len() as int) == ts,
        ts.subrange(0, 0) == Terms::<R>::empty(),
{
    assert(ts.subrange(0, ts.len() as int) =~= ts);
    assert(ts.subrange(0, 0) =~= Terms::<R>::empty());
}

/// One more term of the operand, multiplied by `c`, goes to the scaled
/// polynomial, or none where the product is zero.
pub proof fn lemma_scale_step<R: Ring>(out: Terms<R>, a: Terms<R>, c: R, x: (R, Seq<nat>))
    requires
        is_scaled(out, a, c),
        coefficients_wf(a),
        c.wf(),
        x.0.wf(),
    ensures
        is_scaled(out.push((x.0.mul_spec(c), x.1)), a.push(x), c),
        x.0.mul_spec(c) == R::zero_spec() ==> is_scaled(out, a.push(x), c),
{
    R::lemma_constants();
    let p = (x.0.mul_spec(c), x.1);
    assert forall|e: Seq<nat>| #[trigger]
        coefficient_in(out.push(p), e) == coefficient_in(a.push(x), e).mul_spec(c) by {
        lemma_coefficient_push(out, p, e);
        lemma_coefficient_push(a, x, e);
        lemma_coefficient_wf(a, e);
        let s = coefficient_in(a, e);
        let t = term_at(x, e);
        assert(coefficient_in(out, e) == s.mul_spec(c));
        R::lemma_closed(s, t);
        R::lemma_mul_commutative(s.add_spec(t), c);
        R::lemma_distributive(c, s, t);
        R::lemma_mul_commutative(s, c);
        R::lemma_mul_commutative(t, c);
        lemma_mul_zero(c);
    }
    if x.0.mul_spec(c) == R::zero_spec() {
        assert forall|e: Seq<nat>| #[trigger]
            coefficient_in(out, e) == coefficient_in(a.push(x), e).mul_spec(c) by {
            lemma_coefficient_push(out, p, e);
            assert(coefficient_in(out.push(p), e) == coefficient_in(a.push(x), e).mul_spec(c));
            lemma_coefficient_wf(a, e);
            R::lemma_closed(coefficient_in(a, e), c);
            assert(coefficient_in(out, e) == coefficient_in(a, e).mul_spec(c));
            R::lemma_add_zero(coefficient_in(out, e));
        }
    }
}

/// One more term of the operand, multiplied by the term `t`, goes to the
/// shifted polynomial, or none where the product of the coefficients is zero.
pub proof fn lemma_shift_step<R: Ring>(
    out: Terms<R>,
    a: Terms<R>,
    t: (R, Seq<nat>),
    x: (R, Seq<nat>),
)
    requires
        is_shifted(out, a, t),
        coefficients_wf(a),
        t.0.wf(),
        x.0.wf(),
    ensures
        is_shifted(out.push((x.0.mul_spec(t.0), vec_add(x.1, t.1))), a.push(x), t),
        x.0.mul_spec(t.0) == R::zero_spec() ==> is_shifted(out, a.push(x), t),
{
    R::lemma_constants();
    let p = (x.0.mul_spec(t.0), vec_add(x.1, t.1));
    assert(shifted(a.push(x), t) =~= shifted(a, t).push(p));
    assert forall|e: Seq<nat>| #[trigger]
        coefficient_in(out.push(p), e) == coefficient_in(shifted(a.push(x), t), e) by {
        lemma_coefficient_push(out, p, e);
        lemma_coefficient_push(shifted(a, t), p, e);
        assert(coefficient_in(out, e) == coefficient_in(shifted(a, t), e));
    }
    if x.0.mul_spec(t.0) == R::zero_spec() {
        assert forall|e: Seq<nat>| #[trigger]
            coefficient_in(out, e) == coefficient_in(shifted(a.push(x), t), e) by {
            lemma_coefficient_push(shifted(a, t), p, e);
            assert(coefficient_in(out, e) == coefficient_in(shifted(a, t), e));
            lemma_shifted_wf(a, t);
            lemma_coefficient_wf(shifted(a, t), e);
            R::lemma_add_zero(coefficient_in(out, e));
        }
    }
}

/// The products of ring elements are ring elements.
pub proof fn lemma_shifted_wf<R: Ring>(a: Terms<R>, t: (R, Seq<nat>))
    requires
        coefficients_wf(a),
        t.0.wf(),
    ensures
        coefficients_wf(shifted(a, t)),
{
    assert forall|i: int| 0 <= i < a.len() implies (#[trigger] shifted(a, t)[i]).0.wf() by {
        R::lemma_closed(a[i].0, t.0);
    }
}

/// Canonical form implies that the coefficients are ring elements.
pub proof fn lemma_canonical_wf<R: Ring>(ts: Terms<R>, nvars: nat)
    requires
        canonical(ts, nvars),
    ensures
        coefficients_wf(ts),
        forall|i: int| 0 <= i <= ts.len() ==> coefficients_wf(#[trigger] ts.subrange(0, i)),
{
    assert forall|i: int| 0 <= i <= ts.len() implies coefficients_wf(
        #[trigger] ts.subrange(0, i),
    ) by {
        lemma_coefficients_wf_parts(ts, i);
    }
}

/// `r` stands for the same polynomial as `ts`: both give every monomial the
/// same coefficient. In canonical form there is one such `r`.
pub open spec fn stands_for<R: Ring>(r: Terms<R>, ts: Terms<R>) -> bool {
    forall|e: Seq<nat>| #[trigger] coefficient_in(r, e) == coefficient_in(ts, e)
}

/// A term that is added to the polynomial goes behind the terms that it
/// stands for.
pub proof fn lemma_stands_for_step<R: Ring>(
    before: Terms<R>,
    after: Terms<R>,
    ts: Terms<R>,
    t: (R, Seq<nat>),
)
    requires
        stands_for(before, ts),
        is_sum_with_term(after, before, t),
    ensures
        stands_for(after, ts.push(t)),
{
    assert forall|e: Seq<nat>| #[trigger] coefficient_in(after, e) == coefficient_in(
        ts.push(t),
        e,
    ) by {
        lemma_coefficient_push(ts, t, e);
        assert(coefficient_in(before, e) == coefficient_in(ts, e));
    }
}

/// The terms of `ts` whose exponent vectors `keep` holds of, in their
/// order, each with its exponent vector changed by `f`.
pub open spec fn select_map<R: Ring>(
    ts: Terms<R>,
    keep: spec_fn(Seq<nat>) -> bool,
    f: spec_fn(Seq<nat>) -> Seq<nat>,
) -> Terms<R>
    decreases ts.len(),
{
    if ts.len() == 0 {
        Terms::<R>::empty()
    } else if keep(ts.last().1) {
        select_map(ts.drop_last(), keep, f).push((ts.last().0, f(ts.last().1)))
    } else {
        select_map(ts.drop_last(), keep, f)
    }
}

/// What one more term adds to a selection.
pub proof fn lemma_select_step<R: Ring>(
    ts: Terms<R>,
    i: int,
    keep: spec_fn(Seq<nat>) -> bool,
    f: spec_fn(Seq<nat>) -> Seq<nat>,
)
    requires
        0 <= i < ts.len(),
    ensures
        select_map(ts.subrange(0, i + 1), keep, f) == (if keep(ts[i].1) {
            select_map(ts.subrange(0, i), keep, f).push((ts[i].0, f(ts[i].1)))
        } else {
            select_map(ts.subrange(0, i), keep, f)
        }),
{
    let a = ts.subrange(0, i + 1);
    assert(a.drop_last() =~= ts.subrange(0, i));
    assert(a.last() == ts[i]);
}

/// Where `keep` holds of no exponent vector of the first `n` terms, they give
/// no terms to a selection.
pub proof fn lemma_select_none<R: Ring>(
    ts: Terms<R>,
    n: int,
    keep: spec_fn(Seq<nat>) -> bool,
    f: spec_fn(Seq<nat>) -> Seq<nat>,
)
    requires
        0 <= n <= ts.len(),
        forall|i: int| 0 <= i < n ==> !keep((#[trigger] ts[i]).1),
    ensures
        select_map(ts.subrange(0, n), keep, f) == Terms::<R>::empty(),
    decreases n,
{
    if n > 0 {
        lemma_select_none(ts, n - 1, keep, f);
        lemma_select_step(ts, n - 1, keep, f);
    } else {
        assert(ts.subrange(0, 0).len() == 0);
    }
}

/// Where the terms with the exponent vector `e` are those that are
/// selected and get the exponent vector `f(e)`, the selection gives `f(e)`
/// the coefficient that the terms give `e`.
pub proof fn lemma_select_coefficient<R: Ring>(
    ts: Terms<R>,
    e: Seq<nat>,
    keep: spec_fn(Seq<nat>) -> bool,
    f: spec_fn(Seq<nat>) -> Seq<nat>,
)
    requires
        coefficients_wf(ts),
        forall|i: int|
            0 <= i < ts.len() ==> (((#[trigger] ts[i]).1 == e) <==> (keep(ts[i].1) && f(ts[i].1)
                == f(e))),
    ensures
        coefficient_in(select_map(ts, keep, f), f(e)) == coefficient_in(ts, e),
    decreases ts.len(),
{
    if ts.len() > 0 {
        let init = ts.drop_last();
        let x = ts.last();
        assert(x == ts[ts.len() - 1]);
        lemma_coefficients_wf_parts(ts, ts.len() - 1);
        assert(init =~= ts.subrange(0, ts.len() - 1));
        assert forall|i: int| 0 <= i < init.len() implies (((#[trigger] init[i]).1 == e) <==> (
        keep(init[i].1) && f(init[i].1) == f(e))) by {
            assert(init[i] == ts[i]);
        }
        lemma_select_coefficient(init, e, keep, f);
        if keep(x.1) {
            lemma_coefficient_push(select_map(init, keep, f), (x.0, f(x.1)), f(e));
        } else {
            lemma_coefficient_wf(init, e);
            R::lemma_add_zero(coefficient_in(init, e));
        }
    }
}

} // verus!
