//! The mathematics of division with remainder on term lists.

use vstd::prelude::*;
use crate::poly::raw::laws::lemma_product_wf;
use crate::poly::raw::monomial::{divisible, term_product, term_quotient, vec_sub};
use crate::poly::raw::terms::{
    canonical, coefficient_in, coefficients_wf, is_shifted, is_sum, is_sum_with_term, negated,
    stands_for, lemma_canonical_wf, lemma_coefficient_absent, lemma_coefficient_concat,
    lemma_coefficient_negated, lemma_coefficient_of_term, lemma_lex_add, lemma_lex_irreflexive,
    lemma_coefficient_push, lemma_coefficient_wf, lemma_coefficients_wf_parts,
    lemma_coefficients_wf_push, lemma_lex_asymmetric, lemma_lex_total, lemma_lex_transitive,
    lemma_shifted_wf, lex_less, lex_witness, product_coefficient, shifted, term_at, vec_add, Terms,
};
use crate::poly::ring::{
    lemma_add_interchange, lemma_add_swap, lemma_mul_zero, lemma_neg_add, lemma_zero_add, Ring,
};

verus! {

/// `q * b + r == a`.
pub open spec fn is_division<R: Ring>(q: Terms<R>, r: Terms<R>, a: Terms<R>, b: Terms<R>) -> bool {
    forall|e: Seq<nat>| #[trigger]
        coefficient_in(a, e) == product_coefficient(q, b, e).add_spec(coefficient_in(r, e))
}

/// No term of `r` can be divided by the term `d`.
pub open spec fn irreducible<R: Ring>(r: Terms<R>, d: (R, Seq<nat>)) -> bool {
    forall|i: int| 0 <= i < r.len() ==> !divisible(#[trigger] r[i], d)
}

/// No product of a term of the quotient `q` with the term `d` lies above the
/// exponents `top` in the order of the terms.
pub open spec fn quotient_bounded<R: Ring>(q: Terms<R>, d: (R, Seq<nat>), top: Seq<nat>) -> bool {
    forall|j: int| 0 <= j < q.len() ==> !lex_less(top, vec_add((#[trigger] q[j]).1, d.1))
}

/// No term of `r` lies above the exponents `top` in the order of the terms.
pub open spec fn terms_bounded<R: Ring>(r: Terms<R>, top: Seq<nat>) -> bool {
    forall|j: int| 0 <= j < r.len() ==> !lex_less(top, (#[trigger] r[j]).1)
}

/// Every term of `r` is a term of `a`.
pub open spec fn terms_among<R: Ring>(r: Terms<R>, a: Terms<R>) -> bool {
    forall|k: int| 0 <= k < r.len() ==> exists|i: int| 0 <= i < a.len() && a[i] == #[trigger] r[k]
}

/// The last term has the largest exponent of every variable.
pub open spec fn is_dominated<R: Ring>(ts: Terms<R>) -> bool {
    forall|i: int, k: int|
        0 <= i < ts.len() && 0 <= k < ts.last().1.len() ==> (#[trigger] ts[i].1[k])
            <= ts.last().1[k]
}

/// In canonical form, the last term of a polynomial in at most one variable
/// has the largest exponent.
pub proof fn lemma_univariate_dominated<R: Ring>(ts: Terms<R>, nvars: nat)
    requires
        canonical(ts, nvars),
        nvars <= 1,
    ensures
        is_dominated(ts),
{
    assert forall|i: int, k: int|
        0 <= i < ts.len() && 0 <= k < ts.last().1.len() implies (#[trigger] ts[i].1[k])
        <= ts.last().1[k] by {
        assert(ts.last() == ts[ts.len() - 1]);
        if i < ts.len() - 1 {
            assert(lex_less(ts[i].1, ts[ts.len() - 1].1));
            let w = choose|w: int| lex_witness(ts[i].1, ts.last().1, w);
        }
    }
}

/// Canonical form read from the back: the exponent vectors decrease strictly.
pub open spec fn descending<R: Ring>(ts: Terms<R>, nvars: nat) -> bool {
    &&& forall|i: int|
        0 <= i < ts.len() ==> {
            &&& (#[trigger] ts[i]).0.wf()
            &&& ts[i].0 != R::zero_spec()
            &&& ts[i].1.len() == nvars
        }
    &&& forall|i: int, j: int| 0 <= i < j < ts.len() ==> lex_less(#[trigger] ts[j].1, #[trigger] ts[i].1)
}

/// The place of an exponent vector with entries up to `m` among all such
/// vectors in canonical order.
pub open spec fn rank(e: Seq<nat>, m: nat) -> nat
    decreases e.len(),
{
    if e.len() == 0 {
        0
    } else {
        rank(e.drop_last(), m) * (m + 1) + e.last()
    }
}

/// One more than the rank of the last exponent vector; zero for no terms.
pub open spec fn top_rank<R: Ring>(ts: Terms<R>, m: nat) -> nat {
    if ts.len() == 0 {
        0
    } else {
        rank(ts.last().1, m) + 1
    }
}

/// One more than the rank of the first exponent vector; zero for no terms.
pub open spec fn root_rank<R: Ring>(ts: Terms<R>, m: nat) -> nat {
    if ts.len() == 0 {
        0
    } else {
        rank(ts[0].1, m) + 1
    }
}

/// A smaller exponent vector has a smaller rank.
pub proof fn lemma_rank_less(a: Seq<nat>, b: Seq<nat>, m: nat)
    requires
        a.len() == b.len(),
        lex_less(a, b),
        forall|k: int| 0 <= k < a.len() ==> a[k] <= m,
        forall|k: int| 0 <= k < b.len() ==> b[k] <= m,
    ensures
        rank(a, m) < rank(b, m),
    decreases a.len(),
{
    let k = choose|k: int| lex_witness(a, b, k);
    let a0 = a.drop_last();
    let b0 = b.drop_last();
    if k == a.len() - 1 {
        assert(a0 =~= b0);
    } else {
        assert(lex_witness(a0, b0, k));
        lemma_rank_less(a0, b0, m);
        let ra = rank(a0, m) as int;
        let rb = rank(b0, m) as int;
        let al = a.last() as int;
        assert(ra * (m + 1) + al < rb * (m + 1)) by (nonlinear_arith)
            requires
                0 <= ra < rb,
                0 <= al <= m,
        {}
    }
}

/// Where two sums with one second summand stand in order, their first
/// summands stand in the same order.
pub proof fn lemma_lex_add_cancel(a: Seq<nat>, b: Seq<nat>, m: Seq<nat>)
    requires
        a.len() == m.len(),
        b.len() == m.len(),
        lex_less(vec_add(a, m), vec_add(b, m)),
    ensures
        lex_less(a, b),
{
    let k = choose|k: int| lex_witness(vec_add(a, m), vec_add(b, m), k);
    assert forall|j: int| 0 <= j < k implies a[j] == b[j] by {
        assert(vec_add(a, m)[j] == vec_add(b, m)[j]);
    }
    assert(lex_witness(a, b, k));
}

/// A difference, added to what was subtracted, is what it was taken from.
pub proof fn lemma_vec_sub_add(a: Seq<nat>, m: Seq<nat>)
    requires
        a.len() == m.len(),
        forall|k: int| 0 <= k < m.len() ==> a[k] >= m[k],
    ensures
        vec_add(vec_sub(a, m), m) == a,
        vec_add(m, vec_sub(a, m)) == a,
{
    assert(vec_add(vec_sub(a, m), m) =~= a);
    assert(vec_add(m, vec_sub(a, m)) =~= a);
}

/// `a <= b` and `b <= c` give `a <= c`, for exponent vectors of one length.
pub proof fn lemma_le_transitive(a: Seq<nat>, b: Seq<nat>, c: Seq<nat>)
    requires
        a.len() == b.len(),
        b.len() == c.len(),
        !lex_less(b, a),
        !lex_less(c, b),
    ensures
        !lex_less(c, a),
{
    if lex_less(c, a) {
        lemma_lex_total(a, b);
        if a != b {
            lemma_lex_transitive(c, a, b);
        }
    }
}

/// `a <= b` and `b < c` give `a < c`, for exponent vectors of one length.
pub proof fn lemma_le_less(a: Seq<nat>, b: Seq<nat>, c: Seq<nat>)
    requires
        a.len() == b.len(),
        !lex_less(b, a),
        lex_less(b, c),
    ensures
        lex_less(a, c),
{
    lemma_lex_total(a, b);
    if a != b {
        lemma_lex_transitive(a, b, c);
    }
}

/// The reverse of a strictly decreasing term list is in canonical form.
pub proof fn lemma_reverse_canonical<R: Ring>(ts: Terms<R>, nvars: nat)
    requires
        descending(ts, nvars),
    ensures
        canonical(ts.reverse(), nvars),
        coefficients_wf(ts),
{
    let r = ts.reverse();
    assert forall|i: int, j: int| 0 <= i < j < r.len() implies lex_less(
        #[trigger] r[i].1,
        #[trigger] r[j].1,
    ) by {
        let oi = ts.len() - 1 - i;
        let oj = ts.len() - 1 - j;
        assert(lex_less(ts[oi].1, ts[oj].1));
    }
    assert forall|i: int| 0 <= i < r.len() implies {
        &&& (#[trigger] r[i]).0.wf()
        &&& r[i].0 != R::zero_spec()
        &&& r[i].1.len() == nvars
    } by {
        assert(r[i] == ts[ts.len() - 1 - i]);
    }
}

/// A term list gives every monomial the coefficient that its reverse gives.
pub proof fn lemma_coefficient_reverse<R: Ring>(ts: Terms<R>, e: Seq<nat>)
    requires
        coefficients_wf(ts),
    ensures
        coefficient_in(ts.reverse(), e) == coefficient_in(ts, e),
        coefficients_wf(ts.reverse()),
    decreases ts.len(),
{
    R::lemma_constants();
    assert forall|i: int| 0 <= i < ts.len() implies (#[trigger] ts.reverse()[i]).0.wf() by {
        assert(ts.reverse()[i] == ts[ts.len() - 1 - i]);
    }
    if ts.len() == 0 {
        assert(ts.reverse() =~= ts);
    } else {
        let init = ts.drop_last();
        let x = ts.last();
        assert(x == ts[ts.len() - 1]);
        lemma_coefficients_wf_parts(ts, ts.len() - 1);
        assert(init =~= ts.subrange(0, ts.len() - 1));
        lemma_coefficient_reverse(init, e);
        let one = Seq::<(R, Seq<nat>)>::empty().push(x);
        assert(ts.reverse() =~= one + init.reverse());
        lemma_coefficients_wf_push(Seq::<(R, Seq<nat>)>::empty(), x);
        lemma_coefficient_concat(one, init.reverse(), e);
        lemma_coefficient_push(Seq::<(R, Seq<nat>)>::empty(), x, e);
        lemma_zero_add(term_at(x, e));
        lemma_coefficient_wf(init, e);
        R::lemma_add_commutative(term_at(x, e), coefficient_in(init, e));
    }
}

/// The product with a list of terms is the sum of the products with its
/// two parts.
pub proof fn lemma_product_concat<R: Ring>(a: Terms<R>, b1: Terms<R>, b2: Terms<R>, e: Seq<nat>)
    requires
        coefficients_wf(a),
        coefficients_wf(b1),
        coefficients_wf(b2),
    ensures
        product_coefficient(a, b1 + b2, e) == product_coefficient(a, b1, e).add_spec(
            product_coefficient(a, b2, e),
        ),
    decreases b2.len(),
{
    lemma_product_wf(a, b1, e);
    if b2.len() == 0 {
        assert(b1 + b2 =~= b1);
        R::lemma_add_zero(product_coefficient(a, b1, e));
    } else {
        let init = b2.drop_last();
        let y = b2.last();
        assert(y == b2[b2.len() - 1]);
        lemma_coefficients_wf_parts(b2, b2.len() - 1);
        assert(init =~= b2.subrange(0, b2.len() - 1));
        assert((b1 + b2).drop_last() =~= b1 + init);
        assert((b1 + b2).last() == y);
        lemma_product_concat(a, b1, init, e);
        lemma_product_wf(a, init, e);
        lemma_shifted_wf(a, y);
        lemma_coefficient_wf(shifted(a, y), e);
        R::lemma_add_associative(
            product_coefficient(a, b1, e),
            product_coefficient(a, init, e),
            coefficient_in(shifted(a, y), e),
        );
    }
}

/// The product with a list of terms is the product with its reverse.
pub proof fn lemma_product_reverse<R: Ring>(a: Terms<R>, b: Terms<R>, e: Seq<nat>)
    requires
        coefficients_wf(a),
        coefficients_wf(b),
    ensures
        product_coefficient(a, b.reverse(), e) == product_coefficient(a, b, e),
        coefficients_wf(b.reverse()),
    decreases b.len(),
{
    R::lemma_constants();
    assert forall|i: int| 0 <= i < b.len() implies (#[trigger] b.reverse()[i]).0.wf() by {
        assert(b.reverse()[i] == b[b.len() - 1 - i]);
    }
    if b.len() == 0 {
        assert(b.reverse() =~= b);
    } else {
        let init = b.drop_last();
        let y = b.last();
        assert(y == b[b.len() - 1]);
        lemma_coefficients_wf_parts(b, b.len() - 1);
        assert(init =~= b.subrange(0, b.len() - 1));
        lemma_product_reverse(a, init, e);
        let one = Seq::<(R, Seq<nat>)>::empty().push(y);
        assert(b.reverse() =~= one + init.reverse());
        lemma_coefficients_wf_push(Seq::<(R, Seq<nat>)>::empty(), y);
        lemma_product_concat(a, one, init.reverse(), e);
        assert(one.drop_last() =~= Seq::<(R, Seq<nat>)>::empty());
        assert(one.last() == y);
        lemma_shifted_wf(a, y);
        lemma_coefficient_wf(shifted(a, y), e);
        lemma_zero_add(coefficient_in(shifted(a, y), e));
        assert(product_coefficient(a, one.drop_last(), e) == R::zero_spec());
        assert(product_coefficient(a, one, e) == coefficient_in(shifted(a, y), e));
        assert(product_coefficient(a, b, e) == product_coefficient(a, init, e).add_spec(
            coefficient_in(shifted(a, y), e),
        ));
        lemma_product_wf(a, init, e);
        R::lemma_add_commutative(
            coefficient_in(shifted(a, y), e),
            product_coefficient(a, init, e),
        );
    }
}

/// What holds while a division runs: the dividend `a` is the product of the
/// divisor `b` and the quotient `q` so far, plus the remainder `r` so far,
/// plus the terms that are still pending, plus the term `t` at hand.
pub open spec fn division_state<R: Ring>(
    a: Terms<R>,
    b: Terms<R>,
    q: Terms<R>,
    r: Terms<R>,
    pending: Terms<R>,
    t: (R, Seq<nat>),
) -> bool {
    forall|e: Seq<nat>| #[trigger]
        coefficient_in(a, e) == product_coefficient(b, q, e).add_spec(
            coefficient_in(r, e),
        ).add_spec(coefficient_in(pending, e)).add_spec(term_at(t, e))
}

/// At the start the whole dividend is pending.
pub proof fn lemma_state_start<R: Ring>(a: Terms<R>, b: Terms<R>, x: Seq<nat>)
    requires
        coefficients_wf(a),
    ensures
        division_state(
            a,
            b,
            Terms::<R>::empty(),
            Terms::<R>::empty(),
            a,
            (R::zero_spec(), x),
        ),
{
    R::lemma_constants();
    let z = R::zero_spec();
    assert forall|e: Seq<nat>| #[trigger]
        coefficient_in(a, e) == product_coefficient(b, Terms::<R>::empty(), e).add_spec(
            coefficient_in(Terms::<R>::empty(), e),
        ).add_spec(coefficient_in(a, e)).add_spec(term_at((z, x), e)) by {
        lemma_coefficient_wf(a, e);
        R::lemma_add_zero(z);
        lemma_zero_add(coefficient_in(a, e));
        R::lemma_add_zero(coefficient_in(a, e));
    }
}

/// The largest pending terms are taken out and summed up into the term at
/// hand.
pub proof fn lemma_state_take<R: Ring>(
    a: Terms<R>,
    b: Terms<R>,
    q: Terms<R>,
    r: Terms<R>,
    before: Terms<R>,
    pending: Terms<R>,
    x: Seq<nat>,
    t: (R, Seq<nat>),
)
    requires
        division_state(a, b, q, r, before, (R::zero_spec(), x)),
        is_sum_with_term(before, pending, t),
        coefficients_wf(b),
        coefficients_wf(q),
        coefficients_wf(r),
        coefficients_wf(pending),
        t.0.wf(),
    ensures
        division_state(a, b, q, r, pending, t),
{
    R::lemma_constants();
    assert forall|e: Seq<nat>| #[trigger]
        coefficient_in(a, e) == product_coefficient(b, q, e).add_spec(
            coefficient_in(r, e),
        ).add_spec(coefficient_in(pending, e)).add_spec(term_at(t, e)) by {
        lemma_product_wf(b, q, e);
        lemma_coefficient_wf(r, e);
        lemma_coefficient_wf(pending, e);
        let w = product_coefficient(b, q, e).add_spec(coefficient_in(r, e));
        R::lemma_closed(product_coefficient(b, q, e), coefficient_in(r, e));
        let c = coefficient_in(pending, e);
        let te = term_at(t, e);
        assert(coefficient_in(before, e) == c.add_spec(te));
        R::lemma_closed(c, te);
        R::lemma_closed(w, c.add_spec(te));
        R::lemma_add_zero(w.add_spec(c.add_spec(te)));
        R::lemma_add_associative(w, c, te);
    }
}

/// A term list is what it is without its last term, plus that term.
pub proof fn lemma_take_start<R: Ring>(ts: Terms<R>)
    requires
        ts.len() > 0,
    ensures
        is_sum_with_term(ts, ts.drop_last(), ts.last()),
{
}

/// One more term with the exponents of the term at hand is taken up into it.
pub proof fn lemma_take_step<R: Ring>(
    start: Terms<R>,
    pending: Terms<R>,
    after: Terms<R>,
    t: (R, Seq<nat>),
    x: (R, Seq<nat>),
)
    requires
        is_sum_with_term(start, pending, t),
        is_sum_with_term(pending, after, x),
        coefficients_wf(after),
        t.0.wf(),
        x.0.wf(),
        x.1 == t.1,
    ensures
        is_sum_with_term(start, after, (t.0.add_spec(x.0), t.1)),
{
    R::lemma_constants();
    let nt = (t.0.add_spec(x.0), t.1);
    assert forall|e: Seq<nat>| #[trigger]
        coefficient_in(start, e) == coefficient_in(after, e).add_spec(term_at(nt, e)) by {
        lemma_coefficient_wf(after, e);
        let c = coefficient_in(after, e);
        let xe = term_at(x, e);
        let te = term_at(t, e);
        assert(coefficient_in(pending, e) == c.add_spec(xe));
        assert(coefficient_in(start, e) == c.add_spec(xe).add_spec(te));
        R::lemma_add_associative(c, xe, te);
        R::lemma_add_commutative(xe, te);
        if t.1 != e {
            R::lemma_add_zero(R::zero_spec());
        }
    }
}

/// The terms of the queue `h`, and behind them the first `u` terms of the
/// dividend `a`, which have not come to the queue yet.
pub open spec fn pending_terms<R: Ring>(h: Terms<R>, a: Terms<R>, u: int) -> Terms<R> {
    h + a.subrange(0, u)
}

pub proof fn lemma_pending_wf<R: Ring>(h: Terms<R>, a: Terms<R>, u: int)
    requires
        coefficients_wf(h),
        coefficients_wf(a),
        0 <= u <= a.len(),
    ensures
        coefficients_wf(pending_terms(h, a, u)),
        coefficients_wf(a.subrange(0, u)),
{
    let p = pending_terms(h, a, u);
    lemma_coefficients_wf_parts(a, u);
    assert forall|i: int| 0 <= i < p.len() implies (#[trigger] p[i]).0.wf() by {
        if i < h.len() {
            assert(p[i] == h[i]);
        } else {
            assert(p[i] == a.subrange(0, u)[i - h.len()]);
        }
    }
}

/// A term that comes to the queue, or leaves it, comes to what is pending,
/// or leaves it.
pub proof fn lemma_pending_changed<R: Ring>(
    more: Terms<R>,
    less: Terms<R>,
    x: (R, Seq<nat>),
    a: Terms<R>,
    u: int,
)
    requires
        is_sum_with_term(more, less, x),
        coefficients_wf(more),
        coefficients_wf(less),
        coefficients_wf(a),
        x.0.wf(),
        0 <= u <= a.len(),
    ensures
        is_sum_with_term(pending_terms(more, a, u), pending_terms(less, a, u), x),
{
    R::lemma_constants();
    let s = a.subrange(0, u);
    lemma_coefficients_wf_parts(a, u);
    assert forall|e: Seq<nat>| #[trigger]
        coefficient_in(pending_terms(more, a, u), e) == coefficient_in(
            pending_terms(less, a, u),
            e,
        ).add_spec(term_at(x, e)) by {
        lemma_coefficient_concat(more, s, e);
        lemma_coefficient_concat(less, s, e);
        lemma_coefficient_wf(less, e);
        lemma_coefficient_wf(s, e);
        assert(coefficient_in(more, e) == coefficient_in(less, e).add_spec(term_at(x, e)));
        lemma_add_swap(coefficient_in(less, e), term_at(x, e), coefficient_in(s, e));
    }
}

/// A term of the dividend that comes to the queue is pending as it was.
pub proof fn lemma_pending_delivered<R: Ring>(
    before: Terms<R>,
    after: Terms<R>,
    a: Terms<R>,
    u: int,
)
    requires
        1 <= u <= a.len(),
        is_sum_with_term(after, before, a[u - 1]),
        coefficients_wf(before),
        coefficients_wf(after),
        coefficients_wf(a),
    ensures
        stands_for(pending_terms(after, a, u - 1), pending_terms(before, a, u)),
{
    R::lemma_constants();
    let s0 = a.subrange(0, u - 1);
    let s1 = a.subrange(0, u);
    let x = a[u - 1];
    lemma_coefficients_wf_parts(a, u);
    lemma_coefficients_wf_parts(a, u - 1);
    assert(s1 =~= s0.push(x));
    assert forall|e: Seq<nat>| #[trigger]
        coefficient_in(pending_terms(after, a, u - 1), e) == coefficient_in(
            pending_terms(before, a, u),
            e,
        ) by {
        lemma_coefficient_concat(after, s0, e);
        lemma_coefficient_concat(before, s1, e);
        lemma_coefficient_push(s0, x, e);
        lemma_coefficient_wf(before, e);
        lemma_coefficient_wf(s0, e);
        assert(coefficient_in(after, e) == coefficient_in(before, e).add_spec(term_at(x, e)));
        lemma_add_swap(coefficient_in(before, e), term_at(x, e), coefficient_in(s0, e));
        R::lemma_add_associative(coefficient_in(before, e), coefficient_in(s0, e), term_at(x, e));
    }
}

/// What holds of some terms holds of others that stand for the same
/// polynomial.
pub proof fn lemma_sum_same<R: Ring>(
    start: Terms<R>,
    one: Terms<R>,
    other: Terms<R>,
    t: (R, Seq<nat>),
)
    requires
        is_sum_with_term(start, one, t),
        stands_for(other, one),
    ensures
        is_sum_with_term(start, other, t),
{
    assert forall|e: Seq<nat>| #[trigger]
        coefficient_in(start, e) == coefficient_in(other, e).add_spec(term_at(t, e)) by {
        assert(coefficient_in(other, e) == coefficient_in(one, e));
        assert(coefficient_in(start, e) == coefficient_in(one, e).add_spec(term_at(t, e)));
    }
}

/// The term at hand becomes a term of the remainder.
pub proof fn lemma_state_remainder<R: Ring>(
    a: Terms<R>,
    b: Terms<R>,
    q: Terms<R>,
    r: Terms<R>,
    pending: Terms<R>,
    t: (R, Seq<nat>),
)
    requires
        division_state(a, b, q, r, pending, t),
        coefficients_wf(b),
        coefficients_wf(q),
        coefficients_wf(r),
        coefficients_wf(pending),
        t.0.wf(),
    ensures
        division_state(a, b, q, r.push(t), pending, (R::zero_spec(), t.1)),
{
    R::lemma_constants();
    assert forall|e: Seq<nat>| #[trigger]
        coefficient_in(a, e) == product_coefficient(b, q, e).add_spec(
            coefficient_in(r.push(t), e),
        ).add_spec(coefficient_in(pending, e)).add_spec(term_at((R::zero_spec(), t.1), e)) by {
        lemma_product_wf(b, q, e);
        lemma_coefficient_wf(r, e);
        lemma_coefficient_wf(pending, e);
        lemma_coefficient_push(r, t, e);
        let p = product_coefficient(b, q, e);
        let c = coefficient_in(r, e);
        let h = coefficient_in(pending, e);
        let te = term_at(t, e);
        assert(coefficient_in(a, e) == p.add_spec(c).add_spec(h).add_spec(te));
        R::lemma_closed(p, c);
        R::lemma_closed(c, te);
        lemma_add_swap(p.add_spec(c), h, te);
        R::lemma_add_associative(p, c, te);
        R::lemma_closed(p, c.add_spec(te));
        R::lemma_closed(p.add_spec(c.add_spec(te)), h);
        R::lemma_add_zero(p.add_spec(c.add_spec(te)).add_spec(h));
    }
}

/// A term at hand that is zero counts for nothing, whatever its exponents.
pub proof fn lemma_state_idle<R: Ring>(
    a: Terms<R>,
    b: Terms<R>,
    q: Terms<R>,
    r: Terms<R>,
    pending: Terms<R>,
    x: Seq<nat>,
    y: Seq<nat>,
)
    requires
        division_state(a, b, q, r, pending, (R::zero_spec(), x)),
    ensures
        division_state(a, b, q, r, pending, (R::zero_spec(), y)),
{
    assert forall|e: Seq<nat>| #[trigger]
        coefficient_in(a, e) == product_coefficient(b, q, e).add_spec(
            coefficient_in(r, e),
        ).add_spec(coefficient_in(pending, e)).add_spec(term_at((R::zero_spec(), y), e)) by {
        assert(term_at((R::zero_spec(), y), e) == term_at((R::zero_spec(), x), e));
    }
}

/// What holds while the products of a new quotient term `qt` with the terms
/// of the divisor are put among the pending terms, negated: the pending
/// terms, plus the products that were put there, are what was pending before.
pub open spec fn products_state<R: Ring>(
    pending: Terms<R>,
    before: Terms<R>,
    done: Terms<R>,
    qt: (R, Seq<nat>),
) -> bool {
    forall|e: Seq<nat>| #[trigger]
        coefficient_in(before, e) == coefficient_in(pending, e).add_spec(
            coefficient_in(shifted(done, qt), e),
        )
}

pub proof fn lemma_products_start<R: Ring>(pending: Terms<R>, qt: (R, Seq<nat>))
    requires
        coefficients_wf(pending),
    ensures
        products_state(pending, pending, Terms::<R>::empty(), qt),
{
    assert(shifted(Terms::<R>::empty(), qt) =~= Terms::<R>::empty());
    assert forall|e: Seq<nat>| #[trigger]
        coefficient_in(pending, e) == coefficient_in(pending, e).add_spec(
            coefficient_in(shifted(Terms::<R>::empty(), qt), e),
        ) by {
        lemma_coefficient_wf(pending, e);
        R::lemma_add_zero(coefficient_in(pending, e));
    }
}

/// The product of `qt` with one more term `x` of the divisor is put among
/// the pending terms, negated; or nothing is, where its coefficient is zero.
pub proof fn lemma_products_step<R: Ring>(
    pending: Terms<R>,
    after: Terms<R>,
    before: Terms<R>,
    done: Terms<R>,
    qt: (R, Seq<nat>),
    x: (R, Seq<nat>),
)
    requires
        products_state(pending, before, done, qt),
        coefficients_wf(pending),
        coefficients_wf(done),
        qt.0.wf(),
        x.0.wf(),
        is_sum_with_term(after, pending, (x.0.mul_spec(qt.0).neg_spec(), vec_add(x.1, qt.1))),
    ensures
        products_state(after, before, done.push(x), qt),
        x.0.mul_spec(qt.0) == R::zero_spec() ==> products_state(pending, before, done.push(x), qt),
{
    R::lemma_constants();
    let p = term_product(x, qt);
    R::lemma_closed(x.0, qt.0);
    R::lemma_closed(p.0, p.0);
    let n = (p.0.neg_spec(), p.1);
    assert(shifted(done.push(x), qt) =~= shifted(done, qt).push(p));
    lemma_shifted_wf(done, qt);
    assert forall|e: Seq<nat>| #[trigger]
        coefficient_in(before, e) == coefficient_in(after, e).add_spec(
            coefficient_in(shifted(done.push(x), qt), e),
        ) by {
        assert(coefficient_in(after, e) == coefficient_in(pending, e).add_spec(term_at(n, e)));
        lemma_coefficient_push(shifted(done, qt), p, e);
        lemma_coefficient_wf(pending, e);
        lemma_coefficient_wf(shifted(done, qt), e);
        let h = coefficient_in(pending, e);
        let s = coefficient_in(shifted(done, qt), e);
        assert(coefficient_in(before, e) == h.add_spec(s));
        // (h + (-p)) + (s + p) == (h + s) + ((-p) + p)
        lemma_add_interchange(h, term_at(n, e), s, term_at(p, e));
        assert(term_at(n, e).add_spec(term_at(p, e)) == R::zero_spec()) by {
            if p.1 == e {
                R::lemma_add_neg(p.0);
                R::lemma_add_commutative(p.0, p.0.neg_spec());
            } else {
                R::lemma_add_zero(R::zero_spec());
            }
        }
        R::lemma_closed(h, s);
        R::lemma_add_zero(h.add_spec(s));
    }
    if x.0.mul_spec(qt.0) == R::zero_spec() {
        assert forall|e: Seq<nat>| #[trigger]
            coefficient_in(before, e) == coefficient_in(pending, e).add_spec(
                coefficient_in(shifted(done.push(x), qt), e),
            ) by {
            lemma_coefficient_push(shifted(done, qt), p, e);
            lemma_coefficient_wf(shifted(done, qt), e);
            assert(coefficient_in(before, e) == coefficient_in(pending, e).add_spec(
                coefficient_in(shifted(done, qt), e),
            ));
            R::lemma_add_zero(coefficient_in(shifted(done, qt), e));
        }
    }
}

/// The term at hand, which is the product of the leading term of the
/// divisor and `qt`, becomes the term `qt` of the quotient, once the products
/// of `qt` with the other terms of the divisor are pending, negated.
pub proof fn lemma_state_quotient<R: Ring>(
    a: Terms<R>,
    b: Terms<R>,
    q: Terms<R>,
    r: Terms<R>,
    before: Terms<R>,
    pending: Terms<R>,
    t: (R, Seq<nat>),
    qt: (R, Seq<nat>),
)
    requires
        division_state(a, b, q, r, before, t),
        products_state(pending, before, b.drop_last(), qt),
        b.len() > 0,
        term_product(b.last(), qt) == t,
        coefficients_wf(b),
        coefficients_wf(q),
        coefficients_wf(r),
        coefficients_wf(before),
        coefficients_wf(pending),
        qt.0.wf(),
    ensures
        division_state(a, b, q.push(qt), r, pending, (R::zero_spec(), t.1)),
{
    R::lemma_constants();
    let lead = b.last();
    assert(lead == b[b.len() - 1]);
    let b0 = b.drop_last();
    lemma_coefficients_wf_parts(b, b.len() - 1);
    assert(b0 =~= b.subrange(0, b.len() - 1));
    assert(b =~= b0.push(lead));
    assert(shifted(b, qt) =~= shifted(b0, qt).push(t));
    assert(q.push(qt).drop_last() =~= q);
    lemma_shifted_wf(b0, qt);
    R::lemma_closed(lead.0, qt.0);
    assert forall|e: Seq<nat>| #[trigger]
        coefficient_in(a, e) == product_coefficient(b, q.push(qt), e).add_spec(
            coefficient_in(r, e),
        ).add_spec(coefficient_in(pending, e)).add_spec(term_at((R::zero_spec(), t.1), e)) by {
        lemma_product_wf(b, q, e);
        lemma_coefficient_wf(r, e);
        lemma_coefficient_wf(pending, e);
        lemma_coefficient_wf(before, e);
        lemma_coefficient_wf(shifted(b0, qt), e);
        lemma_coefficient_push(shifted(b0, qt), t, e);
        let p = product_coefficient(b, q, e);
        let c = coefficient_in(r, e);
        let h0 = coefficient_in(before, e);
        let h = coefficient_in(pending, e);
        let s = coefficient_in(shifted(b0, qt), e);
        let te = term_at(t, e);
        assert(coefficient_in(a, e) == p.add_spec(c).add_spec(h0).add_spec(te));
        assert(h0 == h.add_spec(s));
        assert(product_coefficient(b, q.push(qt), e) == p.add_spec(s.add_spec(te)));
        R::lemma_closed(p, c);
        R::lemma_closed(h, s);
        R::lemma_closed(s, te);
        R::lemma_closed(p.add_spec(c), h);
        // ((p + c) + (h + s)) + te == ((p + c) + h) + (s + te)
        R::lemma_add_associative(p.add_spec(c), h, s);
        R::lemma_add_associative(p.add_spec(c).add_spec(h), s, te);
        // ((p + c) + h) + (s + te) == ((p + (s + te)) + c) + h
        lemma_add_swap(p.add_spec(c), h, s.add_spec(te));
        lemma_add_swap(p, c, s.add_spec(te));
        R::lemma_closed(p, s.add_spec(te));
        R::lemma_closed(p.add_spec(s.add_spec(te)), c);
        R::lemma_closed(p.add_spec(s.add_spec(te)).add_spec(c), h);
        R::lemma_add_zero(p.add_spec(s.add_spec(te)).add_spec(c).add_spec(h));
    }
}

/// A quotient that was divided exactly is not zero unless the dividend is,
/// and its product with the divisor is the dividend.
pub proof fn lemma_exact_quotient<R: Ring>(t: (R, Seq<nat>), d: (R, Seq<nat>))
    requires
        t.0.wf(),
        d.0.wf(),
        d.0 != R::zero_spec(),
        t.1.len() == d.1.len(),
        divisible(t, d),
    ensures
        term_product(d, term_quotient(t, d)) == t,
        term_product(term_quotient(t, d), d) == t,
        term_quotient(t, d).0.wf(),
        t.0 != R::zero_spec() ==> term_quotient(t, d).0 != R::zero_spec(),
{
    let qc = t.0.div_spec(d.0);
    R::lemma_closed(t.0, d.0);
    R::lemma_div_rem(t.0, d.0);
    R::lemma_closed(qc, d.0);
    R::lemma_add_zero(qc.mul_spec(d.0));
    R::lemma_mul_commutative(qc, d.0);
    lemma_vec_sub_add(t.1, d.1);
    lemma_mul_zero(d.0);
}

/// The term list with the single term `t`.
pub open spec fn single<R: Ring>(t: (R, Seq<nat>)) -> Terms<R> {
    Seq::<(R, Seq<nat>)>::empty().push(t)
}

/// The product with a single term is the polynomial times that term.
pub proof fn lemma_product_single<R: Ring>(q: Terms<R>, d: (R, Seq<nat>), e: Seq<nat>)
    requires
        coefficients_wf(q),
        d.0.wf(),
    ensures
        product_coefficient(q, single(d), e) == coefficient_in(shifted(q, d), e),
{
    let b = single(d);
    assert(b.drop_last() =~= Terms::<R>::empty());
    assert(b.last() == d);
    assert(product_coefficient(q, b.drop_last(), e) == R::zero_spec());
    lemma_shifted_wf(q, d);
    lemma_coefficient_wf(shifted(q, d), e);
    lemma_zero_add(coefficient_in(shifted(q, d), e));
}

/// A polynomial times the constant one is the polynomial.
pub proof fn lemma_shifted_by_one<R: Ring>(a: Terms<R>, nvars: nat, d: (R, Seq<nat>))
    requires
        canonical(a, nvars),
        d.0 == R::one_spec(),
        d.1.len() == nvars,
        forall|k: int| 0 <= k < nvars ==> d.1[k] == 0,
    ensures
        shifted(a, d) == a,
{
    assert forall|i: int| 0 <= i < a.len() implies shifted(a, d)[i] == a[i] by {
        R::lemma_mul_one(a[i].0);
        assert(vec_add(a[i].1, d.1) =~= a[i].1);
    }
    assert(shifted(a, d) =~= a);
}

/// The quotients by the term `d` of the terms of `a` that `d` divides, in
/// the order of the terms of `a`.
pub open spec fn term_quotients<R: Ring>(a: Terms<R>, d: (R, Seq<nat>)) -> Terms<R>
    decreases a.len(),
{
    if a.len() == 0 {
        Seq::empty()
    } else if divisible(a.last(), d) {
        term_quotients(a.drop_last(), d).push(term_quotient(a.last(), d))
    } else {
        term_quotients(a.drop_last(), d)
    }
}

/// The terms of `a` that the term `d` does not divide, in their order.
pub open spec fn term_rests<R: Ring>(a: Terms<R>, d: (R, Seq<nat>)) -> Terms<R>
    decreases a.len(),
{
    if a.len() == 0 {
        Seq::empty()
    } else if divisible(a.last(), d) {
        term_rests(a.drop_last(), d)
    } else {
        term_rests(a.drop_last(), d).push(a.last())
    }
}

/// Division by a single term sends every term of the dividend to one
/// place: the quotient and the remainder together have as many terms as
/// the dividend.
pub proof fn lemma_term_count<R: Ring>(a: Terms<R>, d: (R, Seq<nat>))
    ensures
        term_quotients(a, d).len() + term_rests(a, d).len() == a.len(),
    decreases a.len(),
{
    if a.len() > 0 {
        lemma_term_count(a.drop_last(), d);
    }
}

/// Division by a single term, term by term: a term of the dividend that
/// the divisor divides has its quotient among the terms of the quotient,
/// and any other term is a term of the remainder.
pub proof fn lemma_term_routed<R: Ring>(a: Terms<R>, d: (R, Seq<nat>), i: int)
    requires
        0 <= i < a.len(),
    ensures
        divisible(a[i], d) ==> exists|k: int|
            0 <= k < term_quotients(a, d).len() && term_quotients(a, d)[k] == term_quotient(a[i], d),
        !divisible(a[i], d) ==> exists|k: int|
            0 <= k < term_rests(a, d).len() && term_rests(a, d)[k] == a[i],
    decreases a.len(),
{
    let q = term_quotients(a, d);
    let r = term_rests(a, d);
    let rest = a.drop_last();
    if i == a.len() - 1 {
        if divisible(a[i], d) {
            assert(q[q.len() - 1] == term_quotient(a[i], d));
        } else {
            assert(r[r.len() - 1] == a[i]);
        }
    } else {
        lemma_term_routed(rest, d, i);
        assert(rest[i] == a[i]);
        if divisible(a[i], d) {
            let k = choose|k: int|
                0 <= k < term_quotients(rest, d).len() && term_quotients(rest, d)[k]
                    == term_quotient(a[i], d);
            assert(q[k] == term_quotient(a[i], d));
        } else {
            let k = choose|k: int| 0 <= k < term_rests(rest, d).len() && term_rests(rest, d)[k] == a[i];
            assert(r[k] == a[i]);
        }
    }
}

/// The remainder of the division by a single term holds only terms of the
/// dividend, and none that the divisor divides.
pub proof fn lemma_rests_among<R: Ring>(a: Terms<R>, d: (R, Seq<nat>))
    ensures
        terms_among(term_rests(a, d), a),
        irreducible(term_rests(a, d), d),
    decreases a.len(),
{
    let r = term_rests(a, d);
    if a.len() > 0 {
        let rest = a.drop_last();
        lemma_rests_among(rest, d);
        let r0 = term_rests(rest, d);
        assert forall|k: int| 0 <= k < r.len() implies (exists|i: int|
            0 <= i < a.len() && a[i] == #[trigger] r[k]) && !divisible(r[k], d) by {
            if k < r0.len() {
                assert(r[k] == r0[k]);
                let i = choose|i: int| 0 <= i < rest.len() && rest[i] == r0[k];
                assert(a[i] == r[k]);
            } else {
                assert(a[a.len() - 1] == r[k]);
            }
        }
    }
}

/// Dividing a polynomial by one of its own terms gives a quotient with the
/// term one, and leaves nothing of that term in the remainder.
pub proof fn lemma_own_term_division<R: Ring>(a: Terms<R>, nvars: nat, i: int)
    requires
        canonical(a, nvars),
        0 <= i < a.len(),
    ensures
        coefficient_in(term_rests(a, a[i]), a[i].1) == R::zero_spec(),
        exists|k: int|
            0 <= k < term_quotients(a, a[i]).len() && term_quotients(a, a[i])[k] == (
                R::one_spec(),
                Seq::new(nvars, |j: int| 0nat),
            ),
{
    let d = a[i];
    R::lemma_div_self(d.0);
    assert(divisible(d, d));
    lemma_term_routed(a, d, i);
    assert(term_quotient(d, d).1 =~= Seq::new(nvars, |j: int| 0nat));
    lemma_rests_among(a, d);
    lemma_own_term_remainder(a, term_rests(a, d), nvars, i);
}

/// Dividing a polynomial by one of its own terms leaves nothing of that
/// term in the remainder: where the remainder holds only terms of the
/// dividend, and none that the divisor divides, the coefficient of the
/// divisor's monomial in the remainder is zero.
pub proof fn lemma_own_term_remainder<R: Ring>(a: Terms<R>, r: Terms<R>, nvars: nat, i: int)
    requires
        canonical(a, nvars),
        0 <= i < a.len(),
        terms_among(r, a),
        irreducible(r, a[i]),
    ensures
        coefficient_in(r, a[i].1) == R::zero_spec(),
{
    R::lemma_div_self(a[i].0);
    if coefficient_in(r, a[i].1) != R::zero_spec() {
        let k = crate::poly::raw::terms::lemma_coefficient_nonzero(r, a[i].1);
        let j = choose|j: int| 0 <= j < a.len() && a[j] == r[k];
        if j < i {
            lemma_lex_asymmetric(a[j].1, a[i].1);
        } else if i < j {
            lemma_lex_asymmetric(a[i].1, a[j].1);
        }
        assert(r[k] == a[i]);
        assert(divisible(r[k], a[i]));
    }
}

/// One step of long division: `r1` is `r0` minus the product `p` of the
/// divisor `b` and the term `qt`, where the leading term `t` of `r0` is the
/// product of the leading term of `b` and `qt`. Then `r1` is what is left of
/// `r0` without its leading term, minus the products of `qt` with the other
/// terms of `b`, and all its terms are smaller than `t`.
pub proof fn lemma_long_step<R: Ring>(
    r0: Terms<R>,
    r1: Terms<R>,
    p: Terms<R>,
    b: Terms<R>,
    qt: (R, Seq<nat>),
    nvars: nat,
)
    requires
        canonical(r0, nvars),
        canonical(r1, nvars),
        canonical(b, nvars),
        coefficients_wf(p),
        r0.len() > 0,
        b.len() > 0,
        qt.0.wf(),
        qt.1.len() == nvars,
        term_product(b.last(), qt) == r0.last(),
        is_sum(r1, r0, negated(p)),
        is_shifted(p, b, qt),
    ensures
        products_state(r1, r0.drop_last(), b.drop_last(), qt),
        r1.len() > 0 ==> lex_less(r1.last().1, r0.last().1),
{
    R::lemma_constants();
    let t = r0.last();
    assert(t == r0[r0.len() - 1]);
    let lead = b.last();
    assert(lead == b[b.len() - 1]);
    let r00 = r0.drop_last();
    let b0 = b.drop_last();
    lemma_canonical_wf(r0, nvars);
    lemma_canonical_wf(r1, nvars);
    lemma_canonical_wf(b, nvars);
    lemma_coefficients_wf_parts(r0, r0.len() - 1);
    lemma_coefficients_wf_parts(b, b.len() - 1);
    assert(r00 =~= r0.subrange(0, r0.len() - 1));
    assert(b0 =~= b.subrange(0, b.len() - 1));
    assert(b =~= b0.push(lead));
    assert(shifted(b, qt) =~= shifted(b0, qt).push(t));
    lemma_shifted_wf(b0, qt);
    assert forall|e: Seq<nat>| #[trigger]
        coefficient_in(r00, e) == coefficient_in(r1, e).add_spec(
            coefficient_in(shifted(b0, qt), e),
        ) by {
        lemma_coefficient_wf(r00, e);
        lemma_coefficient_wf(shifted(b0, qt), e);
        lemma_coefficient_push(shifted(b0, qt), t, e);
        lemma_coefficient_negated(p, e);
        let x = coefficient_in(r00, e);
        let s = coefficient_in(shifted(b0, qt), e);
        let te = term_at(t, e);
        assert(coefficient_in(r0, e) == x.add_spec(te));
        assert(coefficient_in(p, e) == s.add_spec(te));
        assert(coefficient_in(r1, e) == x.add_spec(te).add_spec(s.add_spec(te).neg_spec()));
        R::lemma_closed(s, te);
        lemma_neg_add(s, te);
        let ns = s.neg_spec();
        let nt = te.neg_spec();
        R::lemma_closed(s, s);
        R::lemma_closed(te, te);
        lemma_add_interchange(x, te, ns, nt);
        R::lemma_add_neg(te);
        R::lemma_closed(x, ns);
        R::lemma_add_zero(x.add_spec(ns));
        R::lemma_add_associative(x, ns, s);
        R::lemma_add_neg(s);
        R::lemma_add_commutative(s, ns);
        R::lemma_add_zero(x);
    }
    if r1.len() > 0 {
        let top = r1.last();
        assert(top == r1[r1.len() - 1]);
        lemma_lex_total(top.1, t.1);
        if !lex_less(top.1, t.1) {
            let e = top.1;
            // no term of what is left of r0, and no product, has these exponents
            assert forall|i: int| 0 <= i < r00.len() implies (#[trigger] r00[i]).1 != e by {
                assert(r00[i] == r0[i]);
                assert(lex_less(r0[i].1, r0[r0.len() - 1].1));
                if r00[i].1 == e {
                    if e != t.1 {
                        lemma_lex_transitive(t.1, e, t.1);
                    }
                    lemma_lex_irreflexive(t.1);
                }
            }
            assert forall|i: int| 0 <= i < shifted(b0, qt).len() implies (
            #[trigger] shifted(b0, qt)[i]).1 != e by {
                assert(b0[i] == b[i]);
                assert(lex_less(b[i].1, b[b.len() - 1].1));
                lemma_lex_add(b[i].1, lead.1, qt.1);
                if shifted(b0, qt)[i].1 == e {
                    if e != t.1 {
                        lemma_lex_transitive(t.1, e, t.1);
                    }
                    lemma_lex_irreflexive(t.1);
                }
            }
            lemma_coefficient_absent(r00, e);
            lemma_coefficient_absent(shifted(b0, qt), e);
            lemma_coefficient_of_term(r1, nvars, r1.len() - 1);
            assert(coefficient_in(r00, e) == coefficient_in(r1, e).add_spec(
                coefficient_in(shifted(b0, qt), e),
            ));
            R::lemma_add_zero(top.0);
        }
    }
}

/// What holds of the pending terms holds of others that stand for the same
/// polynomial.
pub proof fn lemma_state_same<R: Ring>(
    a: Terms<R>,
    b: Terms<R>,
    q: Terms<R>,
    r: Terms<R>,
    one: Terms<R>,
    other: Terms<R>,
    t: (R, Seq<nat>),
)
    requires
        division_state(a, b, q, r, one, t),
        stands_for(other, one),
    ensures
        division_state(a, b, q, r, other, t),
{
    assert forall|e: Seq<nat>| #[trigger]
        coefficient_in(a, e) == product_coefficient(b, q, e).add_spec(
            coefficient_in(r, e),
        ).add_spec(coefficient_in(other, e)).add_spec(term_at(t, e)) by {
        assert(coefficient_in(other, e) == coefficient_in(one, e));
    }
}

/// The products that came to the queue came to what is pending.
pub proof fn lemma_products_pending<R: Ring>(
    after: Terms<R>,
    before: Terms<R>,
    done: Terms<R>,
    qt: (R, Seq<nat>),
    a: Terms<R>,
    u: int,
)
    requires
        products_state(after, before, done, qt),
        coefficients_wf(after),
        coefficients_wf(before),
        coefficients_wf(done),
        coefficients_wf(a),
        qt.0.wf(),
        0 <= u <= a.len(),
    ensures
        products_state(pending_terms(after, a, u), pending_terms(before, a, u), done, qt),
{
    let s = a.subrange(0, u);
    lemma_coefficients_wf_parts(a, u);
    lemma_shifted_wf(done, qt);
    assert forall|e: Seq<nat>| #[trigger]
        coefficient_in(pending_terms(before, a, u), e) == coefficient_in(
            pending_terms(after, a, u),
            e,
        ).add_spec(coefficient_in(shifted(done, qt), e)) by {
        lemma_coefficient_concat(after, s, e);
        lemma_coefficient_concat(before, s, e);
        lemma_coefficient_wf(after, e);
        lemma_coefficient_wf(s, e);
        lemma_coefficient_wf(shifted(done, qt), e);
        assert(coefficient_in(before, e) == coefficient_in(after, e).add_spec(
            coefficient_in(shifted(done, qt), e),
        ));
        lemma_add_swap(
            coefficient_in(after, e),
            coefficient_in(shifted(done, qt), e),
            coefficient_in(s, e),
        );
    }
}

} // verus!
