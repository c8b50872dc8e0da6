//! The terms of a quotient, one after the other: which term follows which,
//! that this fixes the quotient, and when a division cannot go on because
//! an exponent does not fit.

use vstd::prelude::*;
use crate::poly::raw::division_theory::{
    descending, division_state, irreducible, is_division, lemma_pending_wf, lemma_vec_sub_add,
    pending_terms, quotient_bounded, terms_bounded,
};
use crate::poly::raw::laws::lemma_product_wf;
use crate::poly::raw::monomial::{divisible, term_quotient};
use crate::poly::raw::synthetic::settled;
use crate::poly::raw::terms::{
    canonical, coefficient_in, coefficients_wf, lemma_canonical_unique, lemma_canonical_wf,
    lemma_coefficient_absent,
    lemma_coefficient_of_term, lemma_coefficient_single, lemma_coefficient_wf,
    lemma_lex_add, lemma_lex_asymmetric, lemma_lex_irreflexive, lemma_lex_total,
    lemma_lex_transitive, lex_less,
    product_coefficient, product_overflows, shift_overflows, term_at, vec_add, Terms,
};
use crate::poly::ring::{lemma_add_cancel, lemma_zero_add, Ring};

verus! {

/// What is left of the dividend `a` for the monomial `e` once the products
/// of the divisor `b` with the terms `q` of the quotient are taken away.
pub open spec fn left_over<R: Ring>(a: Terms<R>, b: Terms<R>, q: Terms<R>, e: Seq<nat>) -> R {
    coefficient_in(a, e).add_spec(product_coefficient(b, q, e).neg_spec())
}

/// The monomial `x` gives the quotient no term: nothing is left for it, or,
/// in a division that goes on behind a term that cannot be divided (`skip`),
/// what is left for it cannot be divided by the leading term of `b`.
pub open spec fn passed_over<R: Ring>(
    a: Terms<R>,
    b: Terms<R>,
    q: Terms<R>,
    x: Seq<nat>,
    skip: bool,
) -> bool {
    left_over(a, b, q, x) == R::zero_spec() || (skip && !divisible(
        (left_over(a, b, q, x), x),
        b.last(),
    ))
}

/// `qt` is the term of the quotient that follows the terms `q`, which are
/// in falling order: its product with the leading term of `b` is what is
/// left of the largest monomial, below that of the term before, that gives
/// the quotient a term.
pub open spec fn is_next_term<R: Ring>(
    a: Terms<R>,
    b: Terms<R>,
    q: Terms<R>,
    qt: (R, Seq<nat>),
    nvars: nat,
    skip: bool,
) -> bool {
    let e = vec_add(qt.1, b.last().1);
    let c = left_over(a, b, q, e);
    &&& qt.1.len() == nvars
    &&& c != R::zero_spec()
    &&& divisible((c, e), b.last())
    &&& qt == term_quotient((c, e), b.last())
    &&& q.len() > 0 ==> lex_less(e, vec_add(q.last().1, b.last().1))
    &&& forall|x: Seq<nat>|
        x.len() == nvars && lex_less(e, x) && (q.len() > 0 ==> lex_less(
            x,
            vec_add(q.last().1, b.last().1),
        )) ==> #[trigger] passed_over(a, b, q, x, skip)
}

/// The terms `q`, in falling order, are the first terms of the quotient of
/// `a` by `b`: each of them follows those before it.
pub open spec fn is_quotient_start<R: Ring>(
    a: Terms<R>,
    b: Terms<R>,
    q: Terms<R>,
    nvars: nat,
    skip: bool,
) -> bool {
    forall|k: int|
        0 <= k < q.len() ==> #[trigger] is_next_term(a, b, q.subrange(0, k), q[k], nvars, skip)
}

/// The terms `q`, in falling order, are all the terms of the quotient of
/// `a` by `b`: no term follows them.
pub open spec fn is_whole_quotient<R: Ring>(
    a: Terms<R>,
    b: Terms<R>,
    q: Terms<R>,
    nvars: nat,
    skip: bool,
) -> bool {
    &&& is_quotient_start(a, b, q, nvars, skip)
    &&& forall|qt: (R, Seq<nat>)| !#[trigger] is_next_term(a, b, q, qt, nvars, skip)
}

/// The division of `a` by `b` cannot be done with exponents up to `max`:
/// it comes to a term of the quotient with an exponent that, added to the
/// exponent of some term of `b` for the same variable, exceeds `max`.
pub open spec fn division_overflows<R: Ring>(
    a: Terms<R>,
    b: Terms<R>,
    nvars: nat,
    max: nat,
    skip: bool,
) -> bool {
    exists|q: Terms<R>|
        #[trigger] is_quotient_start(a, b, q, nvars, skip) && q.len() > 0 && shift_overflows(
            b,
            q.last().1,
            max,
        )
}

/// `(p + s) + (-p) == s`.
proof fn lemma_take_away<R: Ring>(p: R, s: R)
    requires
        p.wf(),
        s.wf(),
    ensures
        p.add_spec(s).add_spec(p.neg_spec()) == s,
{
    R::lemma_constants();
    R::lemma_closed(p, p);
    let n = p.neg_spec();
    R::lemma_add_commutative(p, s);
    R::lemma_add_associative(s, p, n);
    R::lemma_add_neg(p);
    R::lemma_add_zero(s);
}

/// While a division runs, what is left of a monomial is what the remainder,
/// the pending terms and the term at hand hold of it.
pub proof fn lemma_left_over<R: Ring>(
    a: Terms<R>,
    b: Terms<R>,
    q: Terms<R>,
    r: Terms<R>,
    pending: Terms<R>,
    t: (R, Seq<nat>),
    e: Seq<nat>,
)
    requires
        division_state(a, b, q, r, pending, t),
        coefficients_wf(b),
        coefficients_wf(q),
        coefficients_wf(r),
        coefficients_wf(pending),
        t.0.wf(),
    ensures
        left_over(a, b, q, e) == coefficient_in(r, e).add_spec(coefficient_in(pending, e)).add_spec(
            term_at(t, e),
        ),
{
    R::lemma_constants();
    lemma_product_wf(b, q, e);
    lemma_coefficient_wf(r, e);
    lemma_coefficient_wf(pending, e);
    let p = product_coefficient(b, q, e);
    let x = coefficient_in(r, e);
    let y = coefficient_in(pending, e);
    let z = term_at(t, e);
    assert(coefficient_in(a, e) == p.add_spec(x).add_spec(y).add_spec(z));
    R::lemma_closed(x, y);
    R::lemma_closed(x.add_spec(y), z);
    R::lemma_closed(p, x);
    R::lemma_add_associative(p, x, y);
    R::lemma_add_associative(p, x.add_spec(y), z);
    lemma_take_away(p, x.add_spec(y).add_spec(z));
}

/// One more term of the quotient.
pub proof fn lemma_start_push<R: Ring>(
    a: Terms<R>,
    b: Terms<R>,
    q: Terms<R>,
    qt: (R, Seq<nat>),
    nvars: nat,
    skip: bool,
)
    requires
        is_quotient_start(a, b, q, nvars, skip),
        is_next_term(a, b, q, qt, nvars, skip),
    ensures
        is_quotient_start(a, b, q.push(qt), nvars, skip),
{
    let q1 = q.push(qt);
    assert forall|k: int| 0 <= k < q1.len() implies #[trigger] is_next_term(
        a,
        b,
        q1.subrange(0, k),
        q1[k],
        nvars,
        skip,
    ) by {
        if k < q.len() {
            assert(q1.subrange(0, k) =~= q.subrange(0, k));
            assert(is_next_term(a, b, q.subrange(0, k), q[k], nvars, skip));
        } else {
            assert(q1.subrange(0, k) =~= q);
        }
    }
}

/// Only one term can follow the terms `q`.
pub proof fn lemma_next_unique<R: Ring>(
    a: Terms<R>,
    b: Terms<R>,
    q: Terms<R>,
    x: (R, Seq<nat>),
    y: (R, Seq<nat>),
    nvars: nat,
    skip: bool,
)
    requires
        is_next_term(a, b, q, x, nvars, skip),
        is_next_term(a, b, q, y, nvars, skip),
    ensures
        x == y,
{
    let ex = vec_add(x.1, b.last().1);
    let ey = vec_add(y.1, b.last().1);
    lemma_lex_total(ex, ey);
    if lex_less(ex, ey) {
        assert(passed_over(a, b, q, ey, skip));
    } else if lex_less(ey, ex) {
        assert(passed_over(a, b, q, ex, skip));
    }
}

/// The first terms of a quotient are fixed: two lists that both start the
/// quotient of `a` by `b` are the same as far as both go.
pub proof fn lemma_start_unique<R: Ring>(
    a: Terms<R>,
    b: Terms<R>,
    p: Terms<R>,
    q: Terms<R>,
    nvars: nat,
    skip: bool,
    n: int,
)
    requires
        is_quotient_start(a, b, p, nvars, skip),
        is_quotient_start(a, b, q, nvars, skip),
        0 <= n <= p.len(),
        n <= q.len(),
    ensures
        p.subrange(0, n) == q.subrange(0, n),
    decreases n,
{
    if n == 0 {
        assert(p.subrange(0, 0) =~= q.subrange(0, 0));
    } else {
        lemma_start_unique(a, b, p, q, nvars, skip, n - 1);
        let s = p.subrange(0, n - 1);
        assert(is_next_term(a, b, p.subrange(0, n - 1), p[n - 1], nvars, skip));
        assert(is_next_term(a, b, q.subrange(0, n - 1), q[n - 1], nvars, skip));
        lemma_next_unique(a, b, s, p[n - 1], q[n - 1], nvars, skip);
        assert(p.subrange(0, n) =~= s.push(p[n - 1]));
        assert(q.subrange(0, n) =~= s.push(q[n - 1]));
    }
}

/// A quotient is fixed: two lists that both are the whole quotient of `a`
/// by `b` are the same.
pub proof fn lemma_quotient_unique<R: Ring>(
    a: Terms<R>,
    b: Terms<R>,
    p: Terms<R>,
    q: Terms<R>,
    nvars: nat,
    skip: bool,
)
    requires
        is_whole_quotient(a, b, p, nvars, skip),
        is_whole_quotient(a, b, q, nvars, skip),
    ensures
        p == q,
{
    if p.len() <= q.len() {
        lemma_start_unique(a, b, p, q, nvars, skip, p.len() as int);
        assert(p.subrange(0, p.len() as int) =~= p);
        if p.len() < q.len() {
            assert(is_next_term(a, b, q.subrange(0, p.len() as int), q[p.len() as int], nvars, skip));
        }
        assert(q.subrange(0, q.len() as int) =~= q);
    } else {
        lemma_start_unique(a, b, p, q, nvars, skip, q.len() as int);
        assert(q.subrange(0, q.len() as int) =~= q);
        assert(is_next_term(a, b, p.subrange(0, q.len() as int), p[q.len() as int], nvars, skip));
    }
}

/// A division is fixed: two quotients with their remainders, both of the
/// division of `a` by `b`, term after term, are the same.
pub proof fn lemma_division_unique<R: Ring>(
    a: Terms<R>,
    b: Terms<R>,
    q1: Terms<R>,
    r1: Terms<R>,
    q2: Terms<R>,
    r2: Terms<R>,
    nvars: nat,
    skip: bool,
)
    requires
        coefficients_wf(b),
        canonical(q1, nvars),
        canonical(q2, nvars),
        canonical(r1, nvars),
        canonical(r2, nvars),
        is_division(q1, r1, a, b),
        is_division(q2, r2, a, b),
        is_whole_quotient(a, b, q1.reverse(), nvars, skip),
        is_whole_quotient(a, b, q2.reverse(), nvars, skip),
    ensures
        q1 == q2,
        r1 == r2,
{
    lemma_quotient_unique(a, b, q1.reverse(), q2.reverse(), nvars, skip);
    assert(q1 =~= q1.reverse().reverse());
    assert(q2 =~= q2.reverse().reverse());
    lemma_canonical_wf(q1, nvars);
    lemma_canonical_wf(r1, nvars);
    lemma_canonical_wf(r2, nvars);
    assert forall|e: Seq<nat>| coefficient_in(r1, e) == coefficient_in(r2, e) by {
        let p = product_coefficient(q1, b, e);
        lemma_product_wf(q1, b, e);
        lemma_coefficient_wf(r1, e);
        lemma_coefficient_wf(r2, e);
        let x = coefficient_in(r1, e);
        let y = coefficient_in(r2, e);
        assert(coefficient_in(a, e) == p.add_spec(x));
        assert(coefficient_in(a, e) == p.add_spec(y));
        R::lemma_add_commutative(p, x);
        R::lemma_add_commutative(p, y);
        lemma_add_cancel(x, y, p);
    }
    lemma_canonical_unique(r1, r2, nvars);
}

/// A division that came to its end met no exponent that does not fit:
/// where no term of the whole quotient has one, no start of the quotient
/// has.
pub proof fn lemma_no_overflow<R: Ring>(
    a: Terms<R>,
    b: Terms<R>,
    q: Terms<R>,
    nvars: nat,
    max: nat,
    skip: bool,
)
    requires
        is_whole_quotient(a, b, q, nvars, skip),
        !product_overflows(b, q, max),
    ensures
        !division_overflows(a, b, nvars, max, skip),
{
    assert forall|p: Terms<R>| #[trigger]
        is_quotient_start(a, b, p, nvars, skip) && p.len() > 0 implies !shift_overflows(
        b,
        p.last().1,
        max,
    ) by {
        if p.len() <= q.len() {
            lemma_start_unique(a, b, p, q, nvars, skip, p.len() as int);
            assert(p.subrange(0, p.len() as int) =~= p);
            assert(p.last() == q.subrange(0, p.len() as int)[p.len() - 1]);
            assert(p.last() == q[p.len() - 1]);
        } else {
            lemma_start_unique(a, b, p, q, nvars, skip, q.len() as int);
            assert(q.subrange(0, q.len() as int) =~= q);
            assert(is_next_term(a, b, p.subrange(0, q.len() as int), p[q.len() as int], nvars, skip));
        }
    }
}

/// In a list of falling terms, a monomial with a coefficient that is not
/// zero is that of a term, which has that coefficient.
pub proof fn lemma_descending_term<R: Ring>(r: Terms<R>, nvars: nat, x: Seq<nat>) -> (k: int)
    requires
        descending(r, nvars),
        coefficient_in(r, x) != R::zero_spec(),
    ensures
        0 <= k < r.len(),
        r[k] == (coefficient_in(r, x), x),
{
    let k = crate::poly::raw::terms::lemma_coefficient_nonzero(r, x);
    assert forall|j: int| 0 <= j < r.len() && j != k implies (#[trigger] r[j]).1 != x by {
        if j < k {
            lemma_lex_asymmetric(r[k].1, r[j].1);
        } else {
            lemma_lex_asymmetric(r[j].1, r[k].1);
        }
    }
    lemma_coefficient_single(r, k, x);
    k
}

/// The division with a queue of pending terms has a new term of the
/// quotient: the term `t` at hand is what is left of its monomial, every
/// pending term is smaller, and the terms of the remainder so far are
/// larger and cannot be divided.
pub proof fn lemma_queue_next<R: Ring>(
    a: Terms<R>,
    b: Terms<R>,
    q: Terms<R>,
    r: Terms<R>,
    pending: Terms<R>,
    t: (R, Seq<nat>),
    nvars: nat,
)
    requires
        division_state(a, b, q, r, pending, t),
        coefficients_wf(b),
        coefficients_wf(q),
        coefficients_wf(pending),
        descending(r, nvars),
        irreducible(r, b.last()),
        b.len() > 0,
        b.last().1.len() == nvars,
        t.0.wf(),
        t.0 != R::zero_spec(),
        t.1.len() == nvars,
        divisible(t, b.last()),
        forall|k: int| 0 <= k < pending.len() ==> lex_less((#[trigger] pending[k]).1, t.1),
        forall|k: int| 0 <= k < r.len() ==> lex_less(t.1, (#[trigger] r[k]).1),
        q.len() > 0 ==> lex_less(t.1, vec_add(q.last().1, b.last().1)),
    ensures
        is_next_term(a, b, q, term_quotient(t, b.last()), nvars, true),
{
    R::lemma_constants();
    let lead = b.last();
    let qt = term_quotient(t, lead);
    let e = vec_add(qt.1, lead.1);
    lemma_vec_sub_add(t.1, lead.1);
    assert(e == t.1);
    assert(coefficients_wf(r));
    // what is left of the monomial of the term at hand is that term
    assert(left_over(a, b, q, e) == t.0) by {
        lemma_left_over(a, b, q, r, pending, t, e);
        assert forall|k: int| 0 <= k < pending.len() implies (#[trigger] pending[k]).1 != e by {
            lemma_lex_irreflexive(e);
        }
        lemma_coefficient_absent(pending, e);
        assert forall|k: int| 0 <= k < r.len() implies (#[trigger] r[k]).1 != e by {
            lemma_lex_irreflexive(e);
        }
        lemma_coefficient_absent(r, e);
        R::lemma_add_zero(R::zero_spec());
        lemma_zero_add(t.0);
    }
    assert((left_over(a, b, q, e), e) == t);
    // what is left of a larger monomial is what the remainder holds of it
    assert forall|x: Seq<nat>|
        x.len() == nvars && lex_less(e, x) && (q.len() > 0 ==> lex_less(
            x,
            vec_add(q.last().1, b.last().1),
        )) implies #[trigger] passed_over(a, b, q, x, true) by {
        lemma_left_over(a, b, q, r, pending, t, x);
        assert forall|k: int| 0 <= k < pending.len() implies (#[trigger] pending[k]).1 != x by {
            if pending[k].1 == x {
                lemma_lex_asymmetric(e, x);
            }
        }
        lemma_coefficient_absent(pending, x);
        lemma_lex_irreflexive(e);
        lemma_coefficient_wf(r, x);
        let c = coefficient_in(r, x);
        R::lemma_add_zero(c);
        assert(left_over(a, b, q, x) == c);
        if c != R::zero_spec() {
            let k = lemma_descending_term(r, nvars, x);
            assert(!divisible(r[k], lead));
        }
    }
}

/// The division with a queue of pending terms goes on with a new term of
/// the quotient: the queue `h` and the first `u` terms of the dividend are
/// pending, all of them smaller than the term `t` at hand.
pub proof fn lemma_queue_quotient<R: Ring>(
    a: Terms<R>,
    b: Terms<R>,
    q: Terms<R>,
    r: Terms<R>,
    h: Terms<R>,
    u: int,
    t: (R, Seq<nat>),
    nvars: nat,
)
    requires
        division_state(a, b, q, r, pending_terms(h, a, u), t),
        is_quotient_start(a, b, q, nvars, true),
        coefficients_wf(a),
        coefficients_wf(b),
        coefficients_wf(h),
        descending(q, nvars),
        descending(r, nvars),
        irreducible(r, b.last()),
        0 <= u <= a.len(),
        b.len() > 0,
        b.last().1.len() == nvars,
        t.0.wf(),
        t.0 != R::zero_spec(),
        t.1.len() == nvars,
        divisible(t, b.last()),
        forall|k: int| 0 <= k < h.len() ==> lex_less((#[trigger] h[k]).1, t.1),
        forall|i: int| 0 <= i < u ==> lex_less((#[trigger] a[i]).1, t.1),
        r.len() > 0 ==> lex_less(t.1, r.last().1),
        q.len() > 0 ==> lex_less(t.1, vec_add(q.last().1, b.last().1)),
    ensures
        is_next_term(a, b, q, term_quotient(t, b.last()), nvars, true),
        is_quotient_start(a, b, q.push(term_quotient(t, b.last())), nvars, true),
{
    let pending = pending_terms(h, a, u);
    lemma_pending_wf(h, a, u);
    assert forall|k: int| 0 <= k < pending.len() implies lex_less((#[trigger] pending[k]).1, t.1) by {
        if k < h.len() {
            assert(pending[k] == h[k]);
        } else {
            assert(pending[k] == a[k - h.len()]);
        }
    }
    assert forall|k: int| 0 <= k < r.len() implies lex_less(t.1, (#[trigger] r[k]).1) by {
        assert(r.last() == r[r.len() - 1]);
        if k < r.len() - 1 {
            lemma_lex_transitive(t.1, r.last().1, r[k].1);
        }
    }
    assert(coefficients_wf(q));
    lemma_queue_next(a, b, q, r, pending, t, nvars);
    lemma_start_push(a, b, q, term_quotient(t, b.last()), nvars, true);
}

/// A new term of the quotient whose exponents fit leaves the quotient
/// without an exponent that does not fit.
pub proof fn lemma_fits_push<R: Ring>(b: Terms<R>, q: Terms<R>, qt: (R, Seq<nat>), max: nat)
    requires
        !product_overflows(b, q, max),
        !shift_overflows(b, qt.1, max),
    ensures
        !product_overflows(b, q.push(qt), max),
{
    let q1 = q.push(qt);
    if product_overflows(b, q1, max) {
        let j = choose|j: int| 0 <= j < q1.len() && shift_overflows(b, (#[trigger] q1[j]).1, max);
        if j < q.len() {
            assert(q1[j] == q[j]);
        }
    }
}

/// In a quotient in falling order, the product of every term with the term
/// `d` lies above what the product of the last term with `d` lies above.
pub proof fn lemma_quotient_above<R: Ring>(
    qd: Terms<R>,
    q: Terms<R>,
    d: (R, Seq<nat>),
    low: Seq<nat>,
    nvars: nat,
)
    requires
        descending(qd, nvars),
        q == qd.reverse(),
        qd.len() > 0,
        d.1.len() == nvars,
        lex_less(low, vec_add(qd.last().1, d.1)),
    ensures
        quotient_above(q, d, low),
{
    assert forall|j: int| 0 <= j < q.len() implies lex_less(
        low,
        vec_add((#[trigger] q[j]).1, d.1),
    ) by {
        let k = qd.len() - 1 - j;
        assert(q[j] == qd[k]);
        assert(qd.last() == qd[qd.len() - 1]);
        if k < qd.len() - 1 {
            lemma_lex_add(qd.last().1, qd[k].1, d.1);
            lemma_lex_transitive(low, vec_add(qd.last().1, d.1), vec_add(qd[k].1, d.1));
        }
    }
}

/// The product of every term of the quotient `q` with the term `d` lies
/// above the exponents `low` in the order of the terms.
pub open spec fn quotient_above<R: Ring>(q: Terms<R>, d: (R, Seq<nat>), low: Seq<nat>) -> bool {
    forall|j: int| 0 <= j < q.len() ==> lex_less(low, vec_add((#[trigger] q[j]).1, d.1))
}

/// Terms below a monomial that does not lie above `top` do not lie above
/// `top`.
pub proof fn lemma_below_top<R: Ring>(xs: Terms<R>, e: Seq<nat>, top: Seq<nat>)
    requires
        !lex_less(top, e),
        forall|k: int| 0 <= k < xs.len() ==> lex_less((#[trigger] xs[k]).1, e),
    ensures
        terms_bounded(xs, top),
{
    assert forall|k: int| 0 <= k < xs.len() implies !lex_less(top, (#[trigger] xs[k]).1) by {
        if lex_less(top, xs[k].1) {
            lemma_lex_transitive(top, xs[k].1, e);
        }
    }
}

/// One more term of a quotient whose products with the term `d` do not lie
/// above `top`.
pub proof fn lemma_bounded_push<R: Ring>(
    q: Terms<R>,
    qt: (R, Seq<nat>),
    d: (R, Seq<nat>),
    top: Seq<nat>,
)
    requires
        quotient_bounded(q, d, top),
        !lex_less(top, vec_add(qt.1, d.1)),
    ensures
        quotient_bounded(q.push(qt), d, top),
{
    let q1 = q.push(qt);
    assert forall|j: int| 0 <= j < q1.len() implies !lex_less(
        top,
        vec_add((#[trigger] q1[j]).1, d.1),
    ) by {
        if j < q.len() {
            assert(q1[j] == q[j]);
        }
    }
}

/// One more term of a remainder that does not lie above `top`.
pub proof fn lemma_terms_bounded_push<R: Ring>(r: Terms<R>, t: (R, Seq<nat>), top: Seq<nat>)
    requires
        terms_bounded(r, top),
        !lex_less(top, t.1),
    ensures
        terms_bounded(r.push(t), top),
{
    let r1 = r.push(t);
    assert forall|j: int| 0 <= j < r1.len() implies !lex_less(top, (#[trigger] r1[j]).1) by {
        if j < r.len() {
            assert(r1[j] == r[j]);
        }
    }
}

/// The bounds of a quotient and of a remainder hold of the same terms in
/// the other order.
pub proof fn lemma_bounded_reverse<R: Ring>(
    q: Terms<R>,
    r: Terms<R>,
    d: (R, Seq<nat>),
    top: Seq<nat>,
)
    requires
        quotient_bounded(q, d, top),
        terms_bounded(r, top),
    ensures
        quotient_bounded(q.reverse(), d, top),
        terms_bounded(r.reverse(), top),
{
    let qr = q.reverse();
    let rr = r.reverse();
    assert forall|j: int| 0 <= j < qr.len() implies !lex_less(
        top,
        vec_add((#[trigger] qr[j]).1, d.1),
    ) by {
        assert(qr[j] == q[q.len() - 1 - j]);
    }
    assert forall|j: int| 0 <= j < rr.len() implies !lex_less(top, (#[trigger] rr[j]).1) by {
        assert(rr[j] == r[r.len() - 1 - j]);
    }
}

/// The division with a queue of pending terms is at its end: with nothing
/// pending, and a remainder of which no term can be divided, no term
/// follows the terms of the quotient.
pub proof fn lemma_queue_end<R: Ring>(
    a: Terms<R>,
    b: Terms<R>,
    q: Terms<R>,
    r: Terms<R>,
    x: Seq<nat>,
    nvars: nat,
)
    requires
        division_state(a, b, q, r, Terms::<R>::empty(), (R::zero_spec(), x)),
        coefficients_wf(b),
        coefficients_wf(q),
        descending(r, nvars),
        irreducible(r, b.last()),
    ensures
        forall|qt: (R, Seq<nat>)| !#[trigger] is_next_term(a, b, q, qt, nvars, true),
{
    R::lemma_constants();
    assert forall|qt: (R, Seq<nat>)| !#[trigger] is_next_term(a, b, q, qt, nvars, true) by {
        if is_next_term(a, b, q, qt, nvars, true) {
            let e = vec_add(qt.1, b.last().1);
            lemma_left_over(a, b, q, r, Terms::<R>::empty(), (R::zero_spec(), x), e);
            lemma_coefficient_wf(r, e);
            let c = coefficient_in(r, e);
            R::lemma_add_zero(c);
            R::lemma_add_zero(c.add_spec(R::zero_spec()));
            assert(left_over(a, b, q, e) == c);
            let k = lemma_descending_term(r, nvars, e);
            assert(!divisible(r[k], b.last()));
        }
    }
}

/// A division that goes down the monomials has a new term of the quotient:
/// the term `t` is what is left of its monomial, the division holds of
/// every larger monomial, and no term of the remainder so far can be
/// divided.
pub proof fn lemma_settled_next<R: Ring>(
    a: Terms<R>,
    b: Terms<R>,
    q: Terms<R>,
    r: Terms<R>,
    t: (R, Seq<nat>),
    nvars: nat,
)
    requires
        is_quotient_start(a, b, q, nvars, true),
        coefficients_wf(b),
        coefficients_wf(q),
        descending(r, nvars),
        irreducible(r, b.last()),
        b.len() > 0,
        b.last().1.len() == nvars,
        t.0 == left_over(a, b, q, t.1),
        t.0 != R::zero_spec(),
        t.1.len() == nvars,
        divisible(t, b.last()),
        q.len() > 0 ==> lex_less(t.1, vec_add(q.last().1, b.last().1)),
        forall|x: Seq<nat>| lex_less(t.1, x) ==> #[trigger] settled(a, b, q, r, x),
    ensures
        is_next_term(a, b, q, term_quotient(t, b.last()), nvars, true),
        is_quotient_start(a, b, q.push(term_quotient(t, b.last())), nvars, true),
{
    R::lemma_constants();
    let lead = b.last();
    let qt = term_quotient(t, lead);
    let e = vec_add(qt.1, lead.1);
    lemma_vec_sub_add(t.1, lead.1);
    assert(e == t.1);
    assert((left_over(a, b, q, e), e) == t);
    assert forall|x: Seq<nat>|
        x.len() == nvars && lex_less(e, x) && (q.len() > 0 ==> lex_less(
            x,
            vec_add(q.last().1, b.last().1),
        )) implies #[trigger] passed_over(a, b, q, x, true) by {
        assert(settled(a, b, q, r, x));
        lemma_settled_left_over(a, b, q, r, x);
        let c = coefficient_in(r, x);
        if c != R::zero_spec() {
            let k = lemma_descending_term(r, nvars, x);
            assert(!divisible(r[k], lead));
        }
    }
    lemma_start_push(a, b, q, qt, nvars, true);
}

/// Where the division holds of a monomial, what is left of it is what the
/// remainder holds of it.
pub proof fn lemma_settled_left_over<R: Ring>(
    a: Terms<R>,
    b: Terms<R>,
    q: Terms<R>,
    r: Terms<R>,
    x: Seq<nat>,
)
    requires
        settled(a, b, q, r, x),
        coefficients_wf(b),
        coefficients_wf(q),
        coefficients_wf(r),
    ensures
        left_over(a, b, q, x) == coefficient_in(r, x),
{
    lemma_product_wf(b, q, x);
    lemma_coefficient_wf(r, x);
    lemma_take_away(product_coefficient(b, q, x), coefficient_in(r, x));
}

/// A division that holds of every monomial, with a remainder of which no
/// term can be divided, is at its end: no term follows the terms of the
/// quotient.
pub proof fn lemma_settled_end<R: Ring>(
    a: Terms<R>,
    b: Terms<R>,
    q: Terms<R>,
    r: Terms<R>,
    nvars: nat,
)
    requires
        forall|x: Seq<nat>| #[trigger] settled(a, b, q, r, x),
        coefficients_wf(b),
        coefficients_wf(q),
        descending(r, nvars),
        irreducible(r, b.last()),
    ensures
        forall|qt: (R, Seq<nat>)| !#[trigger] is_next_term(a, b, q, qt, nvars, true),
{
    assert forall|qt: (R, Seq<nat>)| !#[trigger] is_next_term(a, b, q, qt, nvars, true) by {
        if is_next_term(a, b, q, qt, nvars, true) {
            let e = vec_add(qt.1, b.last().1);
            assert(settled(a, b, q, r, e));
            lemma_settled_left_over(a, b, q, r, e);
            let k = lemma_descending_term(r, nvars, e);
            assert(!divisible(r[k], b.last()));
        }
    }
}

/// Long division has a new term of the quotient: the quotient of the
/// leading term of what is left.
pub proof fn lemma_long_next<R: Ring>(
    a: Terms<R>,
    b: Terms<R>,
    q: Terms<R>,
    r: Terms<R>,
    x: Seq<nat>,
    nvars: nat,
)
    requires
        division_state(a, b, q, Terms::<R>::empty(), r, (R::zero_spec(), x)),
        coefficients_wf(b),
        coefficients_wf(q),
        canonical(r, nvars),
        r.len() > 0,
        b.len() > 0,
        b.last().1.len() == nvars,
        divisible(r.last(), b.last()),
        q.len() > 0 ==> lex_less(r.last().1, vec_add(q.last().1, b.last().1)),
    ensures
        is_next_term(a, b, q, term_quotient(r.last(), b.last()), nvars, false),
{
    R::lemma_constants();
    let none = Terms::<R>::empty();
    let idle = (R::zero_spec(), x);
    let lead = b.last();
    let t = r.last();
    let qt = term_quotient(t, lead);
    let e = vec_add(qt.1, lead.1);
    lemma_canonical_wf(r, nvars);
    assert(t == r[r.len() - 1]);
    lemma_vec_sub_add(t.1, lead.1);
    assert(e == t.1);
    assert forall|y: Seq<nat>| left_over(a, b, q, y) == #[trigger] coefficient_in(r, y) by {
        lemma_left_over(a, b, q, none, r, idle, y);
        lemma_coefficient_wf(r, y);
        lemma_zero_add(coefficient_in(r, y));
        R::lemma_add_zero(coefficient_in(r, y));
    }
    lemma_coefficient_of_term(r, nvars, r.len() - 1);
    assert(left_over(a, b, q, e) == coefficient_in(r, e));
    assert((left_over(a, b, q, e), e) == t);
    assert forall|y: Seq<nat>|
        y.len() == nvars && lex_less(e, y) && (q.len() > 0 ==> lex_less(
            y,
            vec_add(q.last().1, b.last().1),
        )) implies #[trigger] passed_over(a, b, q, y, false) by {
        assert forall|k: int| 0 <= k < r.len() implies (#[trigger] r[k]).1 != y by {
            if r[k].1 == y {
                if k < r.len() - 1 {
                    lemma_lex_transitive(r[k].1, e, y);
                }
                lemma_lex_irreflexive(y);
            }
        }
        lemma_coefficient_absent(r, y);
        assert(left_over(a, b, q, y) == coefficient_in(r, y));
    }
}

/// Long division is at its end: where nothing is left, or the leading term
/// of what is left cannot be divided, no term follows the terms of the
/// quotient.
pub proof fn lemma_long_end<R: Ring>(
    a: Terms<R>,
    b: Terms<R>,
    q: Terms<R>,
    r: Terms<R>,
    x: Seq<nat>,
    nvars: nat,
)
    requires
        division_state(a, b, q, Terms::<R>::empty(), r, (R::zero_spec(), x)),
        coefficients_wf(b),
        coefficients_wf(q),
        canonical(r, nvars),
        r.len() > 0 ==> !divisible(r.last(), b.last()),
        q.len() > 0 && r.len() > 0 ==> lex_less(r.last().1, vec_add(q.last().1, b.last().1)),
    ensures
        forall|qt: (R, Seq<nat>)| !#[trigger] is_next_term(a, b, q, qt, nvars, false),
{
    R::lemma_constants();
    let none = Terms::<R>::empty();
    let idle = (R::zero_spec(), x);
    lemma_canonical_wf(r, nvars);
    assert forall|y: Seq<nat>| left_over(a, b, q, y) == #[trigger] coefficient_in(r, y) by {
        lemma_left_over(a, b, q, none, r, idle, y);
        lemma_coefficient_wf(r, y);
        lemma_zero_add(coefficient_in(r, y));
        R::lemma_add_zero(coefficient_in(r, y));
    }
    assert forall|qt: (R, Seq<nat>)| !#[trigger] is_next_term(a, b, q, qt, nvars, false) by {
        if is_next_term(a, b, q, qt, nvars, false) {
            let e = vec_add(qt.1, b.last().1);
            assert(left_over(a, b, q, e) == coefficient_in(r, e));
            let k = crate::poly::raw::terms::lemma_coefficient_nonzero(r, e);
            lemma_coefficient_of_term(r, nvars, k);
            let top = r.last();
            assert(top == r[r.len() - 1]);
            if k < r.len() - 1 {
                // the leading term lies between, and something is left of it
                assert(lex_less(e, top.1));
                lemma_coefficient_of_term(r, nvars, r.len() - 1);
                assert(left_over(a, b, q, top.1) == coefficient_in(r, top.1));
                assert(passed_over(a, b, q, top.1, false));
            } else {
                assert(r[k] == (coefficient_in(r, e), e));
            }
        }
    }
}

} // verus!
