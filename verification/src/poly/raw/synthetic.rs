//! Synthetic division of polynomials in a single variable.

use vstd::prelude::*;
use vstd::slice::slice_to_vec;
use crate::poly::exponent::Exponent;
use crate::poly::raw::division::lemma_descending_push;
use crate::poly::raw::division_theory::{
    descending, irreducible, is_division, lemma_coefficient_reverse, lemma_exact_quotient,
    lemma_product_reverse, lemma_reverse_canonical, quotient_bounded, terms_bounded,
};
use crate::poly::raw::laws::{lemma_product_coefficient_commutative, lemma_product_wf, uniform};
use crate::poly::raw::leading::single_variable;
use crate::poly::raw::monomial::{divisible, term_quotient, Monomial};
use crate::poly::raw::multivar::MultivariatePolynomial;
use crate::poly::raw::quotient::{
    is_quotient_start, is_whole_quotient, left_over, lemma_settled_end, lemma_settled_next,
};
use crate::poly::raw::terms::{
    canonical, coefficient_in, coefficients_wf, lemma_canonical_wf, lemma_coefficient_absent,
    lemma_coefficient_of_term, lemma_coefficient_push, lemma_coefficient_single,
    lemma_coefficient_wf, lemma_coefficients_wf_parts, lemma_coefficients_wf_push,
    lemma_prefix_step, lemma_prefix_whole, lemma_shifted_wf, lex_less, lex_witness,
    product_coefficient, shifted, vec_add, Terms,
};
use crate::poly::raw::zp::UnsignedInteger;
use crate::poly::ring::{lemma_neg_add, lemma_neg_zero, Ring};

verus! {

/// Every term has only the variable `var`.
pub open spec fn is_univariate<R: Ring>(ts: Terms<R>, var: int, nvars: nat) -> bool {
    forall|i: int|
        0 <= i < ts.len() ==> (#[trigger] ts[i]).1 == single_variable(nvars, var, ts[i].1[var])
}

/// The terms of a polynomial in one variable increase in its exponent.
pub proof fn lemma_univariate_increasing<R: Ring>(
    ts: Terms<R>,
    var: int,
    nvars: nat,
    i: int,
    j: int,
)
    requires
        canonical(ts, nvars),
        is_univariate(ts, var, nvars),
        0 <= i < j < ts.len(),
    ensures
        ts[i].1[var] < ts[j].1[var],
{
    assert(lex_less(ts[i].1, ts[j].1));
    let k = choose|k: int| lex_witness(ts[i].1, ts[j].1, k);
    assert(ts[i].1 == single_variable(nvars, var, ts[i].1[var]));
    assert(ts[j].1 == single_variable(nvars, var, ts[j].1[var]));
    if k != var {
        assert(ts[i].1[k] == 0);
        assert(ts[j].1[k] == 0);
    }
}

/// The division holds of the monomial `e`: the dividend gives it the
/// coefficient that the product of the divisor and the quotient so far,
/// plus the remainder so far, gives it.
pub open spec fn settled<R: Ring>(
    a: Terms<R>,
    b: Terms<R>,
    q: Terms<R>,
    r: Terms<R>,
    e: Seq<nat>,
) -> bool {
    coefficient_in(a, e) == product_coefficient(b, q, e).add_spec(coefficient_in(r, e))
}

/// What holds before the power `pow` is worked on, or, with `done`, after
/// it: the division holds of every monomial but the smaller powers of the
/// variable, and the terms of the quotient and the remainder have only the
/// variable, with exponents that fit what was worked on.
pub open spec fn synthetic_state<R: Ring>(
    a: Terms<R>,
    b: Terms<R>,
    q: Terms<R>,
    r: Terms<R>,
    var: int,
    nvars: nat,
    m: nat,
    pow: nat,
    done: bool,
) -> bool {
    &&& forall|e: Seq<nat>|
        (forall|k: nat| (k < pow || (k == pow && !done)) ==> e != single_variable(nvars, var, k))
            ==> #[trigger] settled(a, b, q, r, e)
    &&& is_univariate(q, var, nvars)
    &&& is_univariate(r, var, nvars)
    &&& forall|j: int|
        0 <= j < q.len() ==> (#[trigger] q[j]).1[var] + m > pow || (done && q[j].1[var] + m == pow)
    &&& forall|j: int| 0 <= j < r.len() ==> (#[trigger] r[j]).1[var] > pow || (done && r[j].1[var] == pow)
    &&& a.len() == 0 || pow <= a.last().1[var]
}

/// `x + (a + (-x)) == a`.
proof fn lemma_restore<R: Ring>(x: R, a: R)
    requires
        x.wf(),
        a.wf(),
    ensures
        x.add_spec(a.add_spec(x.neg_spec())) == a,
{
    R::lemma_constants();
    R::lemma_closed(x, x);
    let n = x.neg_spec();
    R::lemma_add_commutative(a, n);
    R::lemma_add_associative(x, n, a);
    R::lemma_add_neg(x);
    crate::poly::ring::lemma_zero_add(a);
}

/// What the product of the divisor with a quotient term gives to the power
/// `pow` of the variable: the product of the term with the term of the
/// divisor whose exponent makes up the difference, or nothing where there
/// is no such term.
proof fn lemma_shifted_power<R: Ring>(
    b: Terms<R>,
    qt: (R, Seq<nat>),
    var: int,
    nvars: nat,
    pow: nat,
    i: int,
)
    requires
        canonical(b, nvars),
        is_univariate(b, var, nvars),
        0 <= var < nvars,
        qt.0.wf(),
        qt.1 == single_variable(nvars, var, qt.1[var]),
        0 <= i <= b.len(),
        forall|l: int| 0 <= l < i ==> (#[trigger] b[l]).1[var] + qt.1[var] < pow,
        i < b.len() ==> b[i].1[var] + qt.1[var] >= pow,
    ensures
        coefficient_in(shifted(b, qt), single_variable(nvars, var, pow)) == (if i < b.len()
            && b[i].1[var] + qt.1[var] == pow {
            b[i].0.mul_spec(qt.0)
        } else {
            R::zero_spec()
        }),
{
    let s = shifted(b, qt);
    let pw = single_variable(nvars, var, pow);
    lemma_canonical_wf(b, nvars);
    lemma_shifted_wf(b, qt);
    assert forall|l: int| 0 <= l < s.len() implies ((#[trigger] s[l]).1 == pw <==> b[l].1[var]
        + qt.1[var] == pow) by {
        assert(b[l].1 == single_variable(nvars, var, b[l].1[var]));
        assert(s[l].1 =~= single_variable(nvars, var, b[l].1[var] + qt.1[var]));
        if s[l].1 == pw {
            assert(s[l].1[var] == pw[var]);
        }
    }
    assert forall|l: int| 0 <= l < s.len() && l != i implies (#[trigger] s[l]).1 != pw by {
        if l > i {
            lemma_univariate_increasing(b, var, nvars, i, l);
        } else {
            assert(b[l].1[var] + qt.1[var] < pow);
        }
    }
    if i < b.len() && b[i].1[var] + qt.1[var] == pow {
        lemma_coefficient_single(s, i, pw);
    } else {
        lemma_coefficient_absent(s, pw);
    }
}

/// A new term of the quotient or of the remainder for the power `pow`, or
/// none where the coefficient `c` that is left for that power is zero,
/// settles the division for that power.
proof fn lemma_synthetic_step<R: Ring>(
    a: Terms<R>,
    b: Terms<R>,
    q: Terms<R>,
    r: Terms<R>,
    var: int,
    nvars: nat,
    m: nat,
    pow: nat,
    c: R,
)
    requires
        canonical(a, nvars),
        canonical(b, nvars),
        is_univariate(b, var, nvars),
        b.len() > 0,
        b.last().1[var] == m,
        0 <= var < nvars,
        coefficients_wf(q),
        coefficients_wf(r),
        synthetic_state(a, b, q, r, var, nvars, m, pow, false),
        c == coefficient_in(a, single_variable(nvars, var, pow)).add_spec(
            product_coefficient(b, q, single_variable(nvars, var, pow)).neg_spec(),
        ),
    ensures
        c == R::zero_spec() ==> synthetic_state(a, b, q, r, var, nvars, m, pow, true),
        synthetic_state(
            a,
            b,
            q,
            r.push((c, single_variable(nvars, var, pow))),
            var,
            nvars,
            m,
            pow,
            true,
        ),
        pow >= m && divisible((c, single_variable(nvars, var, pow)), b.last())
            ==> synthetic_state(
            a,
            b,
            q.push(term_quotient((c, single_variable(nvars, var, pow)), b.last())),
            r,
            var,
            nvars,
            m,
            pow,
            true,
        ),
{
    R::lemma_constants();
    let pw = single_variable(nvars, var, pow);
    let t = (c, pw);
    lemma_canonical_wf(a, nvars);
    lemma_canonical_wf(b, nvars);
    lemma_coefficient_wf(a, pw);
    lemma_product_wf(b, q, pw);
    let av = coefficient_in(a, pw);
    let pv = product_coefficient(b, q, pw);
    R::lemma_closed(pv, pv);
    R::lemma_closed(av, pv.neg_spec());
    lemma_restore(pv, av);
    // the remainder has no term for this power
    assert(coefficient_in(r, pw) == R::zero_spec()) by {
        assert forall|j: int| 0 <= j < r.len() implies (#[trigger] r[j]).1 != pw by {
            assert(r[j].1[var] > pow);
            assert(pw[var] == pow);
        }
        lemma_coefficient_absent(r, pw);
    }
    if c == R::zero_spec() {
        assert forall|e: Seq<nat>|
            (forall|k: nat| k < pow ==> e != single_variable(nvars, var, k)) implies #[trigger] settled(
            a,
            b,
            q,
            r,
            e,
        ) by {
            if e == pw {
                R::lemma_add_zero(pv);
            } else {
                assert forall|k: nat| (k < pow || (k == pow && !false)) implies e
                    != single_variable(nvars, var, k) by {}
            }
        }
    }
    // a new term of the remainder
    let r2 = r.push(t);
    lemma_coefficients_wf_push(r, t);
    assert forall|e: Seq<nat>|
        (forall|k: nat| k < pow ==> e != single_variable(nvars, var, k)) implies #[trigger] settled(
        a,
        b,
        q,
        r2,
        e,
    ) by {
        lemma_coefficient_push(r, t, e);
        lemma_coefficient_wf(r, e);
        lemma_product_wf(b, q, e);
        if e == pw {
            crate::poly::ring::lemma_zero_add(c);
        } else {
            assert forall|k: nat| (k < pow || (k == pow && !false)) implies e != single_variable(
                nvars,
                var,
                k,
            ) by {}
            assert(settled(a, b, q, r, e));
            R::lemma_add_zero(coefficient_in(r, e));
        }
    }
    assert(is_univariate(r2, var, nvars)) by {
        assert forall|i: int| 0 <= i < r2.len() implies (#[trigger] r2[i]).1 == single_variable(
            nvars,
            var,
            r2[i].1[var],
        ) by {
            if i < r.len() {
                assert(r2[i] == r[i]);
            }
        }
    }
    assert forall|j: int| 0 <= j < r2.len() implies (#[trigger] r2[j]).1[var] > pow || (true
        && r2[j].1[var] == pow) by {
        if j < r.len() {
            assert(r2[j] == r[j]);
        }
    }
    // a new term of the quotient
    if pow >= m && divisible(t, b.last()) {
        let lead = b.last();
        assert(lead == b[b.len() - 1]);
        assert(lead.1 == single_variable(nvars, var, m));
        let qt = term_quotient(t, lead);
        lemma_exact_quotient(t, lead);
        assert(qt.1 =~= single_variable(nvars, var, (pow - m) as nat));
        let q2 = q.push(qt);
        lemma_coefficients_wf_push(q, qt);
        assert(q2.drop_last() =~= q);
        assert forall|e: Seq<nat>|
            (forall|k: nat| k < pow ==> e != single_variable(nvars, var, k)) implies #[trigger] settled(
            a,
            b,
            q2,
            r,
            e,
        ) by {
            lemma_product_wf(b, q, e);
            lemma_coefficient_wf(r, e);
            lemma_shifted_wf(b, qt);
            lemma_coefficient_wf(shifted(b, qt), e);
            let s = shifted(b, qt);
            assert(product_coefficient(b, q2, e) == product_coefficient(b, q, e).add_spec(
                coefficient_in(s, e),
            ));
            if e == pw {
                assert forall|l: int| 0 <= l < b.len() - 1 implies (#[trigger] b[l]).1[var]
                    + qt.1[var] < pow by {
                    lemma_univariate_increasing(b, var, nvars, l, b.len() - 1);
                }
                lemma_shifted_power(b, qt, var, nvars, pow, b.len() - 1);
                R::lemma_add_zero(pv.add_spec(c));
            } else {
                assert forall|k: nat| (k < pow || (k == pow && !false)) implies e
                    != single_variable(nvars, var, k) by {}
                assert(settled(a, b, q, r, e));
                // no product has the exponents e
                assert forall|l: int| 0 <= l < s.len() implies (#[trigger] s[l]).1 != e by {
                    assert(b[l].1 == single_variable(nvars, var, b[l].1[var]));
                    let k = b[l].1[var] + qt.1[var];
                    assert(s[l].1 =~= single_variable(nvars, var, k));
                    if l < b.len() - 1 {
                        lemma_univariate_increasing(b, var, nvars, l, b.len() - 1);
                    }
                    assert(k <= pow);
                }
                lemma_coefficient_absent(s, e);
                R::lemma_add_zero(product_coefficient(b, q, e));
            }
        }
        assert(is_univariate(q2, var, nvars)) by {
            assert forall|i: int| 0 <= i < q2.len() implies (
            #[trigger] q2[i]).1 == single_variable(nvars, var, q2[i].1[var]) by {
                if i < q.len() {
                    assert(q2[i] == q[i]);
                }
            }
        }
        assert forall|j: int| 0 <= j < q2.len() implies (#[trigger] q2[j]).1[var] + m > pow || (
        true && q2[j].1[var] + m == pow) by {
            if j < q.len() {
                assert(q2[j] == q[j]);
            }
        }
    }
}

/// What is left for the power `pow` gives the quotient its next term where
/// the leading term of the divisor divides it.
proof fn lemma_power_quotient<R: Ring>(
    a: Terms<R>,
    b: Terms<R>,
    q: Terms<R>,
    r: Terms<R>,
    var: int,
    nvars: nat,
    m: nat,
    pow: nat,
    c: R,
)
    requires
        canonical(b, nvars),
        is_univariate(b, var, nvars),
        b.len() > 0,
        b.last().1[var] == m,
        0 <= var < nvars,
        descending(q, nvars),
        descending(r, nvars),
        irreducible(r, b.last()),
        synthetic_state(a, b, q, r, var, nvars, m, pow, false),
        is_quotient_start(a, b, q, nvars, true),
        c == left_over(a, b, q, single_variable(nvars, var, pow)),
        c != R::zero_spec(),
        divisible((c, single_variable(nvars, var, pow)), b.last()),
    ensures
        is_quotient_start(
            a,
            b,
            q.push(term_quotient((c, single_variable(nvars, var, pow)), b.last())),
            nvars,
            true,
        ),
{
    let pw = single_variable(nvars, var, pow);
    let lead = b.last();
    lemma_canonical_wf(b, nvars);
    assert(lead == b[b.len() - 1]);
    assert(lead.1 == single_variable(nvars, var, m));
    if q.len() > 0 {
        let above = q.last();
        assert(above == q[q.len() - 1]);
        assert(above.1 == single_variable(nvars, var, above.1[var]));
        assert(lex_witness(pw, vec_add(above.1, lead.1), var));
    }
    assert forall|x: Seq<nat>| lex_less(pw, x) implies #[trigger] settled(a, b, q, r, x) by {
        assert forall|k: nat| (k < pow || (k == pow && !false)) implies x != single_variable(
            nvars,
            var,
            k,
        ) by {
            if x == single_variable(nvars, var, k) {
                let w = choose|w: int| lex_witness(pw, x, w);
                assert(w == var);
            }
        }
    }
    lemma_settled_next(a, b, q, r, (c, pw), nvars);
}

/// Once a power is settled, the next smaller one can be worked on.
proof fn lemma_synthetic_next<R: Ring>(
    a: Terms<R>,
    b: Terms<R>,
    q: Terms<R>,
    r: Terms<R>,
    var: int,
    nvars: nat,
    m: nat,
    pow: nat,
)
    requires
        pow > 0,
        synthetic_state(a, b, q, r, var, nvars, m, pow, true),
    ensures
        synthetic_state(a, b, q, r, var, nvars, m, (pow - 1) as nat, false),
{
    let low = (pow - 1) as nat;
    assert forall|e: Seq<nat>|
        (forall|k: nat| (k < low || (k == low && !false)) ==> e != single_variable(nvars, var, k))
            implies #[trigger] settled(a, b, q, r, e) by {
        assert forall|k: nat| (k < pow || (k == pow && !true)) implies e != single_variable(
            nvars,
            var,
            k,
        ) by {}
    }
}

impl<R: Ring, E: Exponent> MultivariatePolynomial<R, E> {
    /// The first variable with an exponent that is not zero in the leading
    /// term, or the number of variables where there is none.
    fn leading_variable(&self) -> (var: usize)
        requires
            self.shaped(),
            self.nterms > 0,
        ensures
            var <= self.nvars,
            var < self.nvars ==> self@.last().1[var as int] != 0,
            forall|k: int| 0 <= k < var ==> self@.last().1[k] == 0,
    {
        let last = self.nterms - 1;
        let mut k: usize = 0;
        while k < self.nvars
            invariant
                self.shaped(),
                last == self.nterms - 1,
                k <= self.nvars,
                forall|l: int| 0 <= l < k ==> self@.last().1[l] == 0,
            decreases self.nvars - k,
        {
            if !self.exponent(last, k).is_zero() {
                return k;
            }
            k = k + 1;
        }
        k
    }

    /// The coefficient of the power `pow` of the variable `var`, found from
    /// the term `pos` downwards; `pos` becomes the first term whose exponent
    /// is not larger than `pow`, or the first term.
    fn coefficient_at(&self, var: usize, pow: E, pos: &mut usize) -> (c: R)
        requires
            self.wf(),
            var < self.nvars,
            is_univariate(self@, var as int, self.nvars as nat),
            *old(pos) < self.nterms,
            forall|i: int| *old(pos) < i < self.nterms ==> (#[trigger] self@[i]).1[var as int] > pow.value(),
        ensures
            c == coefficient_in(self@, single_variable(self.nvars as nat, var as int, pow.value())),
            c.wf(),
            *final(pos) < self.nterms,
            *final(pos) <= *old(pos),
            forall|i: int|
                *final(pos) < i < self.nterms ==> (#[trigger] self@[i]).1[var as int] > pow.value(),
            forall|i: int|
                *final(pos) < i < self.nterms ==> (#[trigger] self@[i]).1[var as int] >= pow.value(),
    {
        let ghost ts = self@;
        let ghost nv = self.nvars as nat;
        let ghost pw = single_variable(nv, var as int, pow.value());
        while *pos > 0 && pow.less(self.exponent(*pos, var))
            invariant
                self.wf(),
                ts == self@,
                var < self.nvars,
                *pos < self.nterms,
                *pos <= *old(pos),
                forall|i: int|
                    *pos < i < self.nterms ==> (#[trigger] ts[i]).1[var as int] > pow.value(),
            decreases *pos,
        {
            *pos = *pos - 1;
        }
        let e = self.exponent(*pos, var);
        proof {
            R::lemma_constants();
            assert(ts[*pos as int].1 == single_variable(nv, var as int, ts[*pos as int].1[var as int]));
            if e.value() == pow.value() {
                lemma_coefficient_of_term(ts, nv, *pos as int);
            } else {
                assert forall|i: int| 0 <= i < ts.len() implies (#[trigger] ts[i]).1 != pw by {
                    assert(pw[var as int] == pow.value());
                    if i < *pos {
                        lemma_univariate_increasing(ts, var as int, nv, i, *pos as int);
                    }
                }
                lemma_coefficient_absent(ts, pw);
            }
            assert(ts[*pos as int].0.wf());
        }
        if e.equals(pow) {
            self.coefficients[*pos]
        } else {
            R::zero()
        }
    }

    /// Subtracts from `coeff` what the products of the terms of `self` and
    /// the terms of `q` give to the power `pow` of the variable `var`. The
    /// terms of `q` have decreasing exponents.
    fn subtract_products(&self, q: &Self, var: usize, pow: E, coeff: R) -> (c: R)
        requires
            self.wf(),
            self.nterms > 0,
            q.shaped(),
            q.nvars == self.nvars,
            var < self.nvars,
            coeff.wf(),
            descending(q@, self.nvars as nat),
            is_univariate(self@, var as int, self.nvars as nat),
            is_univariate(q@, var as int, self.nvars as nat),
            forall|i: int, j: int|
                0 <= i < self.nterms && 0 <= j < q.nterms ==> (#[trigger] self@[i]).1[var as int] + (
                #[trigger] q@[j]).1[var as int] <= E::max(),
        ensures
            c == coeff.add_spec(
                product_coefficient(
                    self@,
                    q@,
                    single_variable(self.nvars as nat, var as int, pow.value()),
                ).neg_spec(),
            ),
            c.wf(),
    {
        let ghost b = self@;
        let ghost qs = q@;
        let ghost nv = self.nvars as nat;
        let ghost pw = single_variable(nv, var as int, pow.value());
        let nb = self.nterms;
        let mut c = coeff;
        let mut qindex: usize = 0;
        let mut bindex: usize = 0;
        proof {
            R::lemma_constants();
            lemma_canonical_wf(b, nv);
            lemma_reverse_canonical(qs, nv);
            lemma_prefix_whole(qs);
            lemma_neg_zero::<R>();
            R::lemma_add_zero(coeff);
        }
        while qindex < q.nterms
            invariant
                self.wf(),
                b == self@,
                qs == q@,
                nb == self.nterms,
                nb > 0,
                q.shaped(),
                q.nvars == self.nvars,
                nv == self.nvars,
                var < self.nvars,
                pw == single_variable(nv, var as int, pow.value()),
                coefficients_wf(b),
                coefficients_wf(qs),
                descending(qs, nv),
                is_univariate(b, var as int, nv),
                is_univariate(qs, var as int, nv),
                forall|i: int, j: int|
                    0 <= i < self.nterms && 0 <= j < q.nterms ==> (#[trigger] b[i]).1[var as int] + (
                    #[trigger] qs[j]).1[var as int] <= E::max(),
                qindex <= q.nterms,
                bindex < nb,
                c.wf(),
                coeff.wf(),
                c == coeff.add_spec(
                    product_coefficient(b, qs.subrange(0, qindex as int), pw).neg_spec(),
                ),
                qindex < q.nterms ==> forall|l: int|
                    0 <= l < bindex ==> (#[trigger] b[l]).1[var as int] + qs[qindex as int].1[var as int]
                        < pow.value(),
            decreases q.nterms - qindex,
        {
            let qe = q.exponent(qindex, var);
            let ghost qt = qs[qindex as int];
            while bindex + 1 < nb && self.exponent(bindex, var).plus(qe).less(pow)
                invariant
                    self.wf(),
                    b == self@,
                    nb == self.nterms,
                    var < self.nvars,
                    qindex < q.nterms,
                    qs == q@,
                    qt == qs[qindex as int],
                    qe.value() == qt.1[var as int],
                    bindex < nb,
                    forall|i: int, j: int|
                        0 <= i < self.nterms && 0 <= j < q.nterms ==> (#[trigger] b[i]).1[var as int]
                            + (#[trigger] qs[j]).1[var as int] <= E::max(),
                    forall|l: int|
                        0 <= l < bindex ==> (#[trigger] b[l]).1[var as int] + qt.1[var as int]
                            < pow.value(),
                decreases nb - bindex,
            {
                bindex = bindex + 1;
            }
            proof {
                assert(b[bindex as int].1[var as int] + qs[qindex as int].1[var as int] <= E::max());
            }
            let sum = self.exponent(bindex, var).plus(qe);
            let ghost before = qs.subrange(0, qindex as int);
            let ghost x = coefficient_in(shifted(b, qt), pw);
            proof {
                assert(qt.0.wf());
                assert(qt.1 == single_variable(nv, var as int, qt.1[var as int]));
                assert(b[bindex as int].0.wf());
                lemma_prefix_step(qs, qindex as int);
                assert(before.push(qt).drop_last() =~= before);
                lemma_coefficients_wf_parts(qs, qindex as int);
                lemma_product_wf(b, before, pw);
                let pc = product_coefficient(b, before, pw);
                if sum.value() >= pow.value() {
                    lemma_shifted_power(b, qt, var as int, nv, pow.value(), bindex as int);
                } else {
                    // the last term of the divisor is still too small
                    assert forall|l: int| 0 <= l < nb implies (#[trigger] b[l]).1[var as int]
                        + qt.1[var as int] < pow.value() by {
                        if l < bindex {
                        } else if l > bindex {
                            assert(false);
                        }
                    }
                    lemma_shifted_power(b, qt, var as int, nv, pow.value(), nb as int);
                }
                lemma_shifted_wf(b, qt);
                lemma_coefficient_wf(shifted(b, qt), pw);
                let next = qs.subrange(0, qindex + 1);
                assert(next.drop_last() =~= before);
                assert(next.last() == qt);
                assert(product_coefficient(b, next, pw) == pc.add_spec(x));
                lemma_neg_add(pc, x);
                R::lemma_closed(pc, pc);
                R::lemma_closed(x, x);
                R::lemma_add_associative(coeff, pc.neg_spec(), x.neg_spec());
                if x == R::zero_spec() {
                    R::lemma_add_zero(pc);
                }
            }
            if sum.equals(pow) {
                c = c.sub(self.coefficients[bindex].mul(q.coefficients[qindex]));
            }
            proof {
                if qindex + 1 < q.nterms {
                    let lower = qs[qindex + 1].1;
                    let upper = qs[qindex as int].1;
                    assert(lex_less(lower, upper));
                    let w = choose|w: int| lex_witness(lower, upper, w);
                    assert(lower == single_variable(nv, var as int, lower[var as int]));
                    if w != var {
                        assert(lower[w] == 0);
                        assert(upper[w] == 0);
                    }
                }
            }
            qindex = qindex + 1;
        }
        proof {
            lemma_prefix_whole(qs);
        }
        c
    }

    /// Synthetic division for univariate polynomials: `self` and `div` have
    /// the same single variable. The powers of the variable are worked on
    /// from the degree of `self` down to zero. What is left for a power is
    /// the coefficient of `self` for it, minus the products of the terms of
    /// the quotient so far with the terms of `div` that make up that power.
    /// Where that can be divided by the leading term of `div`, the quotient
    /// is a new term of the quotient; otherwise it is a term of the
    /// remainder. The quotient and the remainder have only the variable of
    /// `self` and `div`, and no product of a term of the quotient with the
    /// leading term of `div` lies above the leading term of `self`.
    pub fn synthetic_division(&self, div: &Self) -> (res: (Self, Self))
        requires
            self.wf(),
            div.wf(),
            self.nvars == div.nvars,
            self.nterms > 0,
            div.nterms > 0,
            exists|var: int|
                0 <= var < self.nvars && is_univariate(self@, var, self.nvars as nat)
                    && is_univariate(div@, var, self.nvars as nat),
        ensures
            res.0.wf(),
            res.1.wf(),
            res.0.nvars == self.nvars,
            res.1.nvars == self.nvars,
            is_division(res.0@, res.1@, self@, div@),
            irreducible(res.1@, div@.last()),
            forall|var: int|
                0 <= var < self.nvars && is_univariate(self@, var, self.nvars as nat)
                    && is_univariate(div@, var, self.nvars as nat) ==> is_univariate(
                    res.0@,
                    var,
                    self.nvars as nat,
                ) && is_univariate(res.1@, var, self.nvars as nat),
            quotient_bounded(res.0@, div@.last(), self@.last().1),
            terms_bounded(res.1@, self@.last().1),
            is_whole_quotient(self@, div@, res.0@.reverse(), self.nvars as nat, true),
    {
        let nvars = self.nvars;
        let ghost nv = nvars as nat;
        let ghost a = self@;
        let ghost b = div@;
        let nb = div.nterms;
        // determine the variable

        let v1 = self.leading_variable();
        let v2 = div.leading_variable();
        let var = if v1 < nvars {
            v1
        } else if v2 < nvars {
            v2
        } else {
            0
        };
        proof {
            let var0 = choose|var: int|
                0 <= var < self.nvars && is_univariate(self@, var, self.nvars as nat)
                    && is_univariate(div@, var, self.nvars as nat);
            lemma_variable_found(a, nv, var0, v1 as int, var as int);
            lemma_variable_found(b, nv, var0, v2 as int, var as int);
        }
        let lead = div.to_monomial(nb - 1);
        let m = div.ldegree(var);
        let mut pow = self.ldegree(var);
        let ghost top = pow.value();
        let mut q = Self::with_nvars_and_capacity(nvars, self.nterms);
        let mut r = Self::with_nvars(nvars);
        let mut single = Self::zero_exponents(nvars);
        let mut dividendpos = self.nterms - 1;
        let mut going = true;
        proof {
            R::lemma_constants();
            lemma_canonical_wf(a, nv);
            lemma_canonical_wf(b, nv);
            assert(b.last() == b[nb - 1]);
            assert(a.last() == a[a.len() - 1]);
            assert(lead.exponents@.len() == lead@.1.len());
            E::value_in_range(pow);
            // no other monomial than the powers up to the degree has a term
            assert forall|e: Seq<nat>|
                (forall|k: nat| (k < top || (k == top && !false)) ==> e != single_variable(
                    nv,
                    var as int,
                    k,
                )) implies #[trigger] settled(a, b, Terms::<R>::empty(), Terms::<R>::empty(), e) by {
                assert forall|i: int| 0 <= i < a.len() implies (#[trigger] a[i]).1 != e by {
                    let k = a[i].1[var as int];
                    assert(a[i].1 == single_variable(nv, var as int, k));
                    if i < a.len() - 1 {
                        lemma_univariate_increasing(a, var as int, nv, i, a.len() - 1);
                    }
                    assert(k <= top);
                }
                lemma_coefficient_absent(a, e);
                R::lemma_add_zero(R::zero_spec());
            }
        }
        while going
            invariant
                self.wf(),
                div.wf(),
                a == self@,
                b == div@,
                nvars == self.nvars,
                nvars == div.nvars,
                nv == nvars,
                var < nvars,
                nb == div.nterms,
                nb > 0,
                is_univariate(a, var as int, nv),
                is_univariate(b, var as int, nv),
                lead@ == b.last(),
                lead.exponents@.len() == nvars,
                lead.coefficient.wf(),
                lead.coefficient != R::zero_spec(),
                m.value() == b.last().1[var as int],
                top == a.last().1[var as int],
                top <= E::max(),
                pow.value() <= top,
                q.shaped(),
                r.shaped(),
                q.nvars == nvars,
                r.nvars == nvars,
                descending(q@, nv),
                descending(r@, nv),
                irreducible(r@, b.last()),
                single@.len() == nvars,
                forall|k: int| 0 <= k < nvars ==> (#[trigger] single@[k]).value() == 0,
                dividendpos < self.nterms,
                forall|i: int|
                    dividendpos < i < self.nterms ==> (#[trigger] a[i]).1[var as int] > pow.value()
                        || (!going && a[i].1[var as int] >= pow.value()),
                forall|j: int| 0 <= j < q@.len() ==> (#[trigger] q@[j]).1[var as int] + m.value() <= top,
                forall|j: int| 0 <= j < r@.len() ==> (#[trigger] r@[j]).1[var as int] <= top,
                synthetic_state(a, b, q@, r@, var as int, nv, m.value(), pow.value(), !going),
                is_quotient_start(a, b, q@, nv, true),
                !going ==> pow.value() == 0,
            decreases pow.value(), (if going { 1nat } else { 0nat }),
        {
            let ghost q0 = q@;
            let ghost r0 = r@;
            let ghost pw = single_variable(nv, var as int, pow.value());
            proof {
                lemma_reverse_canonical(q0, nv);
                lemma_reverse_canonical(r0, nv);
                assert forall|i: int, j: int| 0 <= i < b.len() && 0 <= j < q0.len() implies (
                #[trigger] b[i]).1[var as int] + (#[trigger] q0[j]).1[var as int] <= E::max() by {
                    if i < b.len() - 1 {
                        lemma_univariate_increasing(b, var as int, nv, i, b.len() - 1);
                    }
                    assert(q0[j].1[var as int] + m.value() <= top);
                }
            }
            // find the power in the dividend if it exists
            let found = self.coefficient_at(var, pow, &mut dividendpos);
            let c = div.subtract_products(&q, var, pow, found);
            proof {
                lemma_synthetic_step(a, b, q0, r0, var as int, nv, m.value(), pow.value(), c);
            }
            if !c.is_zero() {
                single[var] = pow;
                let t = Monomial::new(c, slice_to_vec(single.as_slice()));
                single[var] = E::zero();
                proof {
                    assert(t@.1 =~= pw);
                    assert(t.exponents@.len() == t@.1.len());
                }
                // can the division be performed? if not, add to rest
                if !pow.less(m) && t.divides(&lead) {
                    let qt = t.divide(&lead);
                    proof {
                        lemma_exact_quotient(t@, lead@);
                        assert(qt.exponents@.len() == qt@.1.len());
                        assert(qt@.1 =~= single_variable(
                            nv,
                            var as int,
                            (pow.value() - m.value()) as nat,
                        ));
                        if q0.len() > 0 {
                            let above = q0.last();
                            assert(above == q0[q0.len() - 1]);
                            assert(above.1 == single_variable(nv, var as int, above.1[var as int]));
                            assert(above.1[var as int] + m.value() > pow.value());
                            assert(lex_witness(qt@.1, above.1, var as int));
                        }
                        lemma_descending_push(q0, nv, qt@);
                        lemma_power_quotient(a, b, q0, r0, var as int, nv, m.value(), pow.value(), c);
                    }
                    q.push_term(qt.coefficient, qt.exponents.as_slice(), 0);
                    proof {
                        assert forall|j: int| 0 <= j < q@.len() implies (#[trigger] q@[j]).1[var as int]
                            + m.value() <= top by {
                            if j < q0.len() {
                                assert(q@[j] == q0[j]);
                            }
                        }
                    }
                } else {
                    proof {
                        if r0.len() > 0 {
                            let above = r0.last();
                            assert(above == r0[r0.len() - 1]);
                            assert(above.1 == single_variable(nv, var as int, above.1[var as int]));
                            assert(above.1[var as int] > pow.value());
                            assert(lex_witness(t@.1, above.1, var as int));
                        }
                        lemma_descending_push(r0, nv, t@);
                        if pow.value() < m.value() {
                            assert(t@.1[var as int] < b.last().1[var as int]);
                        }
                    }
                    r.push_term(t.coefficient, t.exponents.as_slice(), 0);
                    proof {
                        assert forall|i: int| 0 <= i < r@.len() implies !divisible(
                            #[trigger] r@[i],
                            b.last(),
                        ) by {
                            if i < r0.len() {
                                assert(r@[i] == r0[i]);
                            }
                        }
                        assert forall|j: int| 0 <= j < r@.len() implies (#[trigger] r@[j]).1[var as int]
                            <= top by {
                            if j < r0.len() {
                                assert(r@[j] == r0[j]);
                            }
                        }
                    }
                }
            }
            if pow.is_zero() {
                going = false;
            } else {
                proof {
                    lemma_synthetic_next(a, b, q@, r@, var as int, nv, m.value(), pow.value());
                }
                pow = pow.minus(E::one());
            }
        }
        let quotient = q.reversed();
        let remainder = r.reversed();
        proof {
            lemma_reverse_canonical(q@, nv);
            lemma_reverse_canonical(r@, nv);
            assert(uniform(quotient@, nv)) by {
                assert forall|i: int| 0 <= i < quotient@.len() implies (
                #[trigger] quotient@[i]).1.len() == nv by {}
            }
            assert(uniform(b, nv)) by {
                assert forall|i: int| 0 <= i < b.len() implies (#[trigger] b[i]).1.len() == nv by {}
            }
            lemma_canonical_wf(quotient@, nv);
            assert forall|e: Seq<nat>| #[trigger]
                coefficient_in(a, e) == product_coefficient(quotient@, b, e).add_spec(
                    coefficient_in(remainder@, e),
                ) by {
                lemma_product_coefficient_commutative(quotient@, b, e, nv);
                lemma_product_reverse(b, q@, e);
                lemma_coefficient_reverse(r@, e);
                assert(settled(a, b, q@, r@, e));
            }
            assert forall|i: int| 0 <= i < remainder@.len() implies !divisible(
                #[trigger] remainder@[i],
                b.last(),
            ) by {
                assert(remainder@[i] == r@[r@.len() - 1 - i]);
            }
            assert(quotient@.reverse() =~= q@);
            assert(coefficients_wf(q@));
            assert forall|e: Seq<nat>| #[trigger] settled(a, b, q@, r@, e) by {
                assert forall|k: nat| (k < 0 || (k == 0 && !true)) implies e != single_variable(
                    nv,
                    var as int,
                    k,
                ) by {}
            }
            lemma_settled_end(a, b, q@, r@, nv);
            lemma_results_univariate(
                a,
                b,
                quotient@,
                remainder@,
                q@,
                r@,
                nv,
                var as int,
                m.value(),
                top,
            );
        }
        (quotient, remainder)
    }
}

/// What the division of polynomials in the variable `var` gives has only the
/// variables that both of them have, and stays below the leading term of the
/// dividend. The lists `qd` and `rd` are the quotient and the remainder in
/// falling order.
proof fn lemma_results_univariate<R: Ring>(
    a: Terms<R>,
    b: Terms<R>,
    q: Terms<R>,
    r: Terms<R>,
    qd: Terms<R>,
    rd: Terms<R>,
    nvars: nat,
    var: int,
    m: nat,
    top: nat,
)
    requires
        0 <= var < nvars,
        a.len() > 0,
        b.len() > 0,
        is_univariate(a, var, nvars),
        is_univariate(b, var, nvars),
        is_univariate(qd, var, nvars),
        is_univariate(rd, var, nvars),
        top == a.last().1[var],
        m == b.last().1[var],
        q.len() == qd.len(),
        r.len() == rd.len(),
        forall|i: int| 0 <= i < q.len() ==> #[trigger] q[i] == qd[qd.len() - 1 - i],
        forall|i: int| 0 <= i < r.len() ==> #[trigger] r[i] == rd[rd.len() - 1 - i],
        forall|j: int| 0 <= j < qd.len() ==> (#[trigger] qd[j]).1[var] + m <= top,
        forall|j: int| 0 <= j < rd.len() ==> (#[trigger] rd[j]).1[var] <= top,
    ensures
        forall|v: int|
            0 <= v < nvars && is_univariate(a, v, nvars) && is_univariate(b, v, nvars)
                ==> is_univariate(q, v, nvars) && is_univariate(r, v, nvars),
        quotient_bounded(q, b.last(), a.last().1),
        terms_bounded(r, a.last().1),
{
    let high = a.last().1;
    let lead = b.last().1;
    assert(a.last() == a[a.len() - 1]);
    assert(b.last() == b[b.len() - 1]);
    assert(high == single_variable(nvars, var, top));
    assert(lead == single_variable(nvars, var, m));
    assert forall|j: int| 0 <= j < q.len() implies !lex_less(
        high,
        vec_add((#[trigger] q[j]).1, lead),
    ) by {
        let x = qd[qd.len() - 1 - j];
        assert(q[j] == x);
        assert(x.1 == single_variable(nvars, var, x.1[var]));
        let sum = vec_add(x.1, lead);
        if lex_less(high, sum) {
            let k = choose|k: int| lex_witness(high, sum, k);
            assert(k == var);
        }
    }
    assert forall|j: int| 0 <= j < r.len() implies !lex_less(high, (#[trigger] r[j]).1) by {
        let x = rd[rd.len() - 1 - j];
        assert(r[j] == x);
        assert(x.1 == single_variable(nvars, var, x.1[var]));
        if lex_less(high, x.1) {
            let k = choose|k: int| lex_witness(high, x.1, k);
            assert(k == var);
        }
    }
    assert forall|v: int|
        0 <= v < nvars && is_univariate(a, v, nvars) && is_univariate(b, v, nvars) implies is_univariate(
        q,
        v,
        nvars,
    ) && is_univariate(r, v, nvars) by {
        if v != var {
            assert(high == single_variable(nvars, v, high[v]));
            assert(high[var] == 0);
        }
        assert forall|j: int| 0 <= j < q.len() implies (#[trigger] q[j]).1 == single_variable(
            nvars,
            v,
            q[j].1[v],
        ) by {
            let x = qd[qd.len() - 1 - j];
            assert(q[j] == x);
            assert(x.1 == single_variable(nvars, var, x.1[var]));
            assert(x.1 =~= single_variable(nvars, v, x.1[v]));
        }
        assert forall|j: int| 0 <= j < r.len() implies (#[trigger] r[j]).1 == single_variable(
            nvars,
            v,
            r[j].1[v],
        ) by {
            let x = rd[rd.len() - 1 - j];
            assert(r[j] == x);
            assert(x.1 == single_variable(nvars, v, x.1[v])) by {
                assert(x.1 == single_variable(nvars, var, x.1[var]));
                assert(x.1 =~= single_variable(nvars, v, x.1[v]));
            }
        }
    }
}

/// The variable that the leading term shows is that of the polynomial: a
/// polynomial in the variable `var0` alone, whose leading term has its first
/// exponent that is not zero at `found`, or none for `found == nvars`, is a
/// polynomial in the variable `var` alone where that is `found`, or anything
/// for `found == nvars`.
proof fn lemma_variable_found<R: Ring>(ts: Terms<R>, nvars: nat, var0: int, found: int, var: int)
    requires
        canonical(ts, nvars),
        ts.len() > 0,
        0 <= var0 < nvars,
        0 <= var < nvars,
        is_univariate(ts, var0, nvars),
        0 <= found <= nvars,
        found < nvars ==> ts.last().1[found] != 0,
        forall|k: int| 0 <= k < found ==> ts.last().1[k] == 0,
    ensures
        found < nvars ==> found == var0,
        found == nvars || found == var ==> is_univariate(ts, var, nvars),
{
    let last = ts.last();
    assert(last == ts[ts.len() - 1]);
    assert(last.1 == single_variable(nvars, var0, last.1[var0]));
    if found == nvars {
        assert(last.1[var0] == 0);
        assert forall|i: int| 0 <= i < ts.len() implies (#[trigger] ts[i]).1 == single_variable(
            nvars,
            var,
            ts[i].1[var],
        ) by {
            if i < ts.len() - 1 {
                lemma_univariate_increasing(ts, var0, nvars, i, ts.len() - 1);
            }
            assert(ts[i].1 == single_variable(nvars, var0, ts[i].1[var0]));
            assert(ts[i].1 =~= single_variable(nvars, var, ts[i].1[var]));
        }
    } else {
        if found != var0 {
            assert(last.1[found] == 0);
        }
    }
}

} // verus!
