//! Degrees and leading coefficients, in the canonical order of the variables
//! and in any other.

use vstd::prelude::*;
use crate::poly::exponent::Exponent;
use crate::poly::raw::division_theory::lemma_le_transitive;
use crate::poly::raw::multivar::{values, MultivariatePolynomial, TermOrder};
use crate::poly::raw::terms::{
    lemma_lex_asymmetric, lemma_lex_irreflexive, lemma_stands_for_step, lex_less, lex_witness,
    stands_for, Terms,
};
use crate::poly::raw::zp::UnsignedInteger;
use crate::poly::ring::{Ring, GCD};

verus! {

/// `d` is the largest of the numbers `f(i)` for `i` below `n`, or zero
/// where `n` is zero.
pub open spec fn is_max(d: nat, n: nat, f: spec_fn(int) -> nat) -> bool {
    &&& forall|i: int| 0 <= i < n ==> #[trigger] f(i) <= d
    &&& d == 0 || exists|i: int| 0 <= i < n && #[trigger] f(i) == d
}

impl<R: Ring, E: Exponent> MultivariatePolynomial<R, E> {
    /// Get the degree of the variable `x`: its largest exponent, or zero for
    /// the polynomial zero. This operation is O(n).
    pub fn degree(&self, x: usize) -> (d: E)
        requires
            self.shaped(),
            x < self.nvars || self.nterms == 0,
        ensures
            is_max(d.value(), self.nterms as nat, |i: int| self@[i].1[x as int]),
    {
        let ghost f = |i: int| self@[i].1[x as int];
        let mut max = E::zero();
        let mut t: usize = 0;
        while t < self.nterms
            invariant
                self.shaped(),
                x < self.nvars || self.nterms == 0,
                t <= self.nterms,
                f == |i: int| self@[i].1[x as int],
                is_max(max.value(), t as nat, f),
            decreases self.nterms - t,
        {
            let e = self.exponent(t, x);
            assert(f(t as int) == e.value());
            if max.less(e) {
                max = e;
            }
            t = t + 1;
        }
        max
    }

    /// Get the degree of the variable `v` in the leading monomial, or zero
    /// for the polynomial zero.
    pub fn ldegree(&self, v: usize) -> (d: E)
        requires
            self.shaped(),
            v < self.nvars || self.nterms == 0,
        ensures
            d.value() == (if self.nterms == 0 {
                0
            } else {
                self@.last().1[v as int]
            }),
    {
        if self.is_zero() {
            return E::zero();
        }
        self.exponent(self.nterms - 1, v)
    }

    /// Get the highest degree of a variable in the leading monomial, or zero
    /// for the polynomial zero.
    pub fn ldegree_max(&self) -> (d: E)
        requires
            self.shaped(),
        ensures
            self.nterms == 0 ==> d.value() == 0,
            self.nterms > 0 ==> is_max(d.value(), self.nvars as nat, |k: int| self@.last().1[k]),
    {
        if self.is_zero() {
            return E::zero();
        }
        let last = self.nterms - 1;
        let ghost f = |k: int| self@.last().1[k];
        let mut max = E::zero();
        let mut k: usize = 0;
        while k < self.nvars
            invariant
                self.shaped(),
                self.nterms > 0,
                last == self.nterms - 1,
                k <= self.nvars,
                f == |k: int| self@.last().1[k],
                is_max(max.value(), k as nat, f),
            decreases self.nvars - k,
        {
            let e = self.exponent(last, k);
            assert(f(k as int) == e.value());
            if max.less(e) {
                max = e;
            }
            k = k + 1;
        }
        max
    }

    /// Get the leading coefficient, or zero for the polynomial zero.
    pub fn lcoeff(&self) -> (c: R)
        requires
            self.shaped(),
        ensures
            c == (if self.nterms == 0 {
                R::zero_spec()
            } else {
                self@.last().0
            }),
    {
        if self.is_zero() {
            return R::zero();
        }
        self.coefficients[self.nterms - 1]
    }
}

/// The entries of the exponent vector `e` for the variables `vars`, in the
/// order of `vars`.
pub open spec fn projected(e: Seq<nat>, vars: Seq<usize>) -> Seq<nat> {
    Seq::new(vars.len(), |k: int| e[vars[k] as int])
}

/// Term `i` is the leading term where the variables are compared in the
/// order of `vars`: no term is larger, and the terms behind it are smaller.
pub open spec fn is_leading<R: Ring>(ts: Terms<R>, i: int, vars: Seq<usize>) -> bool {
    &&& 0 <= i < ts.len()
    &&& forall|j: int|
        0 <= j < ts.len() ==> !lex_less(projected(ts[i].1, vars), projected(#[trigger] ts[j].1, vars))
    &&& forall|j: int|
        i < j < ts.len() ==> lex_less(projected(#[trigger] ts[j].1, vars), projected(ts[i].1, vars))
}

/// The exponent vector of `nvars` entries that is `d` for the variable `n`
/// and zero for every other.
pub open spec fn single_variable(nvars: nat, n: int, d: nat) -> Seq<nat> {
    Seq::new(nvars, |j: int| if j == n { d } else { 0nat })
}

/// The exponent vectors `e` and `last` are the same for all variables but
/// the last one and the variable `n`.
pub open spec fn agrees(e: Seq<nat>, last: Seq<nat>, n: int) -> bool {
    forall|i: int| 0 <= i < last.len() - 1 && i != n ==> e[i] == last[i]
}

/// The terms of `ts` from term `s` on, the last one first, each as a term in
/// the variable `n` alone.
pub open spec fn last_terms<R: Ring>(ts: Terms<R>, s: int, n: int, nvars: nat) -> Terms<R> {
    Seq::new(
        (ts.len() - s) as nat,
        |k: int| (ts[ts.len() - 1 - k].0, single_variable(nvars, n, ts[ts.len() - 1 - k].1[n])),
    )
}

impl<R: Ring, E: Exponent> MultivariatePolynomial<R, E> {
    /// Compares the terms `i` and `j` by their exponents of the variables
    /// `vars`, the first of them most significant.
    pub fn compare_in_order(&self, i: usize, j: usize, vars: &[usize]) -> (r: TermOrder)
        requires
            self.shaped(),
            i < self.nterms,
            j < self.nterms,
            forall|k: int| 0 <= k < vars@.len() ==> (#[trigger] vars@[k]) < self.nvars,
        ensures
            r == TermOrder::Less <==> lex_less(
                projected(self@[i as int].1, vars@),
                projected(self@[j as int].1, vars@),
            ),
            r == TermOrder::Equal <==> projected(self@[i as int].1, vars@) == projected(
                self@[j as int].1,
                vars@,
            ),
            r == TermOrder::Greater <==> lex_less(
                projected(self@[j as int].1, vars@),
                projected(self@[i as int].1, vars@),
            ),
    {
        let ghost pa = projected(self@[i as int].1, vars@);
        let ghost pb = projected(self@[j as int].1, vars@);
        proof {
            vstd::slice::axiom_spec_len(vars);
        }
        let mut k: usize = 0;
        while k < vars.len()
            invariant
                self.shaped(),
                i < self.nterms,
                j < self.nterms,
                forall|k: int| 0 <= k < vars@.len() ==> (#[trigger] vars@[k]) < self.nvars,
                k <= vars@.len(),
                pa == projected(self@[i as int].1, vars@),
                pb == projected(self@[j as int].1, vars@),
                forall|l: int| 0 <= l < k ==> pa[l] == pb[l],
            decreases vars@.len() - k,
        {
            let v = vars[k];
            let x = self.exponent(i, v);
            let y = self.exponent(j, v);
            if x.less(y) {
                proof {
                    assert(lex_witness(pa, pb, k as int));
                    lemma_lex_asymmetric(pa, pb);
                }
                return TermOrder::Less;
            }
            if y.less(x) {
                proof {
                    assert(lex_witness(pb, pa, k as int));
                    lemma_lex_asymmetric(pb, pa);
                }
                return TermOrder::Greater;
            }
            k = k + 1;
        }
        proof {
            assert(pa =~= pb);
            lemma_lex_irreflexive(pa);
        }
        TermOrder::Equal
    }

    /// The index of the leading term under the variable ordering `vars`.
    pub fn leading_term(&self, vars: &[usize]) -> (best: usize)
        requires
            self.shaped(),
            self.nterms > 0,
            forall|k: int| 0 <= k < vars@.len() ==> (#[trigger] vars@[k]) < self.nvars,
        ensures
            is_leading(self@, best as int, vars@),
    {
        let ghost ts = self@;
        let ghost vs = vars@;
        let mut best: usize = 0;
        let mut t: usize = 1;
        proof {
            lemma_lex_irreflexive(projected(ts[0].1, vs));
        }
        while t < self.nterms
            invariant
                self.shaped(),
                ts == self@,
                vs == vars@,
                forall|k: int| 0 <= k < vars@.len() ==> (#[trigger] vars@[k]) < self.nvars,
                best < t <= self.nterms,
                forall|j: int|
                    0 <= j < t ==> !lex_less(
                        projected(ts[best as int].1, vs),
                        projected(#[trigger] ts[j].1, vs),
                    ),
                forall|j: int|
                    best < j < t ==> lex_less(
                        projected(#[trigger] ts[j].1, vs),
                        projected(ts[best as int].1, vs),
                    ),
            decreases self.nterms - t,
        {
            let c = self.compare_in_order(t, best, vars);
            if c != TermOrder::Less {
                proof {
                    let pt = projected(ts[t as int].1, vs);
                    let pb = projected(ts[best as int].1, vs);
                    lemma_lex_irreflexive(pt);
                    assert forall|j: int| 0 <= j < t + 1 implies !lex_less(
                        pt,
                        projected(#[trigger] ts[j].1, vs),
                    ) by {
                        if j < t {
                            lemma_le_transitive(projected(ts[j].1, vs), pb, pt);
                        }
                    }
                }
                best = t;
            } else {
                proof {
                    lemma_lex_asymmetric(
                        projected(ts[t as int].1, vs),
                        projected(ts[best as int].1, vs),
                    );
                }
            }
            t = t + 1;
        }
        best
    }

    /// Get the leading coefficient under a given variable ordering: the
    /// coefficient of the term whose exponents of the variables `vars`, the
    /// first of them most significant, are the largest; of the last such
    /// term, where there are several. Zero for the polynomial zero. This
    /// operation is O(n).
    pub fn lcoeff_varorder(&self, vars: &[usize]) -> (c: R)
        requires
            self.shaped(),
            self.nterms == 0 || forall|k: int|
                0 <= k < vars@.len() ==> (#[trigger] vars@[k]) < self.nvars,
        ensures
            self.nterms == 0 ==> c == R::zero_spec(),
            self.nterms > 0 ==> exists|i: int| is_leading(self@, i, vars@) && c == self@[i].0,
    {
        if self.is_zero() {
            return R::zero();
        }
        let best = self.leading_term(vars);
        self.coefficients[best]
    }

    /// Get the leading coefficient viewed as a polynomial in the variable
    /// `n`, which should be the last one: the terms from the leading term
    /// down that have the exponents of the leading term for all variables
    /// but the last one and `n`, each with only its exponent of `n` left.
    /// For the polynomial zero that is zero, in no variables.
    pub fn lcoeff_last(&self, n: usize) -> (r: Self)
        requires
            self.wf(),
            n < self.nvars || self.nterms == 0,
        ensures
            r.wf(),
            self.nterms == 0 ==> r.nvars == 0 && r@ == Terms::<R>::empty(),
            self.nterms > 0 ==> r.nvars == self.nvars && exists|s: int|
                {
                    &&& 0 <= s < self.nterms
                    &&& forall|t: int|
                        s <= t < self.nterms ==> agrees(
                            (#[trigger] self@[t]).1,
                            self@.last().1,
                            n as int,
                        )
                    &&& s > 0 ==> !agrees(self@[s - 1].1, self@.last().1, n as int)
                    &&& stands_for(r@, last_terms(self@, s, n as int, self.nvars as nat))
                },
    {
        if self.is_zero() {
            return Self::zero();
        }
        let nvars = self.nvars;
        let ghost ts = self@;
        let ghost last = ts.last().1;
        let top = self.nterms - 1;
        let mut res = Self::with_nvars(nvars);
        let mut e = Self::zero_exponents(nvars);
        let mut t: usize = self.nterms;
        let mut going = true;
        proof {
            assert(ts.last() == ts[top as int]);
            assert(last_terms(ts, t as int, n as int, nvars as nat) =~= Terms::<R>::empty());
        }
        while going && t > 0
            invariant
                going || (0 < t < self.nterms && !agrees(ts[t - 1].1, last, n as int)),
                self.wf(),
                ts == self@,
                last == ts.last().1,
                top == self.nterms - 1,
                nvars == self.nvars,
                n < nvars,
                0 <= t <= self.nterms,
                res.wf(),
                res.nvars == nvars,
                e@.len() == nvars,
                forall|k: int| 0 <= k < nvars ==> (#[trigger] e@[k]).value() == 0,
                forall|u: int| t <= u < self.nterms ==> agrees((#[trigger] ts[u]).1, last, n as int),
                stands_for(res@, last_terms(ts, t as int, n as int, nvars as nat)),
            decreases t, (if going { 1nat } else { 0nat }),
        {
            let u = t - 1;
            // does the term have the exponents of the leading term?
            let mut same = true;
            let mut i: usize = 0;
            while i < nvars - 1
                invariant
                    self.wf(),
                    ts == self@,
                    last == ts.last().1,
                    top == self.nterms - 1,
                    nvars == self.nvars,
                    u < self.nterms,
                    i <= nvars - 1,
                    same == (forall|l: int| 0 <= l < i && l != n ==> ts[u as int].1[l] == last[l]),
                decreases nvars - 1 - i,
            {
                if i != n && !self.exponent(u, i).equals(self.exponent(top, i)) {
                    same = false;
                }
                i = i + 1;
            }
            if !same {
                proof {
                    if t == self.nterms {
                        assert(ts[u as int] == ts.last());
                    }
                }
                going = false;
            } else {
                let ghost before = res@;
                let ghost done = last_terms(ts, t as int, n as int, nvars as nat);
                e[n] = self.exponent(u, n);
                assert(ts[u as int].0.wf());
                let appended = res.append_monomial(self.coefficients[u], e.as_slice());
                proof {
                    let x = (
                        ts[u as int].0,
                        single_variable(nvars as nat, n as int, ts[u as int].1[n as int]),
                    );
                    assert(values(e@) =~= x.1);
                    assert(last_terms(ts, u as int, n as int, nvars as nat) =~= done.push(x));
                    lemma_stands_for_step(before, res@, done, x);
                }
                e[n] = E::zero();
                t = u;
            }
        }
        proof {
            assert(t < self.nterms) by {
                if t == self.nterms {
                    assert(going);
                }
            }
        }
        res
    }
}

/// The greatest common divisor of the elements of `cs`, taken from the
/// first on; zero for none.
pub open spec fn content_of<R: GCD>(cs: Seq<R>) -> R
    decreases cs.len(),
{
    if cs.len() == 0 {
        R::zero_spec()
    } else if cs.len() == 1 {
        cs[0]
    } else {
        R::gcd_spec(content_of(cs.drop_last()), cs.last())
    }
}

impl<R: GCD, E: Exponent> MultivariatePolynomial<R, E> {
    /// Get the content from the coefficients: their greatest common divisor.
    pub fn content(&self) -> (c: R)
        requires
            self.wf(),
        ensures
            c == content_of(self.coefficients@),
    {
        if self.coefficients.len() == 0 {
            return R::zero();
        }
        let ghost cs = self.coefficients@;
        assert(self@[0].0.wf());
        let mut c = self.coefficients[0];
        let mut i: usize = 1;
        assert(cs.subrange(0, 1).len() == 1);
        while i < self.coefficients.len()
            invariant
                self.wf(),
                cs == self.coefficients@,
                1 <= i <= cs.len(),
                c.wf(),
                c == content_of(cs.subrange(0, i as int)),
            decreases cs.len() - i,
        {
            assert(self@[i as int].0.wf());
            proof {
                let next = cs.subrange(0, i + 1);
                assert(next.drop_last() =~= cs.subrange(0, i as int));
                assert(next.last() == cs[i as int]);
            }
            c = R::gcd(c, self.coefficients[i]);
            i = i + 1;
        }
        assert(cs.subrange(0, cs.len() as int) =~= cs);
        c
    }
}

} // verus!
