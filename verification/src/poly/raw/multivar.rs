//! Multivariate polynomials with a degree sparse and variable dense
//! representation.

use vstd::prelude::*;
use vstd::slice::{slice_subrange, slice_to_vec};
use crate::error::KernelError;
use crate::poly::exponent::Exponent;
use crate::poly::raw::monomial::Monomial;
use crate::poly::raw::terms::{
    canonical, coefficient_in, lemma_canonical_insert, lemma_canonical_push, is_sum_with_term,
    lemma_canonical_remove, lemma_canonical_update, lemma_coefficient_insert,
    lemma_coefficient_merge, lemma_coefficient_push, lemma_coefficient_wf, lemma_lex_asymmetric,
    lemma_lex_irreflexive, lemma_lex_total, lemma_lex_transitive, lex_less, lex_witness, term_at,
    Terms,
};
use crate::poly::raw::zp::UnsignedInteger;
use crate::poly::ring::Ring;

verus! {

/// How one exponent vector stands to another in canonical order.
#[derive(Clone, Copy, Debug, PartialEq, Eq, Structural)]
pub enum TermOrder {
    Less,
    Equal,
    Greater,
}

/// The numbers that `n` exponents of `flat` store, from position `start` on.
pub open spec fn window<E: Exponent>(flat: Seq<E>, start: int, n: int) -> Seq<nat> {
    Seq::new(n as nat, |k: int| flat[start + k].value())
}

/// The numbers that the exponents of `s` store.
pub open spec fn values<E: Exponent>(s: Seq<E>) -> Seq<nat> {
    window(s, 0, s.len() as int)
}

/// Where the exponents of term `i` lie in the exponent buffer.
pub proof fn lemma_flat_index(i: int, k: int, nterms: int, nvars: int)
    requires
        0 <= i < nterms,
        0 <= k <= nvars,
    ensures
        0 <= i * nvars,
        i * nvars + k <= nterms * nvars,
        k < nvars ==> i * nvars + k < nterms * nvars,
        (i + 1) * nvars == i * nvars + nvars,
        (i - 1) * nvars == i * nvars - nvars,
{
    assert(0 <= i * nvars && (i + 1) * nvars == i * nvars + nvars && (i - 1) * nvars == i * nvars
        - nvars && (i + 1) * nvars <= nterms * nvars) by (nonlinear_arith)
        requires
            0 <= i < nterms,
            0 <= nvars,
    {}
}

/// Compares two exponent vectors of `n` entries, one from position `a_start`
/// of `a` on, one from position `b_start` of `b` on, in canonical order.
pub fn compare_exponents<E: Exponent>(
    a: &[E],
    a_start: usize,
    b: &[E],
    b_start: usize,
    n: usize,
) -> (r: TermOrder)
    requires
        a_start + n <= a@.len(),
        b_start + n <= b@.len(),
    ensures
        r == TermOrder::Less <==> lex_less(
            window(a@, a_start as int, n as int),
            window(b@, b_start as int, n as int),
        ),
        r == TermOrder::Equal <==> window(a@, a_start as int, n as int) == window(
            b@,
            b_start as int,
            n as int,
        ),
        r == TermOrder::Greater <==> lex_less(
            window(b@, b_start as int, n as int),
            window(a@, a_start as int, n as int),
        ),
{
    let ghost wa = window(a@, a_start as int, n as int);
    let ghost wb = window(b@, b_start as int, n as int);
    proof {
        vstd::slice::axiom_spec_len(a);
        vstd::slice::axiom_spec_len(b);
    }
    let mut k: usize = 0;
    while k < n
        invariant
            k <= n,
            a_start + n <= a@.len() <= usize::MAX,
            b_start + n <= b@.len() <= usize::MAX,
            wa == window(a@, a_start as int, n as int),
            wb == window(b@, b_start as int, n as int),
            forall|j: int| 0 <= j < k ==> wa[j] == wb[j],
        decreases n - k,
    {
        let x = a[a_start + k];
        let y = b[b_start + k];
        if x.less(y) {
            proof {
                assert(lex_witness(wa, wb, k as int));
                lemma_lex_asymmetric(wa, wb);
            }
            return TermOrder::Less;
        }
        if y.less(x) {
            proof {
                assert(lex_witness(wb, wa, k as int));
                lemma_lex_asymmetric(wb, wa);
            }
            return TermOrder::Greater;
        }
        k = k + 1;
    }
    proof {
        assert(wa =~= wb);
        lemma_lex_irreflexive(wa);
    }
    TermOrder::Equal
}

/// Multivariate polynomial with a degree sparse and variable dense
/// representation.
///
/// The `i`-th term is stored as `coefficients[i]` and
/// `exponents[i * nvars .. (i + 1) * nvars]`. The terms are sorted by their
/// exponent vectors, in canonical order, and none has the coefficient zero.
#[derive(Clone, Debug, Hash)]
pub struct MultivariatePolynomial<R: Ring, E: Exponent> {
    pub coefficients: Vec<R>,
    pub exponents: Vec<E>,
    pub nterms: usize,
    pub nvars: usize,
}

impl<R: Ring, E: Exponent> View for MultivariatePolynomial<R, E> {
    type V = Terms<R>;

    /// The terms, each a coefficient with the numbers of its exponents.
    open spec fn view(&self) -> Terms<R> {
        Seq::new(self.nterms as nat, |i: int| (self.coefficients@[i], self.term_exponents(i)))
    }
}

impl<R: Ring, E: Exponent> MultivariatePolynomial<R, E> {
    /// The exponent vector of term `i`.
    pub open spec fn term_exponents(&self, i: int) -> Seq<nat> {
        window(self.exponents@, i * self.nvars, self.nvars as int)
    }

    /// The two buffers have the lengths that the number of terms asks for.
    pub open spec fn shaped(&self) -> bool {
        &&& self.coefficients@.len() == self.nterms
        &&& self.exponents@.len() == self.nterms * self.nvars
    }

    /// The invariant of the type: the buffers fit, and the terms are in
    /// canonical form.
    pub open spec fn wf(&self) -> bool {
        &&& self.shaped()
        &&& canonical(self@, self.nvars as nat)
    }

    /// Constructs a zero polynomial.
    pub fn new() -> (r: Self)
        ensures
            r.wf(),
            r.nvars == 0,
            r@ == Terms::<R>::empty(),
    {
        let r = Self { coefficients: Vec::new(), exponents: Vec::new(), nterms: 0, nvars: 0 };
        assert(r@ =~= Terms::<R>::empty());
        r
    }

    /// Constructs a zero polynomial with the given number of variables.
    pub fn with_nvars(nvars: usize) -> (r: Self)
        ensures
            r.wf(),
            r.nvars == nvars,
            r@ == Terms::<R>::empty(),
    {
        let r = Self { coefficients: Vec::new(), exponents: Vec::new(), nterms: 0, nvars: nvars };
        assert(r@ =~= Terms::<R>::empty());
        assert(0 * nvars == 0);
        r
    }

    /// Constructs a zero polynomial with the given number of variables and
    /// room for `cap` terms.
    pub fn with_nvars_and_capacity(nvars: usize, cap: usize) -> (r: Self)
        ensures
            r.wf(),
            r.nvars == nvars,
            r@ == Terms::<R>::empty(),
    {
        let exponents: Vec<E> = match cap.checked_mul(nvars) {
            Some(n) => Vec::with_capacity(n),
            None => Vec::new(),
        };
        let r = Self {
            coefficients: Vec::with_capacity(cap),
            exponents: exponents,
            nterms: 0,
            nvars: nvars,
        };
        assert(r@ =~= Terms::<R>::empty());
        assert(0 * nvars == 0);
        r
    }

    /// Returns the number of terms in the polynomial.
    pub fn nterms(&self) -> (n: usize)
        ensures
            n == self.nterms,
    {
        self.nterms
    }

    /// Returns the number of variables in the polynomial.
    pub fn nvars(&self) -> (n: usize)
        ensures
            n == self.nvars,
    {
        self.nvars
    }

    /// Returns true if the polynomial is zero.
    pub fn is_zero(&self) -> (b: bool)
        ensures
            b == (self.nterms == 0),
    {
        self.nterms == 0
    }

    /// Exponent `k` of term `i`.
    pub fn exponent(&self, i: usize, k: usize) -> (e: E)
        requires
            self.shaped(),
            i < self.nterms,
            k < self.nvars,
        ensures
            e.value() == self@[i as int].1[k as int],
            e == self.exponents@[i * self.nvars + k],
    {
        proof {
            lemma_flat_index(i as int, k as int, self.nterms as int, self.nvars as int);
            assert(self.exponents@.len() == self.exponents.len());
        }
        self.exponents[i * self.nvars + k]
    }

    /// Returns the slice for the exponents of the specified monomial.
    pub fn exponents(&self, index: usize) -> (r: &[E])
        requires
            self.shaped(),
            index < self.nterms,
        ensures
            values(r@) == self@[index as int].1,
            r@ == self.exponents@.subrange(index * self.nvars, index * self.nvars + self.nvars),
    {
        proof {
            lemma_flat_index(index as int, self.nvars as int, self.nterms as int, self.nvars as int);
            assert(self.exponents@.len() == self.exponents.len());
        }
        let start = index * self.nvars;
        let r = slice_subrange(self.exponents.as_slice(), start, start + self.nvars);
        assert(values(r@) =~= self@[index as int].1);
        r
    }

    /// Returns the slice for the exponents of the leading monomial.
    pub fn last_exponents(&self) -> (r: &[E])
        requires
            self.shaped(),
            self.nterms > 0,
        ensures
            values(r@) == self@.last().1,
    {
        self.exponents(self.nterms - 1)
    }

    /// Removes all terms: the polynomial becomes zero, with the number of
    /// variables that it had.
    pub fn clear(&mut self)
        ensures
            final(self).wf(),
            final(self).nvars == old(self).nvars,
            final(self)@ == Terms::<R>::empty(),
    {
        self.nterms = 0;
        self.coefficients.clear();
        self.exponents.clear();
        assert(self@ =~= Terms::<R>::empty());
        assert(0 * self.nvars == 0);
    }

    /// Compares the exponent vector of term `i` with the one that starts at
    /// position `start` of `e`.
    pub fn compare_term(&self, i: usize, e: &[E], start: usize) -> (r: TermOrder)
        requires
            self.shaped(),
            i < self.nterms,
            start + self.nvars <= e@.len(),
        ensures
            r == TermOrder::Less <==> lex_less(
                self@[i as int].1,
                window(e@, start as int, self.nvars as int),
            ),
            r == TermOrder::Equal <==> self@[i as int].1 == window(
                e@,
                start as int,
                self.nvars as int,
            ),
            r == TermOrder::Greater <==> lex_less(
                window(e@, start as int, self.nvars as int),
                self@[i as int].1,
            ),
    {
        proof {
            lemma_flat_index(i as int, self.nvars as int, self.nterms as int, self.nvars as int);
            assert(self.exponents@.len() == self.exponents.len());
        }
        compare_exponents(self.exponents.as_slice(), i * self.nvars, e, start, self.nvars)
    }

    /// Puts the term with the coefficient `c` and the exponents that start at
    /// position `start` of `e` behind the last term, whatever it holds.
    pub fn push_term(&mut self, c: R, e: &[E], start: usize)
        requires
            old(self).shaped(),
            start + old(self).nvars <= e@.len(),
        ensures
            final(self).shaped(),
            final(self).nvars == old(self).nvars,
            final(self)@ == old(self)@.push((c, window(e@, start as int, old(self).nvars as int))),
    {
        let ghost before = *self;
        let nvars = self.nvars;
        proof {
            vstd::slice::axiom_spec_len(e);
        }
        self.coefficients.push(c);
        let mut k: usize = 0;
        while k < nvars
            invariant
                k <= nvars,
                nvars == before.nvars,
                start + nvars <= e@.len() <= usize::MAX,
                self.nvars == before.nvars,
                self.nterms == before.nterms,
                self.coefficients@ == before.coefficients@.push(c),
                self.exponents@.len() == before.exponents@.len() + k,
                forall|j: int|
                    0 <= j < before.exponents@.len() ==> self.exponents@[j]
                        == before.exponents@[j],
                forall|j: int|
                    before.exponents@.len() <= j < before.exponents@.len() + k
                        ==> #[trigger] self.exponents@[j] == e@[start + j - before.exponents@.len()],
            decreases nvars - k,
        {
            self.exponents.push(e[start + k]);
            k = k + 1;
        }
        self.nterms = self.coefficients.len();
        proof {
            let n = before.nterms as int;
            let v = nvars as int;
            assert((n + 1) * v == n * v + v) by (nonlinear_arith);
            let target = before@.push((c, window(e@, start as int, v)));
            assert(self@.len() == target.len());
            assert forall|i: int| 0 <= i < self@.len() implies self@[i] == target[i] by {
                if i < n {
                    lemma_flat_index(i, v, n, v);
                    assert(self.term_exponents(i) =~= before.term_exponents(i));
                } else {
                    assert(self.term_exponents(i) =~= window(e@, start as int, v));
                }
            }
            assert(self@ =~= target);
        }
    }

    /// Puts a term before term `pos`, whatever it holds.
    pub fn insert_term(&mut self, pos: usize, c: R, e: &[E], start: usize)
        requires
            old(self).shaped(),
            pos <= old(self).nterms,
            start + old(self).nvars <= e@.len(),
        ensures
            final(self).shaped(),
            final(self).nvars == old(self).nvars,
            final(self)@ == old(self)@.insert(
                pos as int,
                (c, window(e@, start as int, old(self).nvars as int)),
            ),
    {
        let ghost before = *self;
        let nvars = self.nvars;
        proof {
            let n = before.nterms as int;
            let v = nvars as int;
            assert(0 <= pos * v <= n * v) by (nonlinear_arith)
                requires
                    0 <= pos <= n,
                    0 <= v,
            {}
            assert(self.exponents@.len() == self.exponents.len());
            vstd::slice::axiom_spec_len(e);
        }
        let at = pos * nvars;
        self.coefficients.insert(pos, c);
        let mut tail = self.exponents.split_off(at);
        let mut k: usize = 0;
        while k < nvars
            invariant
                k <= nvars,
                nvars == before.nvars,
                start + nvars <= e@.len() <= usize::MAX,
                at <= before.exponents@.len(),
                self.nvars == before.nvars,
                self.nterms == before.nterms,
                self.coefficients@ == before.coefficients@.insert(pos as int, c),
                self.exponents@.len() == at + k,
                forall|j: int| 0 <= j < at ==> self.exponents@[j] == before.exponents@[j],
                forall|j: int| at <= j < at + k ==> #[trigger] self.exponents@[j] == e@[start + j - at],
            decreases nvars - k,
        {
            self.exponents.push(e[start + k]);
            k = k + 1;
        }
        self.exponents.append(&mut tail);
        self.nterms = self.coefficients.len();
        proof {
            let n = before.nterms as int;
            let v = nvars as int;
            assert((n + 1) * v == n * v + v) by (nonlinear_arith);
            let target = before@.insert(pos as int, (c, window(e@, start as int, v)));
            assert(self@.len() == target.len());
            assert forall|i: int| 0 <= i < self@.len() implies self@[i] == target[i] by {
                if i < pos {
                    lemma_flat_index(i, v, pos as int, v);
                    assert(self.term_exponents(i) =~= before.term_exponents(i));
                } else if i == pos {
                    assert(self.term_exponents(i) =~= window(e@, start as int, v));
                } else {
                    lemma_flat_index(i, v, n + 1, v);
                    lemma_flat_index(pos as int, v, i, v);
                    assert(self.term_exponents(i) =~= before.term_exponents(i - 1));
                }
            }
            assert(self@ =~= target);
        }
    }

    /// Takes term `pos` out.
    pub fn remove_term(&mut self, pos: usize)
        requires
            old(self).shaped(),
            pos < old(self).nterms,
        ensures
            final(self).shaped(),
            final(self).nvars == old(self).nvars,
            final(self)@ == old(self)@.remove(pos as int),
    {
        let ghost before = *self;
        let nvars = self.nvars;
        proof {
            lemma_flat_index(pos as int, nvars as int, before.nterms as int, nvars as int);
            assert(self.exponents@.len() == self.exponents.len());
        }
        let at = pos * nvars;
        self.coefficients.remove(pos);
        let mut tail = self.exponents.split_off(at + nvars);
        self.exponents.truncate(at);
        self.exponents.append(&mut tail);
        self.nterms = self.coefficients.len();
        proof {
            let n = before.nterms as int;
            let v = nvars as int;
            assert((n - 1) * v == n * v - v) by (nonlinear_arith);
            let target = before@.remove(pos as int);
            assert(self@.len() == target.len());
            assert forall|i: int| 0 <= i < self@.len() implies self@[i] == target[i] by {
                if i < pos {
                    lemma_flat_index(i, v, pos as int, v);
                    assert(self.term_exponents(i) =~= before.term_exponents(i));
                } else {
                    lemma_flat_index(i + 1, v, n, v);
                    lemma_flat_index(pos as int, v, i + 1, v);
                    assert(self.term_exponents(i) =~= before.term_exponents(i + 1));
                }
            }
            assert(self@ =~= target);
        }
    }

    /// Replaces the coefficient of term `pos`.
    pub fn set_coefficient(&mut self, pos: usize, c: R)
        requires
            old(self).shaped(),
            pos < old(self).nterms,
        ensures
            final(self).shaped(),
            final(self).nvars == old(self).nvars,
            final(self)@ == old(self)@.update(pos as int, (c, old(self)@[pos as int].1)),
    {
        let ghost before = *self;
        self.coefficients[pos] = c;
        proof {
            let target = before@.update(pos as int, (c, before@[pos as int].1));
            assert forall|i: int| 0 <= i < self@.len() implies self@[i] == target[i] by {
                assert(self.term_exponents(i) =~= before.term_exponents(i));
            }
            assert(self@ =~= target);
        }
    }

    /// Constructs a constant polynomial with the given number of variables.
    pub fn from_constant_with_nvars(constant: R, nvars: usize) -> (r: Self)
        requires
            constant.wf(),
        ensures
            r.wf(),
            r.nvars == nvars,
            r@ == (if constant == R::zero_spec() {
                Terms::<R>::empty()
            } else {
                seq![(constant, Seq::new(nvars as nat, |k: int| 0nat))]
            }),
    {
        if constant.is_zero() {
            return Self::with_nvars(nvars);
        }
        let mut exponents: Vec<E> = Vec::new();
        let mut k: usize = 0;
        while k < nvars
            invariant
                k <= nvars,
                exponents@.len() == k,
                forall|j: int| 0 <= j < k ==> (#[trigger] exponents@[j]).value() == 0,
            decreases nvars - k,
        {
            exponents.push(E::zero());
            k = k + 1;
        }
        let mut coefficients: Vec<R> = Vec::new();
        coefficients.push(constant);
        let r = Self { coefficients: coefficients, exponents: exponents, nterms: 1, nvars: nvars };
        proof {
            assert(1 * nvars == nvars);
            let target = seq![(constant, Seq::new(nvars as nat, |k: int| 0nat))];
            assert(r.term_exponents(0) =~= Seq::new(nvars as nat, |k: int| 0nat));
            assert(r@ =~= target);
        }
        r
    }

    /// Constructs a polynomial with a single term. The number of variables
    /// is the number of exponents.
    pub fn from_monomial(coefficient: R, exponents: Vec<E>) -> (r: Self)
        requires
            coefficient.wf(),
        ensures
            r.wf(),
            r.nvars == exponents@.len(),
            r@ == (if coefficient == R::zero_spec() {
                Terms::<R>::empty()
            } else {
                seq![(coefficient, values(exponents@))]
            }),
    {
        if coefficient.is_zero() {
            return Self::with_nvars(exponents.len());
        }
        let nvars = exponents.len();
        let ghost ev = values(exponents@);
        let mut coefficients: Vec<R> = Vec::new();
        coefficients.push(coefficient);
        let r = Self { coefficients: coefficients, exponents: exponents, nterms: 1, nvars: nvars };
        proof {
            assert(1 * nvars == nvars);
            assert(r.term_exponents(0) =~= ev);
            assert(r@ =~= seq![(coefficient, ev)]);
        }
        r
    }

    /// The polynomial 1, in no variables.
    pub fn one() -> (r: Self)
        ensures
            r.wf(),
            r.nvars == 0,
            r@ == (if R::one_spec() == R::zero_spec() {
                Terms::<R>::empty()
            } else {
                seq![(R::one_spec(), Seq::<nat>::empty())]
            }),
    {
        let r = Self::from_constant_with_nvars(R::one(), 0);
        assert(Seq::new(0nat, |k: int| 0nat) =~= Seq::<nat>::empty());
        r
    }

    /// The polynomial 0, in no variables.
    pub fn zero() -> (r: Self)
        ensures
            r.wf(),
            r.nvars == 0,
            r@ == Terms::<R>::empty(),
    {
        Self::new()
    }

    /// Whether all exponents of term `i` are zero.
    fn term_is_constant(&self, i: usize) -> (b: bool)
        requires
            self.shaped(),
            i < self.nterms,
        ensures
            b == (forall|k: int| 0 <= k < self.nvars ==> self@[i as int].1[k] == 0),
    {
        let mut k: usize = 0;
        while k < self.nvars
            invariant
                self.shaped(),
                i < self.nterms,
                k <= self.nvars,
                forall|j: int| 0 <= j < k ==> self@[i as int].1[j] == 0,
            decreases self.nvars - k,
        {
            if !self.exponent(i, k).is_zero() {
                return false;
            }
            k = k + 1;
        }
        true
    }

    /// Returns true if the polynomial is constant: no term has a variable.
    pub fn is_constant(&self) -> (b: bool)
        requires
            self.wf(),
        ensures
            b == (forall|i: int, k: int|
                0 <= i < self.nterms && 0 <= k < self.nvars ==> (#[trigger] self@[i].1[k]) == 0),
    {
        if self.is_zero() {
            return true;
        }
        if self.nterms >= 2 {
            proof {
                if forall|i: int, k: int|
                    0 <= i < self.nterms && 0 <= k < self.nvars ==> (#[trigger] self@[i].1[k])
                        == 0 {
                    let w = choose|w: int| lex_witness(self@[0].1, self@[1].1, w);
                    assert(self@[0].1[w] == 0);
                    assert(self@[1].1[w] == 0);
                }
            }
            return false;
        }
        self.term_is_constant(0)
    }

    /// The polynomial is the constant 1.
    pub open spec fn is_one_spec(&self) -> bool {
        &&& self.nterms == 1
        &&& self@[0].0 == R::one_spec()
        &&& forall|k: int| 0 <= k < self.nvars ==> self@[0].1[k] == 0
    }

    /// Returns true if the polynomial is the constant 1.
    pub fn is_one(&self) -> (b: bool)
        requires
            self.wf(),
        ensures
            b == self.is_one_spec(),
    {
        if self.nterms != 1 {
            return false;
        }
        assert(self@[0].0.wf());
        self.coefficients[0].is_one() && self.term_is_constant(0)
    }

    /// Append a monomial to the back. It merges with the last monomial if the
    /// exponents are equal. The exponent vector may not be smaller than that
    /// of the last term.
    pub fn append_monomial_back(&mut self, coefficient: R, exponents: &[E])
        requires
            old(self).wf(),
            coefficient.wf(),
            exponents@.len() == old(self).nvars,
            old(self).nterms > 0 ==> !lex_less(values(exponents@), old(self)@.last().1),
        ensures
            final(self).wf(),
            final(self).nvars == old(self).nvars,
            is_sum_with_term(final(self)@, old(self)@, (coefficient, values(exponents@))),
    {
        let ghost before = *self;
        let ghost t = (coefficient, values(exponents@));
        proof {
            R::lemma_constants();
            assert forall|e: Seq<nat>| coefficient_in(before@, e).wf() by {
                lemma_coefficient_wf(before@, e);
            }
            if coefficient == R::zero_spec() {
                assert forall|e: Seq<nat>| #[trigger]
                    coefficient_in(before@, e) == coefficient_in(before@, e).add_spec(term_at(t, e)) by {
                    R::lemma_add_zero(coefficient_in(before@, e));
                }
            }
        }
        if coefficient.is_zero() {
            return ;
        }
        if self.nterms > 0 && self.compare_term(self.nterms - 1, exponents, 0)
            == TermOrder::Equal {
            let pos = self.nterms - 1;
            let sum = self.coefficients[pos].add(coefficient);
            proof {
                lemma_coefficient_merge(before@, pos as int, coefficient);
            }
            if sum.is_zero() {
                self.remove_term(pos);
                proof {
                    lemma_canonical_remove(before@, before.nvars as nat, pos as int);
                }
            } else {
                self.set_coefficient(pos, sum);
                proof {
                    lemma_canonical_update(before@, before.nvars as nat, pos as int, sum);
                }
            }
        } else {
            self.push_term(coefficient, exponents, 0);
            proof {
                if before.nterms > 0 {
                    lemma_lex_total(before@.last().1, t.1);
                }
                lemma_canonical_push(before@, before.nvars as nat, t);
                assert forall|e: Seq<nat>| #[trigger]
                    coefficient_in(self@, e) == coefficient_in(before@, e).add_spec(term_at(t, e)) by {
                    lemma_coefficient_push(before@, t, e);
                }
            }
        }
    }

    /// Appends a monomial to the polynomial: the term is added to the
    /// polynomial, wherever its place among the terms is. A zero coefficient
    /// changes nothing; otherwise the number of exponents must be the number
    /// of variables.
    pub fn append_monomial(&mut self, coefficient: R, exponents: &[E]) -> (r: Result<
        (),
        KernelError,
    >)
        requires
            old(self).wf(),
            coefficient.wf(),
        ensures
            final(self).wf(),
            final(self).nvars == old(self).nvars,
            r is Err <==> coefficient != R::zero_spec() && exponents@.len() != old(self).nvars,
            r matches Err(e) ==> e == KernelError::DimensionMismatch && final(self)@ == old(self)@,
            coefficient == R::zero_spec() ==> final(self)@ == old(self)@,
            r is Ok ==> is_sum_with_term(
                final(self)@,
                old(self)@,
                (coefficient, values(exponents@)),
            ),
    {
        let ghost before = *self;
        let ghost t = (coefficient, values(exponents@));
        let ghost nv = before.nvars as nat;
        proof {
            R::lemma_constants();
            assert forall|e: Seq<nat>| coefficient_in(before@, e).wf() by {
                lemma_coefficient_wf(before@, e);
            }
            if coefficient == R::zero_spec() {
                assert forall|e: Seq<nat>| #[trigger]
                    coefficient_in(before@, e) == coefficient_in(before@, e).add_spec(term_at(t, e)) by {
                    R::lemma_add_zero(coefficient_in(before@, e));
                }
            }
        }
        if coefficient.is_zero() {
            return Ok(());
        }
        if self.nvars != exponents.len() {
            return Err(KernelError::DimensionMismatch);
        }
        // should we append to the back?

        if self.nterms == 0 || self.compare_term(self.nterms - 1, exponents, 0)
            == TermOrder::Less {
            self.push_term(coefficient, exponents, 0);
            proof {
                lemma_canonical_push(before@, nv, t);
                assert forall|e: Seq<nat>| #[trigger]
                    coefficient_in(self@, e) == coefficient_in(before@, e).add_spec(term_at(t, e)) by {
                    lemma_coefficient_push(before@, t, e);
                }
            }
            return Ok(());
        }
        // Binary search to find the insert-point.

        let mut lo: usize = 0;
        let mut hi: usize = self.nterms;
        while lo < hi
            invariant
                *self == before,
                *old(self) == before,
                before.wf(),
                coefficient.wf(),
                coefficient != R::zero_spec(),
                nv == before.nvars,
                exponents@.len() == before.nvars,
                t == (coefficient, values(exponents@)),
                0 <= lo <= hi <= before.nterms,
                forall|i: int| 0 <= i < lo ==> lex_less((#[trigger] before@[i]).1, t.1),
                forall|i: int| hi <= i < before.nterms ==> lex_less(t.1, (#[trigger] before@[i]).1),
            decreases hi - lo,
        {
            let mid = lo + (hi - lo) / 2;
            let c = self.compare_term(mid, exponents, 0);
            if c == TermOrder::Equal {
                // Add the two coefficients.
                let sum = self.coefficients[mid].add(coefficient);
                proof {
                    lemma_coefficient_merge(before@, mid as int, coefficient);
                }
                if sum.is_zero() {
                    // The coefficient becomes zero. Remove this monomial.
                    self.remove_term(mid);
                    proof {
                        lemma_canonical_remove(before@, nv, mid as int);
                    }
                } else {
                    // Set the new coefficient.
                    self.set_coefficient(mid, sum);
                    proof {
                        lemma_canonical_update(before@, nv, mid as int, sum);
                    }
                }
                return Ok(());
            } else if c == TermOrder::Less {
                proof {
                    assert forall|i: int| 0 <= i < mid + 1 implies lex_less(
                        (#[trigger] before@[i]).1,
                        t.1,
                    ) by {
                        if i < mid {
                            assert(lex_less(before@[i].1, before@[mid as int].1));
                            lemma_lex_transitive(before@[i].1, before@[mid as int].1, t.1);
                        }
                    }
                }
                lo = mid + 1;
            } else {
                proof {
                    assert forall|i: int| mid <= i < before.nterms implies lex_less(
                        t.1,
                        (#[trigger] before@[i]).1,
                    ) by {
                        if mid < i {
                            assert(lex_less(before@[mid as int].1, before@[i].1));
                            lemma_lex_transitive(t.1, before@[mid as int].1, before@[i].1);
                        }
                    }
                }
                hi = mid;
            }
        }
        self.insert_term(lo, coefficient, exponents, 0);
        proof {
            lemma_canonical_insert(before@, nv, lo as int, t);
            assert forall|e: Seq<nat>| #[trigger]
                coefficient_in(self@, e) == coefficient_in(before@, e).add_spec(term_at(t, e)) by {
                lemma_coefficient_insert(before@, lo as int, t, e);
            }
        }
        Ok(())
    }
}

impl<R: Ring, E: Exponent> Default for MultivariatePolynomial<R, E> {
    /// The zero polynomial in no variables.
    fn default() -> (r: Self)
        ensures
            r.wf(),
            r.nvars == 0,
            r@ == Terms::<R>::empty(),
    {
        Self::new()
    }
}

/// View object for a term in a multivariate polynomial.
#[derive(Debug)]
pub struct MultivariateMonomialView<'a, R: 'a, E: 'a> {
    pub coefficient: &'a R,
    pub exponents: &'a [E],
}

/// Walks over the terms of a multivariate polynomial, in canonical order.
pub struct MultivariateMonomialViewIterator<'a, R: Ring, E: Exponent> {
    poly: &'a MultivariatePolynomial<R, E>,
    index: usize,
}

impl<'a, R: Ring, E: Exponent> MultivariateMonomialViewIterator<'a, R, E> {
    /// The polynomial that is walked over.
    pub closed spec fn poly(&self) -> MultivariatePolynomial<R, E> {
        *self.poly
    }

    /// The number of terms that were handed out.
    pub closed spec fn index(&self) -> nat {
        self.index as nat
    }

    /// The next term, or `None` behind the last.
    pub fn next(&mut self) -> (r: Option<MultivariateMonomialView<'a, R, E>>)
        requires
            old(self).poly().shaped(),
            old(self).index() <= old(self).poly().nterms,
        ensures
            final(self).poly() == old(self).poly(),
            old(self).index() == old(self).poly().nterms ==> r is None && final(self).index()
                == old(self).index(),
            old(self).index() < old(self).poly().nterms ==> final(self).index() == old(
                self,
            ).index() + 1 && r is Some && *r->Some_0.coefficient == old(self).poly()@[old(
                self,
            ).index() as int].0 && values(r->Some_0.exponents@) == old(self).poly()@[old(
                self,
            ).index() as int].1,
    {
        if self.index == self.poly.nterms {
            None
        } else {
            let view = self.poly.to_monomial_view(self.index);
            self.index = self.index + 1;
            Some(view)
        }
    }
}

impl<R: Ring, E: Exponent> MultivariatePolynomial<R, E> {
    /// Get the ith monomial.
    pub fn to_monomial(&self, i: usize) -> (r: Monomial<R, E>)
        requires
            self.shaped(),
            i < self.nterms,
        ensures
            r@ == self@[i as int],
    {
        Monomial::new(self.coefficients[i], slice_to_vec(self.exponents(i)))
    }

    /// Get the ith monomial.
    pub fn to_monomial_view(&self, i: usize) -> (r: MultivariateMonomialView<'_, R, E>)
        requires
            self.shaped(),
            i < self.nterms,
        ensures
            *r.coefficient == self@[i as int].0,
            values(r.exponents@) == self@[i as int].1,
    {
        MultivariateMonomialView { coefficient: &self.coefficients[i], exponents: self.exponents(i) }
    }

    /// A walk over the terms, from the smallest to the leading term.
    pub fn into_iter(&self) -> (r: MultivariateMonomialViewIterator<'_, R, E>)
        ensures
            r.poly() == *self,
            r.index() == 0,
    {
        MultivariateMonomialViewIterator { poly: self, index: 0 }
    }
}

impl<R: Ring, E: Exponent> MultivariatePolynomial<R, E> {
    /// Check if the polynomial is sorted and has only non-zero coefficients,
    /// and buffers of the lengths that fit its numbers of terms and of
    /// variables.
    pub fn check_consistency(&self) -> (ok: bool)
        requires
            forall|i: int| 0 <= i < self.coefficients@.len() ==> (#[trigger] self.coefficients@[i]).wf(),
        ensures
            ok == self.wf(),
    {
        if self.coefficients.len() != self.nterms {
            return false;
        }
        match self.nterms.checked_mul(self.nvars) {
            Some(n) => {
                if self.exponents.len() != n {
                    return false;
                }
            },
            None => {
                assert(self.exponents@.len() == self.exponents.len());
                return false;
            },
        }
        let mut i: usize = 0;
        while i < self.nterms
            invariant
                self.shaped(),
                forall|i: int|
                    0 <= i < self.coefficients@.len() ==> (#[trigger] self.coefficients@[i]).wf(),
                i <= self.nterms,
                forall|j: int| 0 <= j < i ==> (#[trigger] self@[j]).0 != R::zero_spec(),
            decreases self.nterms - i,
        {
            assert(self.coefficients@[i as int].wf());
            if self.coefficients[i].is_zero() {
                assert(self@[i as int].0 == R::zero_spec());
                return false;
            }
            i = i + 1;
        }
        let mut t: usize = 1;
        while t < self.nterms
            invariant
                self.shaped(),
                1 <= t,
                forall|a: int, b: int|
                    0 <= a < b < t && b < self.nterms ==> lex_less(
                        #[trigger] self@[a].1,
                        #[trigger] self@[b].1,
                    ),
            decreases self.nterms - t,
        {
            proof {
                lemma_flat_index(t as int, self.nvars as int, self.nterms as int, self.nvars as int);
                assert(self.exponents@.len() == self.exponents.len());
            }
            if self.compare_term(t - 1, self.exponents.as_slice(), t * self.nvars)
                != TermOrder::Less {
                assert(!lex_less(self@[t - 1].1, self@[t as int].1));
                return false;
            }
            proof {
                assert forall|a: int, b: int| 0 <= a < b < t + 1 && b < self.nterms implies lex_less(
                    #[trigger] self@[a].1,
                    #[trigger] self@[b].1,
                ) by {
                    if b == t && a < t - 1 {
                        lemma_lex_transitive(self@[a].1, self@[t - 1].1, self@[t as int].1);
                    }
                }
            }
            t = t + 1;
        }
        proof {
            assert forall|i: int| 0 <= i < self@.len() implies (#[trigger] self@[i]).0.wf() by {
                assert(self.coefficients@[i].wf());
            }
        }
        true
    }

    /// Whether two polynomials are the same. Zero is zero, whatever the
    /// number of variables; two polynomials that are not zero must have the
    /// same number of variables.
    pub fn eq(&self, other: &Self) -> (b: bool)
        requires
            self.wf(),
            other.wf(),
            self.nterms == 0 || other.nterms == 0 || self.nvars == other.nvars,
        ensures
            b == (self@ == other@),
    {
        if self.nterms != other.nterms {
            assert(self@.len() != other@.len());
            return false;
        }
        if self.nterms == 0 {
            assert(self@ =~= other@);
            return true;
        }
        let mut i: usize = 0;
        while i < self.nterms
            invariant
                self.wf(),
                other.wf(),
                self.nvars == other.nvars,
                self.nterms == other.nterms,
                i <= self.nterms,
                forall|j: int| 0 <= j < i ==> (#[trigger] self@[j]) == other@[j],
            decreases self.nterms - i,
        {
            assert(self@[i as int].0.wf());
            assert(other@[i as int].0.wf());
            proof {
                lemma_flat_index(i as int, self.nvars as int, self.nterms as int, self.nvars as int);
                assert(other.exponents@.len() == other.exponents.len());
            }
            if !self.coefficients[i].equals(other.coefficients[i]) || self.compare_term(
                i,
                other.exponents.as_slice(),
                i * other.nvars,
            ) != TermOrder::Equal {
                assert(self@[i as int] != other@[i as int]);
                return false;
            }
            i = i + 1;
        }
        assert(self@ =~= other@);
        true
    }
}

} // verus!
