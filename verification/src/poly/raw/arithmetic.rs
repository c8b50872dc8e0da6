//! The ring operations on polynomials: sum, negation, difference, product,
//! and the products and sums with a single ring element.

use vstd::prelude::*;
use crate::error::KernelError;
use crate::poly::exponent::Exponent;
use crate::poly::raw::multivar::{lemma_flat_index, values, window, MultivariatePolynomial, TermOrder};
use crate::poly::raw::terms::{
    canonical, coefficient_in, is_product, is_scaled, is_shifted, is_sum, is_sum_with_term,
    lemma_canonical_negated, lemma_canonical_push, lemma_canonical_wf, lemma_coefficient_wf,
    lemma_lex_add, lemma_lex_transitive, lemma_merge_both, lemma_merge_left, lemma_merge_right,
    lemma_merge_start, lemma_prefix_step, lemma_prefix_whole, lemma_scale_step, lemma_shift_step,
    lex_less, negated, product_coefficient, product_overflows, shift_overflows, shifted, vec_add,
    Terms,
};
use crate::poly::raw::zp::UnsignedInteger;
use crate::poly::ring::{lemma_mul_zero, lemma_zero_add, Ring};

verus! {

impl<R: Ring, E: Exponent> MultivariatePolynomial<R, E> {
    /// Where the exponents of term `i` start in the exponent buffer.
    pub fn offset(&self, i: usize) -> (r: usize)
        requires
            self.shaped(),
            i < self.nterms,
        ensures
            r == i * self.nvars,
            r + self.nvars <= self.exponents@.len(),
            window(self.exponents@, r as int, self.nvars as int) == self@[i as int].1,
    {
        proof {
            lemma_flat_index(i as int, self.nvars as int, self.nterms as int, self.nvars as int);
            assert(self.exponents@.len() == self.exponents.len());
        }
        i * self.nvars
    }

    /// A copy of the polynomial.
    pub fn duplicate(&self) -> (r: Self)
        requires
            self.shaped(),
        ensures
            r.shaped(),
            r.nvars == self.nvars,
            r@ == self@,
    {
        let mut out = Self::with_nvars_and_capacity(self.nvars, self.nterms);
        let mut i: usize = 0;
        while i < self.nterms
            invariant
                self.shaped(),
                out.shaped(),
                out.nvars == self.nvars,
                i <= self.nterms,
                out@ == self@.subrange(0, i as int),
            decreases self.nterms - i,
        {
            let at = self.offset(i);
            out.push_term(self.coefficients[i], self.exponents.as_slice(), at);
            proof {
                lemma_prefix_step(self@, i as int);
            }
            i = i + 1;
        }
        proof {
            lemma_prefix_whole(self@);
        }
        out
    }

    /// The sum of two polynomials, by a merge of their term lists. A zero
    /// operand gives a copy of the other, whatever their numbers of
    /// variables; two non-zero operands must have the same number.
    pub fn add(&self, other: &Self) -> (r: Result<Self, KernelError>)
        requires
            self.wf(),
            other.wf(),
        ensures
            r is Err <==> self.nterms != 0 && other.nterms != 0 && self.nvars != other.nvars,
            r matches Err(e) ==> e == KernelError::DimensionMismatch,
            r matches Ok(p) ==> {
                &&& p.wf()
                &&& p.nvars == (if self.nterms == 0 {
                    other.nvars
                } else {
                    self.nvars
                })
                &&& is_sum(p@, self@, other@)
            },
    {
        proof {
            R::lemma_constants();
            lemma_canonical_wf(self@, self.nvars as nat);
            lemma_canonical_wf(other@, other.nvars as nat);
        }
        if self.is_zero() {
            proof {
                assert(self@ =~= Terms::<R>::empty());
                assert forall|e: Seq<nat>| #[trigger]
                    coefficient_in(other@, e) == coefficient_in(self@, e).add_spec(
                        coefficient_in(other@, e),
                    ) by {
                    lemma_coefficient_wf(other@, e);
                    lemma_zero_add(coefficient_in(other@, e));
                }
            }
            return Ok(other.duplicate());
        }
        if other.is_zero() {
            proof {
                assert(other@ =~= Terms::<R>::empty());
                assert forall|e: Seq<nat>| #[trigger]
                    coefficient_in(self@, e) == coefficient_in(self@, e).add_spec(
                        coefficient_in(other@, e),
                    ) by {
                    lemma_coefficient_wf(self@, e);
                    R::lemma_add_zero(coefficient_in(self@, e));
                }
            }
            return Ok(self.duplicate());
        }
        if self.nvars != other.nvars {
            return Err(KernelError::DimensionMismatch);
        }
        // Merge the two polynomials, which are sorted.

        let nvars = self.nvars;
        let ghost nv = nvars as nat;
        let mut out = Self::with_nvars_and_capacity(nvars, self.nterms);
        let mut i: usize = 0;
        let mut j: usize = 0;
        proof {
            lemma_merge_start::<R>();
            lemma_prefix_whole(self@);
            lemma_prefix_whole(other@);
        }
        while i < self.nterms || j < other.nterms
            invariant
                self.wf(),
                other.wf(),
                nvars == self.nvars,
                nvars == other.nvars,
                nv == nvars,
                out.shaped(),
                out.nvars == nvars,
                canonical(out@, nv),
                i <= self.nterms,
                j <= other.nterms,
                is_sum(out@, self@.subrange(0, i as int), other@.subrange(0, j as int)),
                out@.len() > 0 && i < self.nterms ==> lex_less(out@.last().1, self@[i as int].1),
                out@.len() > 0 && j < other.nterms ==> lex_less(
                    out@.last().1,
                    other@[j as int].1,
                ),
            decreases (self.nterms - i) + (other.nterms - j),
        {
            let ghost before = out@;
            let ghost a = self@.subrange(0, i as int);
            let ghost b = other@.subrange(0, j as int);
            proof {
                lemma_canonical_wf(self@, nv);
                lemma_canonical_wf(other@, nv);
                if i < self.nterms {
                    lemma_prefix_step(self@, i as int);
                    assert(self@[i as int].0.wf());
                    if i + 1 < self.nterms {
                        assert(lex_less(self@[i as int].1, self@[i + 1].1));
                    }
                }
                if j < other.nterms {
                    lemma_prefix_step(other@, j as int);
                    assert(other@[j as int].0.wf());
                    if j + 1 < other.nterms {
                        assert(lex_less(other@[j as int].1, other@[j + 1].1));
                    }
                }
            }
            let order = if i == self.nterms {
                TermOrder::Greater
            } else if j == other.nterms {
                TermOrder::Less
            } else {
                let at = other.offset(j);
                self.compare_term(i, other.exponents.as_slice(), at)
            };
            if order == TermOrder::Less {
                let at = self.offset(i);
                out.push_term(self.coefficients[i], self.exponents.as_slice(), at);
                proof {
                    lemma_canonical_push(before, nv, self@[i as int]);
                    lemma_merge_left(before, a, b, self@[i as int]);
                    if before.len() > 0 && i + 1 < self.nterms {
                        lemma_lex_transitive(
                            before.last().1,
                            self@[i as int].1,
                            self@[i + 1].1,
                        );
                    }
                }
                i = i + 1;
            } else if order == TermOrder::Greater {
                let at = other.offset(j);
                out.push_term(other.coefficients[j], other.exponents.as_slice(), at);
                proof {
                    lemma_canonical_push(before, nv, other@[j as int]);
                    lemma_merge_right(before, a, b, other@[j as int]);
                    if before.len() > 0 && j + 1 < other.nterms {
                        lemma_lex_transitive(
                            before.last().1,
                            other@[j as int].1,
                            other@[j + 1].1,
                        );
                    }
                }
                j = j + 1;
            } else {
                let sum = self.coefficients[i].add(other.coefficients[j]);
                proof {
                    lemma_merge_both(before, a, b, self@[i as int], other@[j as int]);
                    if before.len() > 0 {
                        if i + 1 < self.nterms {
                            lemma_lex_transitive(
                                before.last().1,
                                self@[i as int].1,
                                self@[i + 1].1,
                            );
                        }
                        if j + 1 < other.nterms {
                            lemma_lex_transitive(
                                before.last().1,
                                other@[j as int].1,
                                other@[j + 1].1,
                            );
                        }
                    }
                }
                if !sum.is_zero() {
                    let at = self.offset(i);
                    out.push_term(sum, self.exponents.as_slice(), at);
                    proof {
                        lemma_canonical_push(before, nv, (sum, self@[i as int].1));
                    }
                }
                i = i + 1;
                j = j + 1;
            }
        }
        proof {
            lemma_prefix_whole(self@);
            lemma_prefix_whole(other@);
        }
        Ok(out)
    }

    /// The polynomial with every coefficient negated.
    pub fn neg(&self) -> (r: Self)
        requires
            self.wf(),
        ensures
            r.wf(),
            r.nvars == self.nvars,
            r@ == negated(self@),
    {
        let mut out = Self::with_nvars_and_capacity(self.nvars, self.nterms);
        let mut i: usize = 0;
        while i < self.nterms
            invariant
                self.wf(),
                out.shaped(),
                out.nvars == self.nvars,
                i <= self.nterms,
                out@ == negated(self@).subrange(0, i as int),
            decreases self.nterms - i,
        {
            let at = self.offset(i);
            assert(self@[i as int].0.wf());
            out.push_term(self.coefficients[i].neg(), self.exponents.as_slice(), at);
            proof {
                lemma_prefix_step(negated(self@), i as int);
            }
            i = i + 1;
        }
        proof {
            lemma_prefix_whole(negated(self@));
            lemma_canonical_negated(self@, self.nvars as nat);
            if self.nterms == 0 {
                assert(out@ =~= negated(self@));
            }
        }
        out
    }

    /// The difference of two polynomials: the sum of the first and the
    /// negation of the second.
    pub fn sub(&self, other: &Self) -> (r: Result<Self, KernelError>)
        requires
            self.wf(),
            other.wf(),
        ensures
            r is Err <==> self.nterms != 0 && other.nterms != 0 && self.nvars != other.nvars,
            r matches Err(e) ==> e == KernelError::DimensionMismatch,
            r matches Ok(p) ==> {
                &&& p.wf()
                &&& p.nvars == (if self.nterms == 0 {
                    other.nvars
                } else {
                    self.nvars
                })
                &&& is_sum(p@, self@, negated(other@))
            },
    {
        let n = other.neg();
        assert(n@.len() == other@.len());
        self.add(&n)
    }

    /// The polynomial with every coefficient multiplied by `c`. A term whose
    /// product is zero is dropped.
    pub fn mul_scalar(&self, c: R) -> (r: Self)
        requires
            self.wf(),
            c.wf(),
        ensures
            r.wf(),
            r.nvars == self.nvars,
            is_scaled(r@, self@, c),
    {
        let ghost nv = self.nvars as nat;
        let mut out = Self::with_nvars_and_capacity(self.nvars, self.nterms);
        let mut i: usize = 0;
        proof {
            R::lemma_constants();
            lemma_prefix_whole(self@);
            lemma_mul_zero(c);
        }
        while i < self.nterms
            invariant
                self.wf(),
                c.wf(),
                nv == self.nvars,
                out.shaped(),
                out.nvars == self.nvars,
                canonical(out@, nv),
                i <= self.nterms,
                is_scaled(out@, self@.subrange(0, i as int), c),
                out@.len() > 0 && i < self.nterms ==> lex_less(out@.last().1, self@[i as int].1),
            decreases self.nterms - i,
        {
            let ghost before = out@;
            proof {
                lemma_canonical_wf(self@, nv);
                lemma_prefix_step(self@, i as int);
                assert(self@[i as int].0.wf());
                lemma_scale_step(before, self@.subrange(0, i as int), c, self@[i as int]);
                if i + 1 < self.nterms {
                    assert(lex_less(self@[i as int].1, self@[i + 1].1));
                    if before.len() > 0 {
                        lemma_lex_transitive(
                            before.last().1,
                            self@[i as int].1,
                            self@[i + 1].1,
                        );
                    }
                }
            }
            let product = self.coefficients[i].mul(c);
            if !product.is_zero() {
                let at = self.offset(i);
                out.push_term(product, self.exponents.as_slice(), at);
                proof {
                    lemma_canonical_push(before, nv, (product, self@[i as int].1));
                }
            }
            i = i + 1;
        }
        proof {
            lemma_prefix_whole(self@);
        }
        out
    }

    /// The polynomial plus the constant `c`.
    pub fn add_scalar(&self, c: R) -> (r: Self)
        requires
            self.wf(),
            c.wf(),
        ensures
            r.wf(),
            r.nvars == self.nvars,
            is_sum_with_term(r@, self@, (c, Seq::new(self.nvars as nat, |k: int| 0nat))),
    {
        let mut zeros: Vec<E> = Vec::new();
        let mut k: usize = 0;
        while k < self.nvars
            invariant
                k <= self.nvars,
                zeros@.len() == k,
                forall|j: int| 0 <= j < k ==> (#[trigger] zeros@[j]).value() == 0,
            decreases self.nvars - k,
        {
            zeros.push(E::zero());
            k = k + 1;
        }
        let mut out = self.duplicate();
        let appended = out.append_monomial(c, zeros.as_slice());
        proof {
            assert(values(zeros@) =~= Seq::new(self.nvars as nat, |k: int| 0nat));
        }
        out
    }

    /// The polynomial times the monomial with the coefficient `c` and the
    /// exponents `m`. A term whose coefficient becomes zero is dropped. Fails
    /// where the sum of two exponents does not fit the exponent type.
    pub fn mul_monomial(&self, c: R, m: &[E]) -> (r: Result<Self, KernelError>)
        requires
            self.wf(),
            c.wf(),
            m@.len() == self.nvars,
        ensures
            r is Err <==> shift_overflows(self@, values(m@), E::max()),
            r matches Err(e) ==> e == KernelError::Overflow,
            r matches Ok(p) ==> {
                &&& p.wf()
                &&& p.nvars == self.nvars
                &&& is_shifted(p@, self@, (c, values(m@)))
            },
    {
        let ghost nv = self.nvars as nat;
        let ghost t = (c, values(m@));
        let nvars = self.nvars;
        let mut out = Self::with_nvars_and_capacity(self.nvars, self.nterms);
        let mut i: usize = 0;
        proof {
            R::lemma_constants();
            lemma_prefix_whole(self@);
            assert(shifted(Terms::<R>::empty(), t) =~= Terms::<R>::empty());
        }
        while i < self.nterms
            invariant
                self.wf(),
                c.wf(),
                nv == self.nvars,
                nvars == self.nvars,
                m@.len() == nvars,
                t == (c, values(m@)),
                out.shaped(),
                out.nvars == self.nvars,
                canonical(out@, nv),
                i <= self.nterms,
                is_shifted(out@, self@.subrange(0, i as int), t),
                out@.len() > 0 && i < self.nterms ==> lex_less(
                    out@.last().1,
                    vec_add(self@[i as int].1, t.1),
                ),
                forall|i0: int, k0: int|
                    0 <= i0 < i && 0 <= k0 < nvars ==> (#[trigger] self@[i0].1[k0]) + t.1[k0]
                        <= E::max(),
            decreases self.nterms - i,
        {
            let ghost before = out@;
            let ghost x = self@[i as int];
            // the exponents of the product
            let mut sum: Vec<E> = Vec::new();
            let mut k: usize = 0;
            while k < nvars
                invariant
                    self.wf(),
                    i < self.nterms,
                    nvars == self.nvars,
                    m@.len() == nvars,
                    t.1 == values(m@),
                    x == self@[i as int],
                    k <= nvars,
                    sum@.len() == k,
                    forall|j: int| 0 <= j < k ==> (#[trigger] sum@[j]).value() == x.1[j] + t.1[j],
                    forall|j: int| 0 <= j < k ==> x.1[j] + t.1[j] <= E::max(),
                decreases nvars - k,
            {
                match self.exponent(i, k).checked_add(m[k]) {
                    Some(s) => {
                        sum.push(s);
                    },
                    None => {
                        proof {
                            assert(self@[i as int].1[k as int] + values(m@)[k as int] > E::max());
                        }
                        return Err(KernelError::Overflow);
                    },
                }
                k = k + 1;
            }
            proof {
                lemma_canonical_wf(self@, nv);
                lemma_prefix_step(self@, i as int);
                assert(x.0.wf());
                assert(values(sum@) =~= vec_add(x.1, t.1));
                lemma_shift_step(before, self@.subrange(0, i as int), t, x);
                if i + 1 < self.nterms {
                    assert(lex_less(self@[i as int].1, self@[i + 1].1));
                    lemma_lex_add(self@[i as int].1, self@[i + 1].1, t.1);
                    if before.len() > 0 {
                        lemma_lex_transitive(
                            before.last().1,
                            vec_add(self@[i as int].1, t.1),
                            vec_add(self@[i + 1].1, t.1),
                        );
                    }
                }
            }
            let product = self.coefficients[i].mul(c);
            if !product.is_zero() {
                out.push_term(product, sum.as_slice(), 0);
                proof {
                    lemma_canonical_push(before, nv, (product, vec_add(x.1, t.1)));
                }
            }
            i = i + 1;
        }
        proof {
            lemma_prefix_whole(self@);
            if shift_overflows(self@, values(m@), E::max()) {
                let (i0, k0) = choose|i0: int, k0: int|
                    0 <= i0 < self@.len() && 0 <= k0 < values(m@).len() && (
                    #[trigger] self@[i0].1[k0]) + values(m@)[k0] > E::max();
                assert(self@[i0].1[k0] + t.1[k0] <= E::max());
            }
        }
        Ok(out)
    }

    /// The product of two polynomials: for every term of `other`, `self`
    /// times that term, all summed up. A zero operand gives zero, with the
    /// number of variables of the other operand; two non-zero operands must
    /// have the same number of variables, and the sums of their exponents
    /// must fit the exponent type.
    pub fn mul(&self, other: &Self) -> (r: Result<Self, KernelError>)
        requires
            self.wf(),
            other.wf(),
        ensures
            self.nterms == 0 ==> r is Ok && r->Ok_0.nvars == other.nvars,
            self.nterms != 0 && other.nterms == 0 ==> r is Ok && r->Ok_0.nvars == self.nvars,
            self.nterms != 0 && other.nterms != 0 ==> {
                &&& r is Err <==> self.nvars != other.nvars || product_overflows(
                    self@,
                    other@,
                    E::max(),
                )
                &&& r == Err::<Self, KernelError>(KernelError::DimensionMismatch) <==> self.nvars
                    != other.nvars
                &&& r matches Err(e) ==> e == KernelError::DimensionMismatch || e
                    == KernelError::Overflow
                &&& r matches Ok(p) ==> p.nvars == self.nvars
            },
            r matches Ok(p) ==> p.wf() && is_product(p@, self@, other@),
    {
        proof {
            R::lemma_constants();
            lemma_canonical_wf(self@, self.nvars as nat);
            lemma_canonical_wf(other@, other.nvars as nat);
        }
        if self.is_zero() {
            proof {
                assert(self@ =~= Terms::<R>::empty());
                assert forall|e: Seq<nat>| #[trigger]
                    coefficient_in(Terms::<R>::empty(), e) == product_coefficient(
                        self@,
                        other@,
                        e,
                    ) by {
                    lemma_product_of_zero(other@, e);
                }
            }
            return Ok(Self::with_nvars(other.nvars));
        }
        if other.is_zero() {
            proof {
                assert(other@ =~= Terms::<R>::empty());
            }
            return Ok(Self::with_nvars(self.nvars));
        }
        if self.nvars != other.nvars {
            return Err(KernelError::DimensionMismatch);
        }
        let mut acc = Self::with_nvars(self.nvars);
        let mut j: usize = 0;
        proof {
            lemma_prefix_whole(other@);
        }
        while j < other.nterms
            invariant
                self.wf(),
                other.wf(),
                self.nvars == other.nvars,
                self.nterms != 0,
                acc.wf(),
                acc.nvars == self.nvars,
                j <= other.nterms,
                is_product(acc@, self@, other@.subrange(0, j as int)),
                forall|j0: int| 0 <= j0 < j ==> !shift_overflows(self@, (#[trigger] other@[j0]).1, E::max()),
            decreases other.nterms - j,
        {
            let ghost before = acc@;
            let ghost b = other@.subrange(0, j as int);
            let m = other.exponents(j);
            assert(other@[j as int].0.wf());
            assert(other@[j as int].1.len() == other.nvars);
            let p = match self.mul_monomial(other.coefficients[j], m) {
                Ok(p) => p,
                Err(e) => {
                    return Err(e);
                },
            };
            let sum = acc.add(&p);
            proof {
                lemma_prefix_step(other@, j as int);
                assert(b.push(other@[j as int]).drop_last() =~= b);
            }
            match sum {
                Ok(s) => {
                    acc = s;
                },
                Err(e) => {
                    return Err(e);
                },
            }
            j = j + 1;
        }
        proof {
            lemma_prefix_whole(other@);
            if product_overflows(self@, other@, E::max()) {
                let j0 = choose|j0: int|
                    0 <= j0 < other@.len() && shift_overflows(
                        self@,
                        (#[trigger] other@[j0]).1,
                        E::max(),
                    );
                assert(false);
            }
        }
        Ok(acc)
    }
}

/// The product of the zero polynomial with any polynomial is zero.
pub proof fn lemma_product_of_zero<R: Ring>(b: Terms<R>, e: Seq<nat>)
    ensures
        product_coefficient(Terms::<R>::empty(), b, e) == R::zero_spec(),
    decreases b.len(),
{
    R::lemma_constants();
    if b.len() > 0 {
        lemma_product_of_zero(b.drop_last(), e);
        assert(shifted(Terms::<R>::empty(), b.last()) =~= Terms::<R>::empty());
        R::lemma_add_zero(R::zero_spec());
    }
}

} // verus!
