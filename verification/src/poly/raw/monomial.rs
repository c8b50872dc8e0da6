//! A monomial: a coefficient with an exponent vector.

use vstd::prelude::*;
use crate::error::KernelError;
use crate::poly::exponent::Exponent;
use crate::poly::raw::multivar::{compare_exponents, values, TermOrder};
use crate::poly::raw::terms::{lex_less, vec_add};
use crate::poly::raw::zp::UnsignedInteger;
use crate::poly::ring::Ring;

verus! {

/// The term `t` can be divided by the term `d`: no exponent of `d` exceeds
/// that of `t`, and the division of the coefficients leaves nothing.
pub open spec fn divisible<R: Ring>(t: (R, Seq<nat>), d: (R, Seq<nat>)) -> bool {
    &&& forall|k: int| 0 <= k < d.1.len() ==> t.1[k] >= d.1[k]
    &&& t.0.rem_spec(d.0) == R::zero_spec()
}

/// The difference of two exponent vectors: the exponents of a quotient of
/// monomials.
pub open spec fn vec_sub(a: Seq<nat>, b: Seq<nat>) -> Seq<nat> {
    Seq::new(a.len(), |k: int| (a[k] - b[k]) as nat)
}

/// The quotient of the term `t` by the term `d`.
pub open spec fn term_quotient<R: Ring>(t: (R, Seq<nat>), d: (R, Seq<nat>)) -> (R, Seq<nat>) {
    (t.0.div_spec(d.0), vec_sub(t.1, d.1))
}

/// The product of the terms `x` and `y`.
pub open spec fn term_product<R: Ring>(x: (R, Seq<nat>), y: (R, Seq<nat>)) -> (R, Seq<nat>) {
    (x.0.mul_spec(y.0), vec_add(x.1, y.1))
}

/// A coefficient with the exponents of the variables.
#[derive(Clone, Debug)]
pub struct Monomial<R: Ring, E: Exponent> {
    pub coefficient: R,
    pub exponents: Vec<E>,
}

impl<R: Ring, E: Exponent> View for Monomial<R, E> {
    type V = (R, Seq<nat>);

    open spec fn view(&self) -> (R, Seq<nat>) {
        (self.coefficient, values(self.exponents@))
    }
}

impl<R: Ring, E: Exponent> Monomial<R, E> {
    /// Constructs the monomial with the given coefficient and exponents.
    pub fn new(coefficient: R, exponents: Vec<E>) -> (r: Self)
        ensures
            r.coefficient == coefficient,
            r.exponents == exponents,
    {
        Monomial { coefficient: coefficient, exponents: exponents }
    }

    /// How the exponent vector stands to that of `other`, in canonical order.
    pub fn compare(&self, other: &Self) -> (r: TermOrder)
        requires
            self.exponents@.len() == other.exponents@.len(),
        ensures
            r == TermOrder::Less <==> lex_less(self@.1, other@.1),
            r == TermOrder::Equal <==> self@.1 == other@.1,
            r == TermOrder::Greater <==> lex_less(other@.1, self@.1),
    {
        compare_exponents(
            self.exponents.as_slice(),
            0,
            other.exponents.as_slice(),
            0,
            self.exponents.len(),
        )
    }

    /// Whether `self` can be divided by `divisor`.
    pub fn divides(&self, divisor: &Self) -> (b: bool)
        requires
            self.coefficient.wf(),
            divisor.coefficient.wf(),
            divisor.coefficient != R::zero_spec(),
            self.exponents@.len() == divisor.exponents@.len(),
        ensures
            b == divisible(self@, divisor@),
    {
        let n = self.exponents.len();
        let mut k: usize = 0;
        while k < n
            invariant
                k <= n,
                n == self.exponents@.len(),
                n == divisor.exponents@.len(),
                forall|j: int| 0 <= j < k ==> self@.1[j] >= divisor@.1[j],
            decreases n - k,
        {
            if self.exponents[k].less(divisor.exponents[k]) {
                assert(self@.1[k as int] < divisor@.1[k as int]);
                return false;
            }
            k = k + 1;
        }
        self.coefficient.rem(divisor.coefficient).is_zero()
    }

    /// The quotient of `self` by `divisor`, where no exponent of `divisor`
    /// exceeds that of `self`.
    pub fn divide(&self, divisor: &Self) -> (r: Self)
        requires
            self.coefficient.wf(),
            divisor.coefficient.wf(),
            divisor.coefficient != R::zero_spec(),
            self.exponents@.len() == divisor.exponents@.len(),
            forall|k: int| 0 <= k < divisor@.1.len() ==> self@.1[k] >= divisor@.1[k],
        ensures
            r@ == term_quotient(self@, divisor@),
            r.coefficient.wf(),
    {
        let n = self.exponents.len();
        let mut exponents: Vec<E> = Vec::with_capacity(n);
        let mut k: usize = 0;
        while k < n
            invariant
                k <= n,
                n == self.exponents@.len(),
                n == divisor.exponents@.len(),
                forall|j: int| 0 <= j < n ==> self@.1[j] >= divisor@.1[j],
                exponents@.len() == k,
                forall|j: int|
                    0 <= j < k ==> (#[trigger] exponents@[j]).value() == self@.1[j] - divisor@.1[j],
            decreases n - k,
        {
            assert(self@.1[k as int] >= divisor@.1[k as int]);
            exponents.push(self.exponents[k].minus(divisor.exponents[k]));
            k = k + 1;
        }
        let r = Monomial { coefficient: self.coefficient.div(divisor.coefficient), exponents: exponents };
        assert(r@.1 =~= vec_sub(self@.1, divisor@.1));
        r
    }

    /// The product of two monomials. Fails where the sum of two exponents
    /// does not fit the exponent type.
    pub fn multiply(&self, other: &Self) -> (r: Result<Self, KernelError>)
        requires
            self.coefficient.wf(),
            other.coefficient.wf(),
            self.exponents@.len() == other.exponents@.len(),
        ensures
            r is Err <==> exists|k: int|
                0 <= k < self@.1.len() && #[trigger] self@.1[k] + other@.1[k] > E::max(),
            r matches Err(e) ==> e == KernelError::Overflow,
            r matches Ok(p) ==> p@ == term_product(self@, other@) && p.coefficient.wf(),
    {
        let n = self.exponents.len();
        let mut exponents: Vec<E> = Vec::with_capacity(n);
        let mut k: usize = 0;
        while k < n
            invariant
                k <= n,
                n == self.exponents@.len(),
                n == other.exponents@.len(),
                exponents@.len() == k,
                forall|j: int|
                    0 <= j < k ==> (#[trigger] exponents@[j]).value() == self@.1[j] + other@.1[j],
                forall|j: int| 0 <= j < k ==> #[trigger] self@.1[j] + other@.1[j] <= E::max(),
            decreases n - k,
        {
            match self.exponents[k].checked_add(other.exponents[k]) {
                Some(s) => {
                    exponents.push(s);
                },
                None => {
                    assert(self@.1[k as int] + other@.1[k as int] > E::max());
                    return Err(KernelError::Overflow);
                },
            }
            k = k + 1;
        }
        let r = Monomial { coefficient: self.coefficient.mul(other.coefficient), exponents: exponents };
        assert(r@.1 =~= vec_add(self@.1, other@.1));
        Ok(r)
    }

    /// The monomial with its coefficient negated.
    pub fn negate(self) -> (r: Self)
        requires
            self.coefficient.wf(),
        ensures
            r@ == (self@.0.neg_spec(), self@.1),
            r.coefficient.wf(),
    {
        Monomial { coefficient: self.coefficient.neg(), exponents: self.exponents }
    }
}

} // verus!
