//! The commutative ring that the coefficients of a polynomial come from.

use vstd::prelude::*;
use crate::error::KernelError;

verus! {

/// A commutative ring with a division that signals inexactness by its
/// remainder. The operations are stated as spec functions on the values
/// themselves; `wf` tells the values that belong to the ring, and the laws
/// hold of those.
pub trait Ring: Sized + Copy {
    /// `self` is an element of the ring.
    spec fn wf(self) -> bool;

    spec fn zero_spec() -> Self;

    spec fn one_spec() -> Self;

    spec fn add_spec(self, rhs: Self) -> Self;

    spec fn neg_spec(self) -> Self;

    spec fn mul_spec(self, rhs: Self) -> Self;

    /// The quotient of the division of `self` by `rhs`.
    spec fn div_spec(self, rhs: Self) -> Self;

    /// What the division of `self` by `rhs` leaves; zero where it is exact.
    spec fn rem_spec(self, rhs: Self) -> Self;

    /// Zero and one are elements of the ring.
    proof fn lemma_constants()
        ensures
            Self::zero_spec().wf(),
            Self::one_spec().wf(),
    ;

    /// The results of the operations are elements of the ring.
    proof fn lemma_closed(a: Self, b: Self)
        requires
            a.wf(),
            b.wf(),
        ensures
            a.add_spec(b).wf(),
            a.neg_spec().wf(),
            a.mul_spec(b).wf(),
            b != Self::zero_spec() ==> a.div_spec(b).wf() && a.rem_spec(b).wf(),
    ;

    proof fn lemma_add_commutative(a: Self, b: Self)
        requires
            a.wf(),
            b.wf(),
        ensures
            a.add_spec(b) == b.add_spec(a),
    ;

    proof fn lemma_add_associative(a: Self, b: Self, c: Self)
        requires
            a.wf(),
            b.wf(),
            c.wf(),
        ensures
            a.add_spec(b).add_spec(c) == a.add_spec(b.add_spec(c)),
    ;

    proof fn lemma_add_zero(a: Self)
        requires
            a.wf(),
        ensures
            a.add_spec(Self::zero_spec()) == a,
    ;

    proof fn lemma_add_neg(a: Self)
        requires
            a.wf(),
        ensures
            a.add_spec(a.neg_spec()) == Self::zero_spec(),
    ;

    proof fn lemma_mul_commutative(a: Self, b: Self)
        requires
            a.wf(),
            b.wf(),
        ensures
            a.mul_spec(b) == b.mul_spec(a),
    ;

    proof fn lemma_mul_associative(a: Self, b: Self, c: Self)
        requires
            a.wf(),
            b.wf(),
            c.wf(),
        ensures
            a.mul_spec(b).mul_spec(c) == a.mul_spec(b.mul_spec(c)),
    ;

    proof fn lemma_mul_one(a: Self)
        requires
            a.wf(),
        ensures
            a.mul_spec(Self::one_spec()) == a,
    ;

    proof fn lemma_distributive(a: Self, b: Self, c: Self)
        requires
            a.wf(),
            b.wf(),
            c.wf(),
        ensures
            a.mul_spec(b.add_spec(c)) == a.mul_spec(b).add_spec(a.mul_spec(c)),
    ;

    /// Quotient times divisor, plus remainder, is the dividend.
    proof fn lemma_div_rem(a: Self, b: Self)
        requires
            a.wf(),
            b.wf(),
            b != Self::zero_spec(),
        ensures
            a.div_spec(b).mul_spec(b).add_spec(a.rem_spec(b)) == a,
    ;

    /// An element that is not zero divides itself exactly, with quotient
    /// one.
    proof fn lemma_div_self(a: Self)
        requires
            a.wf(),
            a != Self::zero_spec(),
        ensures
            a.rem_spec(a) == Self::zero_spec(),
            a.div_spec(a) == Self::one_spec(),
    ;

    fn zero() -> (r: Self)
        ensures
            r == Self::zero_spec(),
            r.wf(),
    ;

    fn one() -> (r: Self)
        ensures
            r == Self::one_spec(),
            r.wf(),
    ;

    fn is_zero(self) -> (b: bool)
        requires
            self.wf(),
        ensures
            b == (self == Self::zero_spec()),
    ;

    fn is_one(self) -> (b: bool)
        requires
            self.wf(),
        ensures
            b == (self == Self::one_spec()),
    ;

    /// Whether two elements are the same.
    fn equals(self, rhs: Self) -> (b: bool)
        requires
            self.wf(),
            rhs.wf(),
        ensures
            b == (self == rhs),
    ;

    fn add(self, rhs: Self) -> (r: Self)
        requires
            self.wf(),
            rhs.wf(),
        ensures
            r == self.add_spec(rhs),
            r.wf(),
    ;

    fn sub(self, rhs: Self) -> (r: Self)
        requires
            self.wf(),
            rhs.wf(),
        ensures
            r == self.add_spec(rhs.neg_spec()),
            r.wf(),
    ;

    fn neg(self) -> (r: Self)
        requires
            self.wf(),
        ensures
            r == self.neg_spec(),
            r.wf(),
    ;

    fn mul(self, rhs: Self) -> (r: Self)
        requires
            self.wf(),
            rhs.wf(),
        ensures
            r == self.mul_spec(rhs),
            r.wf(),
    ;

    fn div(self, rhs: Self) -> (r: Self)
        requires
            self.wf(),
            rhs.wf(),
            rhs != Self::zero_spec(),
        ensures
            r == self.div_spec(rhs),
            r.wf(),
    ;

    fn rem(self, rhs: Self) -> (r: Self)
        requires
            self.wf(),
            rhs.wf(),
            rhs != Self::zero_spec(),
        ensures
            r == self.rem_spec(rhs),
            r.wf(),
    ;
}

/// A ring with multiplicative inverses: a field, where every element but
/// zero has one.
pub trait Field: Ring {
    /// `self` has a multiplicative inverse.
    spec fn is_invertible(self) -> bool;

    /// The elements with an inverse are those that some element multiplies
    /// to one.
    proof fn lemma_invertible(a: Self, z: Self)
        requires
            a.wf(),
            z.wf(),
            a.mul_spec(z) == Self::one_spec(),
        ensures
            a.is_invertible(),
    ;

    /// The multiplicative inverse, or the failure `NotInvertible` where
    /// there is none.
    fn inv(self) -> (r: Result<Self, KernelError>)
        requires
            self.wf(),
        ensures
            r is Ok <==> self.is_invertible(),
            r matches Ok(z) ==> z.wf() && self.mul_spec(z) == Self::one_spec(),
            r matches Err(e) ==> e == KernelError::NotInvertible,
    ;
}

/// A ring with a greatest common divisor of two elements.
pub trait GCD: Ring {
    spec fn gcd_spec(a: Self, b: Self) -> Self;

    proof fn lemma_gcd_closed(a: Self, b: Self)
        requires
            a.wf(),
            b.wf(),
        ensures
            Self::gcd_spec(a, b).wf(),
    ;

    fn gcd(a: Self, b: Self) -> (g: Self)
        requires
            a.wf(),
            b.wf(),
        ensures
            g == Self::gcd_spec(a, b),
            g.wf(),
    ;
}

/// `0 + a == a`.
pub proof fn lemma_zero_add<R: Ring>(a: R)
    requires
        a.wf(),
    ensures
        R::zero_spec().add_spec(a) == a,
{
    R::lemma_constants();
    R::lemma_add_commutative(R::zero_spec(), a);
    R::lemma_add_zero(a);
}

/// `(a + b) + c == (a + c) + b`.
pub proof fn lemma_add_swap<R: Ring>(a: R, b: R, c: R)
    requires
        a.wf(),
        b.wf(),
        c.wf(),
    ensures
        a.add_spec(b).add_spec(c) == a.add_spec(c).add_spec(b),
{
    R::lemma_add_associative(a, b, c);
    R::lemma_add_commutative(b, c);
    R::lemma_add_associative(a, c, b);
}

/// `(a + b) + (c + d) == (a + c) + (b + d)`.
pub proof fn lemma_add_interchange<R: Ring>(a: R, b: R, c: R, d: R)
    requires
        a.wf(),
        b.wf(),
        c.wf(),
        d.wf(),
    ensures
        a.add_spec(b).add_spec(c.add_spec(d)) == a.add_spec(c).add_spec(b.add_spec(d)),
{
    R::lemma_closed(a, b);
    R::lemma_closed(c, d);
    R::lemma_closed(a, c);
    R::lemma_closed(b, d);
    // (a + b) + (c + d) == ((a + b) + c) + d
    R::lemma_add_associative(a.add_spec(b), c, d);
    // (a + b) + c == (a + c) + b
    lemma_add_swap(a, b, c);
    // ((a + c) + b) + d == (a + c) + (b + d)
    R::lemma_add_associative(a.add_spec(c), b, d);
}

/// `a + c == b + c` only where `a == b`.
pub proof fn lemma_add_cancel<R: Ring>(a: R, b: R, c: R)
    requires
        a.wf(),
        b.wf(),
        c.wf(),
        a.add_spec(c) == b.add_spec(c),
    ensures
        a == b,
{
    R::lemma_closed(c, c);
    let n = c.neg_spec();
    R::lemma_add_associative(a, c, n);
    R::lemma_add_associative(b, c, n);
    R::lemma_add_neg(c);
    R::lemma_add_zero(a);
    R::lemma_add_zero(b);
}

/// `a * 0 == 0`.
pub proof fn lemma_mul_zero<R: Ring>(a: R)
    requires
        a.wf(),
    ensures
        a.mul_spec(R::zero_spec()) == R::zero_spec(),
        R::zero_spec().mul_spec(a) == R::zero_spec(),
{
    let z = R::zero_spec();
    R::lemma_constants();
    R::lemma_closed(a, z);
    let az = a.mul_spec(z);
    R::lemma_add_zero(z);
    R::lemma_distributive(a, z, z);
    // az == az + az, so 0 + az == az + az
    lemma_zero_add(az);
    lemma_add_cancel(z, az, az);
    R::lemma_mul_commutative(a, z);
}

/// `-0 == 0`.
pub proof fn lemma_neg_zero<R: Ring>()
    ensures
        R::zero_spec().neg_spec() == R::zero_spec(),
{
    let z = R::zero_spec();
    R::lemma_constants();
    R::lemma_closed(z, z);
    R::lemma_add_neg(z);
    lemma_zero_add(z.neg_spec());
}

/// `a + b == 0` only where `b == -a`.
pub proof fn lemma_neg_unique<R: Ring>(a: R, b: R)
    requires
        a.wf(),
        b.wf(),
        a.add_spec(b) == R::zero_spec(),
    ensures
        b == a.neg_spec(),
{
    R::lemma_closed(a, b);
    R::lemma_add_neg(a);
    R::lemma_add_commutative(a, b);
    R::lemma_add_commutative(a, a.neg_spec());
    lemma_add_cancel(b, a.neg_spec(), a);
}

/// `-(a + b) == (-a) + (-b)`.
pub proof fn lemma_neg_add<R: Ring>(a: R, b: R)
    requires
        a.wf(),
        b.wf(),
    ensures
        a.add_spec(b).neg_spec() == a.neg_spec().add_spec(b.neg_spec()),
{
    R::lemma_constants();
    R::lemma_closed(a, b);
    R::lemma_closed(b, a);
    R::lemma_closed(a.neg_spec(), b.neg_spec());
    lemma_add_interchange(a, b, a.neg_spec(), b.neg_spec());
    R::lemma_add_neg(a);
    R::lemma_add_neg(b);
    R::lemma_add_zero(R::zero_spec());
    lemma_neg_unique(a.add_spec(b), a.neg_spec().add_spec(b.neg_spec()));
}

/// `-(-a) == a`.
pub proof fn lemma_neg_neg<R: Ring>(a: R)
    requires
        a.wf(),
    ensures
        a.neg_spec().neg_spec() == a,
{
    R::lemma_closed(a, a);
    R::lemma_add_neg(a);
    R::lemma_add_commutative(a, a.neg_spec());
    lemma_neg_unique(a.neg_spec(), a);
}

/// `x^n`, with `x^0 == 1`.
pub open spec fn pow_spec<R: Ring>(x: R, n: nat) -> R
    decreases n,
{
    if n == 0 {
        R::one_spec()
    } else {
        pow_spec(x, (n - 1) as nat).mul_spec(x)
    }
}

} // verus!
