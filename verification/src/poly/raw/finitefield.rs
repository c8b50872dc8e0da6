//! The ring of the integers modulo `P`, a field where `P` is prime. The
//! modulus is part of the type, so two elements of one type always have the
//! same modulus. A modulus below two gives the ring of the single element
//! zero.

use vstd::prelude::*;
use vstd::arithmetic::div_mod::{
    lemma_add_mod_noop, lemma_fundamental_div_mod, lemma_mod_bound, lemma_mul_mod_noop_general,
    lemma_small_mod,
};
use vstd::arithmetic::mul::{
    lemma_mul_is_associative, lemma_mul_is_commutative, lemma_mul_is_distributive_add,
};
use crate::error::KernelError;
use crate::poly::exponent::Exponent;
use crate::poly::raw::multivar::MultivariatePolynomial;
use crate::poly::raw::terms::{
    lemma_canonical_push, lemma_lex_transitive, lemma_prefix_whole, lex_less, Terms,
};
use crate::poly::raw::zp::{add_mod, gcd, is_inverse, lemma_add_neg, mul_mod, neg_mod};
use crate::poly::ring::{Field, Ring, GCD};

verus! {

/// An element of the integers modulo `P`: the number `n`, below `P`.
#[derive(Clone, Copy, Debug, PartialEq, Eq)]
pub struct FiniteField<const P: u64> {
    pub n: u64,
}

/// The inverse of `x` modulo `p`, where it has one.
pub open spec fn inverse(x: nat, p: nat) -> nat {
    choose|z: nat| is_inverse(x, z, p)
}

/// A number has at most one inverse modulo `p`.
pub proof fn lemma_inverse_unique(x: nat, z1: nat, z2: nat, p: nat)
    requires
        is_inverse(x, z1, p),
        is_inverse(x, z2, p),
    ensures
        z1 == z2,
{
    let pi = p as int;
    lemma_mul_mod_noop_general(z1 as int, (x * z2) as int, pi);
    lemma_mul_mod_noop_general((z1 * x) as int, z2 as int, pi);
    lemma_mul_is_associative(z1 as int, x as int, z2 as int);
    lemma_mul_is_commutative(z1 as int, x as int);
    assert(z1 * 1 == z1);
    assert(1 * z2 == z2);
    lemma_small_mod(z1, p);
    lemma_small_mod(z2, p);
}

/// The quotient `a / b` modulo `p`: `a` times the inverse of `b`. Where `b`
/// has no inverse, one for `a == b` and zero otherwise, so that the
/// remainder is zero in the first case and `a` in the second.
pub open spec fn div_mod(a: nat, b: nat, p: nat) -> nat {
    if gcd(b, p) == 1 {
        mul_mod(a, inverse(b, p), p)
    } else if a == b {
        1
    } else {
        0
    }
}

impl<const P: u64> FiniteField<P> {
    /// The element for the number `n`, reduced modulo `P`.
    pub fn new(n: u64) -> (r: Self)
        ensures
            r.wf(),
            P > 1 ==> r.n == n % P,
    {
        if P > 1 {
            proof {
                lemma_mod_bound(n as int, P as int);
            }
            FiniteField { n: n % P }
        } else {
            FiniteField { n: 0 }
        }
    }
}

/// A number without a divisor in common with `p` has an inverse.
pub proof fn lemma_inverse_exists(x: nat, p: nat)
    requires
        x < p,
        1 < p,
        gcd(x, p) == 1,
    ensures
        is_inverse(x, inverse(x, p), p),
{
    crate::poly::raw::zp::lemma_coprime_inverse(x, p);
}

impl<const P: u64> Ring for FiniteField<P> {
    open spec fn wf(self) -> bool {
        if P > 1 {
            self.n < P
        } else {
            self.n == 0
        }
    }

    open spec fn zero_spec() -> Self {
        FiniteField { n: 0 }
    }

    open spec fn one_spec() -> Self {
        FiniteField {
            n: if P > 1 {
                1
            } else {
                0
            },
        }
    }

    open spec fn add_spec(self, rhs: Self) -> Self {
        FiniteField {
            n: if P > 1 {
                add_mod(self.n as nat, rhs.n as nat, P as nat) as u64
            } else {
                0
            },
        }
    }

    open spec fn neg_spec(self) -> Self {
        FiniteField {
            n: if P > 1 {
                neg_mod(self.n as nat, P as nat) as u64
            } else {
                0
            },
        }
    }

    open spec fn mul_spec(self, rhs: Self) -> Self {
        FiniteField {
            n: if P > 1 {
                mul_mod(self.n as nat, rhs.n as nat, P as nat) as u64
            } else {
                0
            },
        }
    }

    open spec fn div_spec(self, rhs: Self) -> Self {
        FiniteField {
            n: if P > 1 {
                div_mod(self.n as nat, rhs.n as nat, P as nat) as u64
            } else {
                0
            },
        }
    }

    open spec fn rem_spec(self, rhs: Self) -> Self {
        if P > 1 && gcd(rhs.n as nat, P as nat) != 1 && self != rhs {
            self
        } else {
            FiniteField { n: 0 }
        }
    }

    proof fn lemma_constants() {
    }

    proof fn lemma_closed(a: Self, b: Self) {
        if P > 1 {
            let p = P as int;
            lemma_mod_bound(a.n + b.n, p);
            lemma_mod_bound(-(a.n as int), p);
            lemma_mod_bound(a.n * b.n, p);
            if gcd(b.n as nat, P as nat) == 1 {
                lemma_mod_bound(a.n * inverse(b.n as nat, P as nat), p);
            }
        }
    }

    proof fn lemma_add_commutative(a: Self, b: Self) {
    }

    proof fn lemma_add_associative(a: Self, b: Self, c: Self) {
        if P > 1 {
            let p = P as int;
            lemma_mod_bound(a.n + b.n, p);
            lemma_mod_bound(b.n + c.n, p);
            lemma_add_mod_noop((a.n + b.n) as int, c.n as int, p);
            lemma_add_mod_noop(a.n as int, (b.n + c.n) as int, p);
            lemma_small_mod(a.n as nat, P as nat);
            lemma_small_mod(c.n as nat, P as nat);
        }
    }

    proof fn lemma_add_zero(a: Self) {
        if P > 1 {
            lemma_small_mod(a.n as nat, P as nat);
        }
    }

    proof fn lemma_add_neg(a: Self) {
        if P > 1 {
            lemma_add_neg(a.n as nat, P as nat);
            lemma_mod_bound(-(a.n as int), P as int);
        }
    }

    proof fn lemma_mul_commutative(a: Self, b: Self) {
        lemma_mul_is_commutative(a.n as int, b.n as int);
    }

    proof fn lemma_mul_associative(a: Self, b: Self, c: Self) {
        if P > 1 {
            let p = P as int;
            lemma_mod_bound(a.n * b.n, p);
            lemma_mod_bound(b.n * c.n, p);
            lemma_mul_mod_noop_general((a.n * b.n) as int, c.n as int, p);
            lemma_mul_mod_noop_general(a.n as int, (b.n * c.n) as int, p);
            lemma_mul_is_associative(a.n as int, b.n as int, c.n as int);
        }
    }

    proof fn lemma_mul_one(a: Self) {
        if P > 1 {
            assert(a.n * 1 == a.n);
            lemma_small_mod(a.n as nat, P as nat);
        }
    }

    proof fn lemma_distributive(a: Self, b: Self, c: Self) {
        if P > 1 {
            let p = P as int;
            lemma_mod_bound(b.n + c.n, p);
            lemma_mod_bound(a.n * b.n, p);
            lemma_mod_bound(a.n * c.n, p);
            lemma_mul_mod_noop_general(a.n as int, (b.n + c.n) as int, p);
            lemma_add_mod_noop((a.n * b.n) as int, (a.n * c.n) as int, p);
            lemma_mul_is_distributive_add(a.n as int, b.n as int, c.n as int);
        }
    }

    proof fn lemma_div_rem(a: Self, b: Self) {
        if P > 1 {
            let p = P as int;
            let pn = P as nat;
            if gcd(b.n as nat, pn) == 1 {
                lemma_inverse_exists(b.n as nat, pn);
                let z = inverse(b.n as nat, pn);
                let q = mul_mod(a.n as nat, z, pn);
                lemma_mod_bound(a.n * z, p);
                // q * b == a * (z * b) == a
                lemma_mul_mod_noop_general((a.n * z) as int, b.n as int, p);
                lemma_mul_is_associative(a.n as int, z as int, b.n as int);
                lemma_mul_is_commutative(z as int, b.n as int);
                lemma_mul_mod_noop_general(a.n as int, (z * b.n) as int, p);
                assert(a.n * 1 == a.n);
                lemma_small_mod(a.n as nat, pn);
                lemma_mod_bound(q * b.n, p);
            } else if a == b {
                assert(1 * b.n == b.n);
                lemma_small_mod(b.n as nat, pn);
            } else {
                assert(0 * b.n == 0);
                lemma_small_mod(0, pn);
                lemma_small_mod(a.n as nat, pn);
            }
        }
    }

    proof fn lemma_div_self(a: Self) {
        let p = P as nat;
        let x = a.n as nat;
        if gcd(x, p) == 1 {
            lemma_inverse_exists(x, p);
            let z = inverse(x, p);
            assert(is_inverse(x, z, p));
        }
    }

    fn zero() -> (r: Self) {
        FiniteField { n: 0 }
    }

    fn one() -> (r: Self) {
        FiniteField {
            n: if P > 1 {
                1
            } else {
                0
            },
        }
    }

    fn is_zero(self) -> (b: bool) {
        self.n == 0
    }

    fn is_one(self) -> (b: bool) {
        if P > 1 {
            self.n == 1
        } else {
            true
        }
    }

    fn equals(self, rhs: Self) -> (b: bool) {
        self.n == rhs.n
    }

    fn add(self, rhs: Self) -> (r: Self) {
        if P > 1 {
            proof {
                lemma_mod_bound(self.n + rhs.n, P as int);
            }
            FiniteField { n: crate::poly::raw::zp::add(self.n, rhs.n, P) }
        } else {
            FiniteField { n: 0 }
        }
    }

    fn sub(self, rhs: Self) -> (r: Self) {
        if P > 1 {
            proof {
                lemma_mod_bound(-(rhs.n as int), P as int);
                lemma_mod_bound(self.n + neg_mod(rhs.n as nat, P as nat), P as int);
            }
            let n = crate::poly::raw::zp::neg(rhs.n, P);
            FiniteField { n: crate::poly::raw::zp::add(self.n, n, P) }
        } else {
            FiniteField { n: 0 }
        }
    }

    fn neg(self) -> (r: Self) {
        if P > 1 {
            proof {
                lemma_mod_bound(-(self.n as int), P as int);
            }
            FiniteField { n: crate::poly::raw::zp::neg(self.n, P) }
        } else {
            FiniteField { n: 0 }
        }
    }

    fn mul(self, rhs: Self) -> (r: Self) {
        if P > 1 {
            proof {
                lemma_mod_bound(self.n * rhs.n, P as int);
            }
            FiniteField { n: crate::poly::raw::zp::mul(self.n, rhs.n, P) }
        } else {
            FiniteField { n: 0 }
        }
    }

    fn div(self, rhs: Self) -> (r: Self) {
        if P > 1 {
            match crate::poly::raw::zp::inv(rhs.n, P) {
                Ok(z) => {
                    proof {
                        lemma_inverse_exists(rhs.n as nat, P as nat);
                        lemma_inverse_unique(
                            rhs.n as nat,
                            z as nat,
                            inverse(rhs.n as nat, P as nat),
                            P as nat,
                        );
                        lemma_mod_bound(self.n * z, P as int);
                    }
                    FiniteField { n: crate::poly::raw::zp::mul(self.n, z, P) }
                },
                Err(_) => FiniteField {
                    n: if self.n == rhs.n {
                        1
                    } else {
                        0
                    },
                },
            }
        } else {
            FiniteField { n: 0 }
        }
    }

    fn rem(self, rhs: Self) -> (r: Self) {
        if P > 1 {
            match crate::poly::raw::zp::inv(rhs.n, P) {
                Ok(_) => FiniteField { n: 0 },
                Err(_) => if self.n == rhs.n {
                    FiniteField { n: 0 }
                } else {
                    self
                },
            }
        } else {
            FiniteField { n: 0 }
        }
    }
}

/// The residue of the integer `x` modulo `p`; zero for a modulus below two.
pub open spec fn residue(x: int, p: nat) -> nat {
    if p > 1 {
        (x % (p as int)) as nat
    } else {
        0
    }
}

/// The element of the integers modulo `P` for the integer `x`.
pub fn from_integer<const P: u64>(x: i64) -> (r: FiniteField<P>)
    ensures
        r.wf(),
        r.n == residue(x as int, P as nat),
{
    if P <= 1 {
        return FiniteField { n: 0 };
    }
    proof {
        lemma_mod_bound(x as int, P as int);
    }
    if x >= 0 {
        FiniteField { n: (x as u64) % P }
    } else {
        // the residue of -x, taken from the modulus
        let y: u64 = if x == i64::MIN {
            9223372036854775808u64
        } else {
            (-x) as u64
        };
        let m = y % P;
        proof {
            let p = P as int;
            lemma_fundamental_div_mod(y as int, p);
            lemma_mod_bound(y as int, p);
            let k = (y as int) / p;
            if m == 0 {
                assert((x as int) == p * (-k) + 0) by (nonlinear_arith)
                    requires
                        y == p * k + m,
                        m == 0,
                        x == -(y as int),
                {}
                vstd::arithmetic::div_mod::lemma_fundamental_div_mod_converse(x as int, p, -k, 0);
            } else {
                assert((x as int) == p * (-k - 1) + (p - m)) by (nonlinear_arith)
                    requires
                        y == p * k + m,
                        x == -(y as int),
                {}
                vstd::arithmetic::div_mod::lemma_fundamental_div_mod_converse(
                    x as int,
                    p,
                    -k - 1,
                    p - m,
                );
            }
        }
        if m == 0 {
            FiniteField { n: 0 }
        } else {
            FiniteField { n: P - m }
        }
    }
}

/// The terms of `ts` with their coefficients reduced modulo `P`, without
/// those whose coefficients become zero.
pub open spec fn reduced<const P: u64>(ts: Terms<i64>) -> Terms<FiniteField<P>>
    decreases ts.len(),
{
    if ts.len() == 0 {
        Terms::<FiniteField<P>>::empty()
    } else if residue(ts.last().0 as int, P as nat) != 0 {
        reduced::<P>(ts.drop_last()).push(
            (FiniteField { n: residue(ts.last().0 as int, P as nat) as u64 }, ts.last().1),
        )
    } else {
        reduced::<P>(ts.drop_last())
    }
}

impl<E: Exponent> MultivariatePolynomial<i64, E> {
    /// The polynomial with its coefficients taken modulo `P`.
    pub fn to_finite_field<const P: u64>(&self) -> (r: MultivariatePolynomial<FiniteField<P>, E>)
        requires
            self.wf(),
        ensures
            r.wf(),
            r.nvars == self.nvars,
            r@ == reduced::<P>(self@),
    {
        let ghost ts = self@;
        let ghost nv = self.nvars as nat;
        let mut out = MultivariatePolynomial::<FiniteField<P>, E>::with_nvars_and_capacity(
            self.nvars,
            self.nterms,
        );
        let mut i: usize = 0;
        proof {
            lemma_prefix_whole(ts);
        }
        while i < self.nterms
            invariant
                self.wf(),
                ts == self@,
                nv == self.nvars,
                out.wf(),
                out.nvars == self.nvars,
                i <= self.nterms,
                out@ == reduced::<P>(ts.subrange(0, i as int)),
                out@.len() > 0 && i < self.nterms ==> lex_less(out@.last().1, ts[i as int].1),
            decreases self.nterms - i,
        {
            let ghost before = out@;
            let c = from_integer::<P>(self.coefficients[i]);
            proof {
                let next = ts.subrange(0, i + 1);
                assert(next.drop_last() =~= ts.subrange(0, i as int));
                assert(next.last() == ts[i as int]);
                if i + 1 < self.nterms {
                    assert(lex_less(ts[i as int].1, ts[i + 1].1));
                    if before.len() > 0 {
                        lemma_lex_transitive(before.last().1, ts[i as int].1, ts[i + 1].1);
                    }
                }
            }
            if !c.is_zero() {
                let at = self.offset(i);
                out.push_term(c, self.exponents.as_slice(), at);
                proof {
                    lemma_canonical_push(before, nv, (c, ts[i as int].1));
                }
            }
            i = i + 1;
        }
        proof {
            lemma_prefix_whole(ts);
        }
        out
    }
}

impl<const P: u64> GCD for FiniteField<P> {
    /// One, unless both elements are zero: every element but zero divides
    /// every other in a field.
    open spec fn gcd_spec(a: Self, b: Self) -> Self {
        if a.n == 0 && b.n == 0 {
            Self::zero_spec()
        } else {
            Self::one_spec()
        }
    }

    proof fn lemma_gcd_closed(a: Self, b: Self) {
    }

    fn gcd(a: Self, b: Self) -> (g: Self) {
        if a.n == 0 && b.n == 0 {
            Self::zero()
        } else {
            Self::one()
        }
    }
}

impl<const P: u64> Field for FiniteField<P> {
    /// The element has no divisor in common with the modulus.
    open spec fn is_invertible(self) -> bool {
        P <= 1 || gcd(self.n as nat, P as nat) == 1
    }

    proof fn lemma_invertible(a: Self, z: Self) {
        if P > 1 {
            lemma_mod_bound(a.n * z.n, P as int);
            crate::poly::raw::zp::lemma_inverse_coprime(a.n as nat, z.n as nat, P as nat);
        }
    }

    fn inv(self) -> (r: Result<Self, KernelError>) {
        if P <= 1 {
            return Ok(FiniteField { n: 0 });
        }
        match crate::poly::raw::zp::inv(self.n, P) {
            Ok(z) => Ok(FiniteField { n: z }),
            Err(e) => Err(e),
        }
    }
}

} // verus!
