//! Modular arithmetic in Zp: each element `x` satisfies `0 <= x < p`, where an
//! N-bit unsigned integer stores the value. The modulus `p` is handed to every
//! operation and is never stored with a value.

use vstd::prelude::*;
use vstd::arithmetic::div_mod::*;
use vstd::arithmetic::mul::*;
use vstd::arithmetic::power::{lemma_pow0, lemma_pow1};
use crate::error::KernelError;
use crate::poly::raw::linear::{
    equivalent, is_reduced, is_singular, is_solution, is_square, lemma_equivalent_reflexive,
    lemma_equivalent_symmetric, lemma_equivalent_transitive, lemma_inhomogeneous, lemma_no_pivot,
    lemma_singular_transfer, lemma_swap_rows, lemma_unit_matrix, matrix_values, row_values,
    system_holds, unit_columns,
};
use crate::poly::raw::solver::{
    check_square, copy_matrix, copy_row, eliminate_column, find_pivot, is_system, normalize_pivot,
    swap_rows,
};

verus! {

/// An unsigned machine integer, seen through the natural number it stores.
pub trait UnsignedInteger: Sized + Copy {
    /// The natural number that `self` stores.
    spec fn value(self) -> nat;

    /// The largest number that the type can store.
    spec fn max() -> nat;

    /// Every stored number is at most `max()`.
    proof fn value_in_range(x: Self)
        ensures
            x.value() <= Self::max(),
    ;

    /// Two values that store the same number are the same value.
    proof fn value_injective(x: Self, y: Self)
        requires
            x.value() == y.value(),
        ensures
            x == y,
    ;

    fn zero() -> (r: Self)
        ensures
            r.value() == 0,
    ;

    fn one() -> (r: Self)
        ensures
            r.value() == 1,
    ;

    fn is_zero(self) -> (b: bool)
        ensures
            b == (self.value() == 0),
    ;

    fn is_one(self) -> (b: bool)
        ensures
            b == (self.value() == 1),
    ;

    /// `self < other`.
    fn less(self, other: Self) -> (b: bool)
        ensures
            b == (self.value() < other.value()),
    ;

    /// `self == other`.
    fn equals(self, other: Self) -> (b: bool)
        ensures
            b == (self.value() == other.value()),
    ;

    /// The sum modulo `max() + 1`, and whether the true sum exceeds `max()`.
    fn overflowing_add(self, other: Self) -> (r: (Self, bool))
        ensures
            r.1 == (self.value() + other.value() > Self::max()),
            r.0.value() + (if r.1 { Self::max() + 1 } else { 0nat }) == self.value()
                + other.value(),
    ;

    /// The difference modulo `max() + 1`, and whether the true difference is
    /// negative.
    fn overflowing_sub(self, other: Self) -> (r: (Self, bool))
        ensures
            r.1 == (self.value() < other.value()),
            r.0.value() + other.value() == self.value() + (if r.1 { Self::max() + 1 } else { 0nat }),
    ;

    /// `self - other`, where that is not negative.
    fn minus(self, other: Self) -> (r: Self)
        requires
            other.value() <= self.value(),
        ensures
            r.value() == self.value() - other.value(),
    ;

    /// `self + other`, where that fits.
    fn plus(self, other: Self) -> (r: Self)
        requires
            self.value() + other.value() <= Self::max(),
        ensures
            r.value() == self.value() + other.value(),
    ;

    /// `self * other`, where that fits.
    fn times(self, other: Self) -> (r: Self)
        requires
            self.value() * other.value() <= Self::max(),
        ensures
            r.value() == self.value() * other.value(),
    ;

    /// The quotient of the division of `self` by `other`, rounded down.
    fn quotient(self, other: Self) -> (r: Self)
        requires
            other.value() != 0,
        ensures
            r.value() == self.value() / other.value(),
    ;

    /// The remainder of the division of `self` by `other`.
    fn remainder(self, other: Self) -> (r: Self)
        requires
            other.value() != 0,
        ensures
            r.value() == self.value() % other.value(),
    ;
}

impl UnsignedInteger for u8 {
    open spec fn value(self) -> nat {
        self as nat
    }

    open spec fn max() -> nat {
        u8::MAX as nat
    }

    proof fn value_in_range(x: Self) {
    }

    proof fn value_injective(x: Self, y: Self) {
    }

    fn zero() -> (r: Self) {
        0
    }

    fn one() -> (r: Self) {
        1
    }

    fn is_zero(self) -> (b: bool) {
        self == 0
    }

    fn is_one(self) -> (b: bool) {
        self == 1
    }

    fn less(self, other: Self) -> (b: bool) {
        self < other
    }

    fn equals(self, other: Self) -> (b: bool) {
        self == other
    }

    fn overflowing_add(self, other: Self) -> (r: (Self, bool)) {
        let z: u8 = self.wrapping_add(other);
        (z, z < self)
    }

    fn overflowing_sub(self, other: Self) -> (r: (Self, bool)) {
        (self.wrapping_sub(other), self < other)
    }

    fn minus(self, other: Self) -> (r: Self) {
        self - other
    }

    fn plus(self, other: Self) -> (r: Self) {
        self + other
    }

    fn times(self, other: Self) -> (r: Self) {
        self * other
    }

    fn quotient(self, other: Self) -> (r: Self) {
        self / other
    }

    fn remainder(self, other: Self) -> (r: Self) {
        self % other
    }
}

impl UnsignedInteger for u16 {
    open spec fn value(self) -> nat {
        self as nat
    }

    open spec fn max() -> nat {
        u16::MAX as nat
    }

    proof fn value_in_range(x: Self) {
    }

    proof fn value_injective(x: Self, y: Self) {
    }

    fn zero() -> (r: Self) {
        0
    }

    fn one() -> (r: Self) {
        1
    }

    fn is_zero(self) -> (b: bool) {
        self == 0
    }

    fn is_one(self) -> (b: bool) {
        self == 1
    }

    fn less(self, other: Self) -> (b: bool) {
        self < other
    }

    fn equals(self, other: Self) -> (b: bool) {
        self == other
    }

    fn overflowing_add(self, other: Self) -> (r: (Self, bool)) {
        let z: u16 = self.wrapping_add(other);
        (z, z < self)
    }

    fn overflowing_sub(self, other: Self) -> (r: (Self, bool)) {
        (self.wrapping_sub(other), self < other)
    }

    fn minus(self, other: Self) -> (r: Self) {
        self - other
    }

    fn plus(self, other: Self) -> (r: Self) {
        self + other
    }

    fn times(self, other: Self) -> (r: Self) {
        self * other
    }

    fn quotient(self, other: Self) -> (r: Self) {
        self / other
    }

    fn remainder(self, other: Self) -> (r: Self) {
        self % other
    }
}

impl UnsignedInteger for u32 {
    open spec fn value(self) -> nat {
        self as nat
    }

    open spec fn max() -> nat {
        u32::MAX as nat
    }

    proof fn value_in_range(x: Self) {
    }

    proof fn value_injective(x: Self, y: Self) {
    }

    fn zero() -> (r: Self) {
        0
    }

    fn one() -> (r: Self) {
        1
    }

    fn is_zero(self) -> (b: bool) {
        self == 0
    }

    fn is_one(self) -> (b: bool) {
        self == 1
    }

    fn less(self, other: Self) -> (b: bool) {
        self < other
    }

    fn equals(self, other: Self) -> (b: bool) {
        self == other
    }

    fn overflowing_add(self, other: Self) -> (r: (Self, bool)) {
        let z: u32 = self.wrapping_add(other);
        (z, z < self)
    }

    fn overflowing_sub(self, other: Self) -> (r: (Self, bool)) {
        (self.wrapping_sub(other), self < other)
    }

    fn minus(self, other: Self) -> (r: Self) {
        self - other
    }

    fn plus(self, other: Self) -> (r: Self) {
        self + other
    }

    fn times(self, other: Self) -> (r: Self) {
        self * other
    }

    fn quotient(self, other: Self) -> (r: Self) {
        self / other
    }

    fn remainder(self, other: Self) -> (r: Self) {
        self % other
    }
}

impl UnsignedInteger for u64 {
    open spec fn value(self) -> nat {
        self as nat
    }

    open spec fn max() -> nat {
        u64::MAX as nat
    }

    proof fn value_in_range(x: Self) {
    }

    proof fn value_injective(x: Self, y: Self) {
    }

    fn zero() -> (r: Self) {
        0
    }

    fn one() -> (r: Self) {
        1
    }

    fn is_zero(self) -> (b: bool) {
        self == 0
    }

    fn is_one(self) -> (b: bool) {
        self == 1
    }

    fn less(self, other: Self) -> (b: bool) {
        self < other
    }

    fn equals(self, other: Self) -> (b: bool) {
        self == other
    }

    fn overflowing_add(self, other: Self) -> (r: (Self, bool)) {
        let z: u64 = self.wrapping_add(other);
        (z, z < self)
    }

    fn overflowing_sub(self, other: Self) -> (r: (Self, bool)) {
        (self.wrapping_sub(other), self < other)
    }

    fn minus(self, other: Self) -> (r: Self) {
        self - other
    }

    fn plus(self, other: Self) -> (r: Self) {
        self + other
    }

    fn times(self, other: Self) -> (r: Self) {
        self * other
    }

    fn quotient(self, other: Self) -> (r: Self) {
        self / other
    }

    fn remainder(self, other: Self) -> (r: Self) {
        self % other
    }
}

impl UnsignedInteger for u128 {
    open spec fn value(self) -> nat {
        self as nat
    }

    open spec fn max() -> nat {
        u128::MAX as nat
    }

    proof fn value_in_range(x: Self) {
    }

    proof fn value_injective(x: Self, y: Self) {
    }

    fn zero() -> (r: Self) {
        0
    }

    fn one() -> (r: Self) {
        1
    }

    fn is_zero(self) -> (b: bool) {
        self == 0
    }

    fn is_one(self) -> (b: bool) {
        self == 1
    }

    fn less(self, other: Self) -> (b: bool) {
        self < other
    }

    fn equals(self, other: Self) -> (b: bool) {
        self == other
    }

    fn overflowing_add(self, other: Self) -> (r: (Self, bool)) {
        let z: u128 = self.wrapping_add(other);
        (z, z < self)
    }

    fn overflowing_sub(self, other: Self) -> (r: (Self, bool)) {
        (self.wrapping_sub(other), self < other)
    }

    fn minus(self, other: Self) -> (r: Self) {
        self - other
    }

    fn plus(self, other: Self) -> (r: Self) {
        self + other
    }

    fn times(self, other: Self) -> (r: Self) {
        self * other
    }

    fn quotient(self, other: Self) -> (r: Self) {
        self / other
    }

    fn remainder(self, other: Self) -> (r: Self) {
        self % other
    }
}

impl UnsignedInteger for usize {
    open spec fn value(self) -> nat {
        self as nat
    }

    open spec fn max() -> nat {
        usize::MAX as nat
    }

    proof fn value_in_range(x: Self) {
    }

    proof fn value_injective(x: Self, y: Self) {
    }

    fn zero() -> (r: Self) {
        0
    }

    fn one() -> (r: Self) {
        1
    }

    fn is_zero(self) -> (b: bool) {
        self == 0
    }

    fn is_one(self) -> (b: bool) {
        self == 1
    }

    fn less(self, other: Self) -> (b: bool) {
        self < other
    }

    fn equals(self, other: Self) -> (b: bool) {
        self == other
    }

    fn overflowing_add(self, other: Self) -> (r: (Self, bool)) {
        let z: usize = self.wrapping_add(other);
        (z, z < self)
    }

    fn overflowing_sub(self, other: Self) -> (r: (Self, bool)) {
        (self.wrapping_sub(other), self < other)
    }

    fn minus(self, other: Self) -> (r: Self) {
        self - other
    }

    fn plus(self, other: Self) -> (r: Self) {
        self + other
    }

    fn times(self, other: Self) -> (r: Self) {
        self * other
    }

    fn quotient(self, other: Self) -> (r: Self) {
        self / other
    }

    fn remainder(self, other: Self) -> (r: Self) {
        self % other
    }
}

/// The greatest common divisor of `a` and `b`, by Euclid's recursion.
pub open spec fn gcd(a: nat, b: nat) -> nat
    decreases b,
{
    if b == 0 {
        a
    } else {
        gcd(b, a % b)
    }
}

/// `z` is the inverse of `x` in Zp.
pub open spec fn is_inverse(x: nat, z: nat, p: nat) -> bool {
    z < p && (x * z) % p == 1
}

/// `p` has no divisor but 1 and itself, and is at least 2.
pub open spec fn is_prime(p: nat) -> bool {
    1 < p && forall|d: nat| 1 < d < p ==> #[trigger] (p % d) != 0
}

/// `x + y` in Zp.
pub open spec fn add_mod(x: nat, y: nat, p: nat) -> nat {
    (x + y) % p
}

/// `x - y` in Zp.
pub open spec fn sub_mod(x: nat, y: nat, p: nat) -> nat {
    ((x - y) % (p as int)) as nat
}

/// `-x` in Zp.
pub open spec fn neg_mod(x: nat, p: nat) -> nat {
    ((-(x as int)) % (p as int)) as nat
}

/// `x * y` in Zp.
pub open spec fn mul_mod(x: nat, y: nat, p: nat) -> nat {
    (x * y) % p
}

/// `x^n` in Zp, with `0^0 == 1`.
pub open spec fn pow_mod(x: nat, n: nat, p: nat) -> nat {
    (vstd::arithmetic::power::pow(x as int, n) % (p as int)) as nat
}

/// Computes `x + y` in Zp.
pub fn add<T: UnsignedInteger>(x: T, y: T, p: T) -> (r: T)
    requires
        x.value() < p.value(),
        y.value() < p.value(),
    ensures
        r.value() == add_mod(x.value(), y.value(), p.value()),
{
    let (z, b) = x.overflowing_add(y);
    proof {
        T::value_in_range(p);
        let s = (x.value() + y.value()) as int;
        let m = p.value() as int;
        if s >= m {
            lemma_fundamental_div_mod_converse(s, m, 1, s - m);
        } else {
            lemma_small_mod(s as nat, m as nat);
        }
    }
    if b {
        z.overflowing_sub(p).0
    } else if !z.less(p) {
        z.minus(p)
    } else {
        z
    }
}

/// Computes `x - y` in Zp.
pub fn sub<T: UnsignedInteger>(x: T, y: T, p: T) -> (r: T)
    requires
        x.value() < p.value(),
        y.value() < p.value(),
    ensures
        r.value() == sub_mod(x.value(), y.value(), p.value()),
{
    let (z, b) = x.overflowing_sub(y);
    proof {
        lemma_mod_bound(x.value() - y.value(), p.value() as int);
        T::value_in_range(p);
        let d = x.value() - y.value();
        let m = p.value() as int;
        if d < 0 {
            lemma_fundamental_div_mod_converse(d, m, -1, d + m);
        } else {
            lemma_small_mod(d as nat, m as nat);
        }
    }
    if b {
        z.overflowing_add(p).0
    } else {
        z
    }
}

/// Computes `-x` in Zp.
pub fn neg<T: UnsignedInteger>(x: T, p: T) -> (r: T)
    requires
        x.value() < p.value(),
    ensures
        r.value() == neg_mod(x.value(), p.value()),
{
    proof {
        lemma_mod_bound(-(x.value() as int), p.value() as int);
        let m = p.value() as int;
        let d = -(x.value() as int);
        if d < 0 {
            lemma_fundamental_div_mod_converse(d, m, -1, d + m);
        } else {
            lemma_small_mod(0, m as nat);
        }
    }
    if x.is_zero() {
        T::zero()
    } else {
        p.minus(x)
    }
}

/// The arithmetic behind Schrage's method: with `q = p / x` and `r = p % x`,
/// neither partial product leaves `[0, p)`, and `x * y` is congruent to
/// `x * (y % q) - r * (y / q)`.
proof fn lemma_schrage(x: nat, y: nat, p: nat)
    requires
        0 < x < p,
        y < p,
    ensures
        p / x >= 1,
        p % x < x,
        x * (y % (p / x)) < p,
        y / (p / x) <= y,
        p % x <= p / x ==> (p % x) * (y / (p / x)) < p,
        (x * y) % p == ((x * (y % (p / x))) as int - ((p % x) * (y / (p / x))) % p) % (p as int),
{
    let q = p / x;
    let r = p % x;
    lemma_fundamental_div_mod(p as int, x as int);
    lemma_mod_bound(p as int, x as int);
    assert(q >= 1) by (nonlinear_arith)
        requires
            p == x * q + r,
            r < x,
            x < p,
            0 < x,
    {}
    let yq = y / q;
    let ym = y % q;
    lemma_fundamental_div_mod(y as int, q as int);
    lemma_mod_bound(y as int, q as int);
    assert(x * ym < p) by (nonlinear_arith)
        requires
            p == x * q + r,
            ym < q,
            0 < x,
    {}
    assert(yq <= y) by (nonlinear_arith)
        requires
            y == q * yq + ym,
            q >= 1,
    {}
    if r <= q {
        assert(r * yq < p) by (nonlinear_arith)
            requires
                y == q * yq + ym,
                r <= q,
                y < p,
        {}
    }
    let a = (x * ym) as int;
    let b = (r * yq) as int;
    assert(x * y == p * yq + (a - b)) by (nonlinear_arith)
        requires
            p == x * q + r,
            y == q * yq + ym,
            a == x * ym,
            b == r * yq,
    {}
    lemma_mod_multiples_vanish(yq as int, a - b, p as int);
    lemma_sub_mod_noop_right(a, b, p as int);
}

/// Computes `x * y` in Zp by Schrage's method, in which no intermediate value
/// exceeds the modulus.
pub fn mul<T: UnsignedInteger>(x: T, y: T, p: T) -> (r: T)
    requires
        x.value() < p.value(),
        y.value() < p.value(),
    ensures
        r.value() == mul_mod(x.value(), y.value(), p.value()),
    decreases x.value(),
{
    if x.is_zero() {
        proof {
            assert(x.value() * y.value() == 0) by (nonlinear_arith)
                requires
                    x.value() == 0,
            {}
            lemma_small_mod(0, p.value());
        }
        T::zero()
    } else {
        proof {
            lemma_schrage(x.value(), y.value(), p.value());
            T::value_in_range(p);
        }
        let q = p.quotient(x);
        let r = p.remainder(x);
        let a = x.times(y.remainder(q));
        let b = if !q.less(r) {
            let b0 = r.times(y.quotient(q));
            proof {
                lemma_small_mod(b0.value(), p.value());
            }
            b0
        } else {
            self::mul(r, y.quotient(q), p)
        };
        self::sub(a, b, p)
    }
}

/// One step of Euclid's algorithm keeps the invariants of `inv`.
proof fn lemma_inv_step(
    x: int,
    p: int,
    u1: int,
    v1: int,
    u3: int,
    v3: int,
    ca: int,
    cb: int,
    even: bool,
)
    requires
        0 <= u1,
        0 <= v1,
        0 <= u3,
        0 < v3,
        0 <= x,
        0 < p,
        u1 * v3 + v1 * u3 == p,
        even ==> u1 * x + ca * p == u3 && cb * p - v1 * x == v3,
        !even ==> ca * p - u1 * x == u3 && v1 * x + cb * p == v3,
    ensures
        0 <= (u3 / v3) * v1 <= p,
        u1 + (u3 / v3) * v1 <= p,
        v1 * (u3 % v3) + (u1 + (u3 / v3) * v1) * v3 == p,
        !even ==> v1 * x + cb * p == v3 && (ca - (u3 / v3) * cb) * p - (u1 + (u3 / v3) * v1) * x
            == u3 % v3,
        even ==> cb * p - v1 * x == v3 && (u1 + (u3 / v3) * v1) * x + (ca - (u3 / v3) * cb) * p
            == u3 % v3,
{
    let q = u3 / v3;
    let t3 = u3 % v3;
    lemma_fundamental_div_mod(u3, v3);
    lemma_mod_bound(u3, v3);
    assert(0 <= q) by (nonlinear_arith)
        requires
            u3 == v3 * q + t3,
            t3 < v3,
            0 <= u3,
            0 < v3,
    {}
    assert(0 <= q * v1) by (nonlinear_arith)
        requires
            0 <= q,
            0 <= v1,
    {}
    assert(v1 * t3 + (u1 + q * v1) * v3 == p) by (nonlinear_arith)
        requires
            u3 == v3 * q + t3,
            u1 * v3 + v1 * u3 == p,
    {}
    assert(u1 + q * v1 <= p && q * v1 <= p) by (nonlinear_arith)
        requires
            v1 * t3 + (u1 + q * v1) * v3 == p,
            0 <= v1,
            0 <= t3,
            0 < v3,
            0 <= u1,
            0 <= q * v1,
    {}
    if even {
        assert((u1 + q * v1) * x + (ca - q * cb) * p == t3) by (nonlinear_arith)
            requires
                u3 == v3 * q + t3,
                u1 * x + ca * p == u3,
                cb * p - v1 * x == v3,
        {}
    } else {
        assert((ca - q * cb) * p - (u1 + q * v1) * x == t3) by (nonlinear_arith)
            requires
                u3 == v3 * q + t3,
                ca * p - u1 * x == u3,
                v1 * x + cb * p == v3,
        {}
    }
}

/// What the invariants of `inv` give once Euclid's algorithm has ended with
/// the greatest common divisor 1.
proof fn lemma_inv_end(x: int, p: int, u1: int, ca: int, even: bool)
    requires
        0 <= u1 <= p,
        0 <= x,
        1 < p,
        even ==> u1 * x + ca * p == 1,
        !even ==> ca * p - u1 * x == 1,
    ensures
        even ==> u1 < p && (x * u1) % p == 1,
        !even ==> 0 < u1 && (x * (p - u1)) % p == 1,
{
    lemma_small_mod(1, p as nat);
    if even {
        if u1 == p {
            let k = x + ca;
            assert(p * k == 1) by (nonlinear_arith)
                requires
                    u1 * x + ca * p == 1,
                    u1 == p,
                    k == x + ca,
            {}
            assert(false) by (nonlinear_arith)
                requires
                    p * k == 1,
                    1 < p,
            {
                if k >= 1 {
                    assert(p * k >= p);
                } else {
                    assert(p * k <= 0);
                }
            }
        }
        assert(x * u1 == (-ca) * p + 1) by (nonlinear_arith)
            requires
                u1 * x + ca * p == 1,
        {}
        lemma_mod_multiples_vanish(-ca, 1, p);
    } else {
        if u1 == 0 {
            assert(ca * p == 1) by (nonlinear_arith)
                requires
                    ca * p - u1 * x == 1,
                    u1 == 0,
            {}
            assert(false) by (nonlinear_arith)
                requires
                    ca * p == 1,
                    1 < p,
            {
                if ca >= 1 {
                    assert(ca * p >= p);
                } else {
                    assert(ca * p <= 0);
                }
            }
        }
        assert(x * (p - u1) == (x - ca) * p + 1) by (nonlinear_arith)
            requires
                ca * p - u1 * x == 1,
        {}
        lemma_mod_multiples_vanish(x - ca, 1, p);
    }
}

/// Computes `1/x` in Zp by the extended Euclidean algorithm. The running
/// coefficient stays non-negative: the parity of the iteration count tells
/// its sign. Fails where `x` and `p` have a common divisor, so on `x == 0`.
pub fn inv<T: UnsignedInteger>(x: T, p: T) -> (r: Result<T, KernelError>)
    requires
        x.value() < p.value(),
        1 < p.value(),
    ensures
        r is Ok <==> gcd(x.value(), p.value()) == 1,
        r matches Ok(z) ==> is_inverse(x.value(), z.value(), p.value()),
        r matches Err(e) ==> e == KernelError::NotInvertible,
{
    let mut u1 = T::one();
    let mut u3 = x;
    let mut v1 = T::zero();
    let mut v3 = p;
    let mut even_iter: bool = true;
    let ghost mut ca: int = 0;
    let ghost mut cb: int = 1;
    proof {
        assert(1 * (x.value() as int) + 0 * (p.value() as int) == x.value()) by (nonlinear_arith);
        assert(1 * (p.value() as int) - 0 * (x.value() as int) == p.value()) by (nonlinear_arith);
        assert(1 * (p.value() as int) + 0 * (x.value() as int) == p.value()) by (nonlinear_arith);
    }
    while !v3.is_zero()
        invariant
            1 < p.value(),
            u1.value() <= p.value(),
            v1.value() <= p.value(),
            u1.value() * v3.value() + v1.value() * u3.value() == p.value(),
            gcd(u3.value(), v3.value()) == gcd(x.value(), p.value()),
            even_iter ==> u1.value() * x.value() + ca * p.value() == u3.value() && cb * p.value()
                - v1.value() * x.value() == v3.value(),
            !even_iter ==> ca * p.value() - u1.value() * x.value() == u3.value() && v1.value()
                * x.value() + cb * p.value() == v3.value(),
        decreases v3.value(),
    {
        proof {
            lemma_inv_step(
                x.value() as int,
                p.value() as int,
                u1.value() as int,
                v1.value() as int,
                u3.value() as int,
                v3.value() as int,
                ca,
                cb,
                even_iter,
            );
            T::value_in_range(p);
            lemma_mod_bound(u3.value() as int, v3.value() as int);
        }
        let q = u3.quotient(v3);
        let t3 = u3.remainder(v3);
        let t1 = u1.plus(q.times(v1));
        proof {
            let ncb = ca - (q.value() as int) * cb;
            ca = cb;
            cb = ncb;
        }
        u1 = v1;
        v1 = t1;
        u3 = v3;
        v3 = t3;
        even_iter = !even_iter;
    }
    if !u3.is_one() {
        return Err(KernelError::NotInvertible);
    }
    proof {
        lemma_inv_end(x.value() as int, p.value() as int, u1.value() as int, ca, even_iter);
    }
    if even_iter {
        Ok(u1)
    } else {
        Ok(p.minus(u1))
    }
}

/// A multiple of `g` plus a multiple of `g` is a multiple of `g`.
proof fn lemma_divides_combination(g: nat, b: nat, k: nat, r: nat)
    requires
        g > 0,
        b % g == 0,
        r % g == 0,
    ensures
        (b * k + r) % g == 0,
{
    lemma_fundamental_div_mod(b as int, g as int);
    lemma_fundamental_div_mod(r as int, g as int);
    let bq = (b / g) as int;
    let rq = (r / g) as int;
    assert(b * k + r == (bq * k + rq) * g) by (nonlinear_arith)
        requires
            b == g * bq,
            r == g * rq,
    {}
    lemma_mod_multiples_basic(bq * k + rq, g as int);
}

/// The greatest common divisor divides both numbers.
pub proof fn lemma_gcd_divides(a: nat, b: nat)
    requires
        a > 0 || b > 0,
    ensures
        gcd(a, b) > 0,
        a % gcd(a, b) == 0,
        b % gcd(a, b) == 0,
    decreases b,
{
    if b == 0 {
        lemma_mod_self_0(a as int);
        lemma_small_mod(0, a);
    } else {
        lemma_mod_bound(a as int, b as int);
        lemma_gcd_divides(b, a % b);
        lemma_fundamental_div_mod(a as int, b as int);
        lemma_divides_combination(gcd(a, b), b, a / b, a % b);
    }
}

/// For a prime modulus, every `x` with `0 < x < p` has an inverse: `inv`
/// returns a `z` for it, and `mul(x, z, p)` is 1.
pub proof fn lemma_prime_field_inverse(x: nat, p: nat)
    requires
        is_prime(p),
        0 < x < p,
    ensures
        gcd(x, p) == 1,
        forall|z: nat| is_inverse(x, z, p) ==> mul_mod(x, z, p) == 1,
{
    lemma_gcd_divides(x, p);
    let g = gcd(x, p);
    if g > x {
        lemma_small_mod(x, g);
    }
    if g != 1 {
        assert(p % g != 0);
    }
}

/// Zero has no inverse: `inv(0, p)` fails.
pub proof fn lemma_zero_not_invertible(p: nat)
    requires
        1 < p,
    ensures
        gcd(0, p) != 1,
{
    lemma_small_mod(0, p);
    assert(gcd(0, p) == gcd(p, 0)) by {
        reveal_with_fuel(gcd, 2);
    }
}

/// `add(x, neg(x, p), p)` is 0.
pub proof fn lemma_add_neg(x: nat, p: nat)
    requires
        x < p,
    ensures
        add_mod(x, neg_mod(x, p), p) == 0,
{
    let m = p as int;
    let d = -(x as int);
    if d < 0 {
        lemma_fundamental_div_mod_converse(d, m, -1, d + m);
        lemma_mod_self_0(m);
    } else {
        lemma_small_mod(0, p);
    }
}

/// A number below `p` without a divisor in common with `p` has an inverse
/// modulo `p`: there are integers `s` and `t` with `s * x + t * p == 1`.
pub proof fn lemma_coprime_inverse(x: nat, p: nat)
    requires
        x < p,
        1 < p,
        gcd(x, p) == 1,
    ensures
        exists|z: nat| is_inverse(x, z, p),
{
    let (s, t) = lemma_bezout(x, p);
    // the residue of s is the inverse
    let z = (s % (p as int)) as nat;
    lemma_mod_bound(s, p as int);
    lemma_fundamental_div_mod(s, p as int);
    let k = s / (p as int);
    assert(x * (z as int) == (-(t + k * x)) * (p as int) + 1) by (nonlinear_arith)
        requires
            s * x + t * p == 1,
            s == p * k + z,
    {
        assert((p * k + z) * x == p * k * x + z * x);
        assert((-(t + k * x)) * p == -(t * p) - k * x * p);
    }
    lemma_mod_multiples_vanish(-(t + k * x), 1, p as int);
    lemma_small_mod(1, p);
    assert(is_inverse(x, z, p));
}

/// A number with an inverse modulo `p` has no divisor in common with `p`.
pub proof fn lemma_inverse_coprime(x: nat, z: nat, p: nat)
    requires
        1 < p,
        (x * z) % p == 1,
    ensures
        gcd(x, p) == 1,
{
    // a common divisor of x and p divides x * z - k * p == 1
    lemma_gcd_divides(x, p);
    let g = gcd(x, p);
    lemma_fundamental_div_mod((x * z) as int, p as int);
    lemma_fundamental_div_mod(x as int, g as int);
    lemma_fundamental_div_mod(p as int, g as int);
    let k = ((x * z) as int) / (p as int);
    let xg = (x as int) / (g as int);
    let pg = (p as int) / (g as int);
    assert(g * (xg * z - pg * k) == 1) by (nonlinear_arith)
        requires
            x * z == p * k + 1,
            x == g * xg,
            p == g * pg,
    {
        assert(g * xg * z == g * (xg * z));
        assert(g * pg * k == g * (pg * k));
    }
    let w = xg * z - pg * k;
    assert(g == 1) by (nonlinear_arith)
        requires
            g * w == 1,
            g > 0,
    {
        if w >= 1 {
            assert(g * w >= g);
        } else {
            assert(g * w <= 0);
        }
    }
}

/// Integers `s` and `t` with `s * a + t * b == gcd(a, b)`.
pub proof fn lemma_bezout(a: nat, b: nat) -> (st: (int, int))
    ensures
        st.0 * a + st.1 * b == gcd(a, b),
    decreases b,
{
    if b == 0 {
        assert(1 * (a as int) + 0 * (b as int) == a) by (nonlinear_arith);
        (1, 0)
    } else {
        lemma_mod_bound(a as int, b as int);
        let (s, t) = lemma_bezout(b, a % b);
        lemma_fundamental_div_mod(a as int, b as int);
        let q = (a / b) as int;
        let r = (a % b) as int;
        // s * b + t * (a - q * b) == t * a + (s - t * q) * b
        assert(t * a + (s - t * q) * b == s * b + t * r) by (nonlinear_arith)
            requires
                a == b * q + r,
        {
            assert(t * (b * q + r) == t * b * q + t * r);
            assert((s - t * q) * b == s * b - t * q * b);
        }
        (t, s - t * q)
    }
}

/// Computes `x^n` in Zp, by `n - 1` multiplications.
pub fn pow<T: UnsignedInteger>(x: T, n: u32, p: T) -> (r: T)
    requires
        x.value() < p.value(),
        1 < p.value(),
    ensures
        r.value() == pow_mod(x.value(), n as nat, p.value()),
{
    proof {
        lemma_mod_bound(vstd::arithmetic::power::pow(x.value() as int, n as nat), p.value() as int);
        reveal(vstd::arithmetic::power::pow);
        lemma_pow0(x.value() as int);
        lemma_pow1(x.value() as int);
        lemma_small_mod(1, p.value());
        lemma_small_mod(x.value(), p.value());
    }
    if n == 0 {
        return T::one();
    }
    let mut r = x;
    let mut i: u32 = 1;
    while i < n
        invariant
            1 <= i <= n,
            x.value() < p.value(),
            r.value() < p.value(),
            r.value() == vstd::arithmetic::power::pow(x.value() as int, i as nat) % (
            p.value() as int),
        decreases n - i,
    {
        proof {
            let xi = vstd::arithmetic::power::pow(x.value() as int, i as nat);
            reveal(vstd::arithmetic::power::pow);
            assert(vstd::arithmetic::power::pow(x.value() as int, (i + 1) as nat) == (
            x.value() as int) * xi);
            lemma_mul_mod_noop_left(xi, x.value() as int, p.value() as int);
            lemma_mul_is_commutative(xi, x.value() as int);
            lemma_mod_bound(xi * (x.value() as int), p.value() as int);
        }
        r = self::mul(r, x, p);
        i = i + 1;
    }
    r
}

/// Solves the linear system `a * x == b` in Zp, for a prime `p`, by
/// Gaussian elimination: for every column a row with an entry that is not
/// zero is swapped into place and scaled to make that entry one, and the
/// column is eliminated from all other rows.
///
/// The system has exactly one solution unless the matrix is singular, which
/// is reported.
pub fn solve<T: UnsignedInteger>(a: &Vec<Vec<T>>, b: &Vec<T>, p: T) -> (r: Result<
    Vec<T>,
    KernelError,
>)
    requires
        is_prime(p.value()),
        is_reduced(matrix_values(a@), row_values(b@), p.value()),
    ensures
        !is_square(matrix_values(a@), row_values(b@)) ==> r == Err::<Vec<T>, KernelError>(
            KernelError::DimensionMismatch,
        ),
        is_square(matrix_values(a@), row_values(b@)) ==> match r {
            Ok(x) => {
                &&& is_solution(matrix_values(a@), row_values(b@), row_values(x@), p.value())
                &&& forall|i: int| 0 <= i < x@.len() ==> (#[trigger] x@[i]).value() < p.value()
                &&& !is_singular(matrix_values(a@), p.value())
            },
            Err(e) => e == KernelError::Singular && is_singular(matrix_values(a@), p.value()),
        },
{
    if !check_square(a, b) {
        return Err(KernelError::DimensionMismatch);
    }
    let ghost a0 = matrix_values(a@);
    let ghost b0 = row_values(b@);
    let ghost pv = p.value();
    let n = a.len();
    let mut m = copy_matrix(a);
    let mut c = copy_row(b);
    proof {
        lemma_equivalent_reflexive(a0, b0, pv);
    }
    let mut k: usize = 0;
    while k < n
        invariant
            is_prime(pv),
            pv == p.value(),
            n == a@.len(),
            a0 == matrix_values(a@),
            b0 == row_values(b@),
            is_square(a0, b0),
            a0.len() == n,
            k <= n,
            is_system(m@, c@, n as nat, pv),
            unit_columns(matrix_values(m@), k as nat),
            equivalent(a0, b0, matrix_values(m@), row_values(c@), pv),
        decreases n - k,
    {
        let ghost m1 = matrix_values(m@);
        let ghost c1 = row_values(c@);
        proof {
            assert(is_square(m1, Seq::new(m@.len(), |i: int| 0nat))) by {
                assert forall|i: int| 0 <= i < m1.len() implies (#[trigger] m1[i]).len()
                    == m1.len() by {}
            }
        }
        let r = find_pivot(&m, k);
        if r == n {
            proof {
                lemma_no_pivot(m1, c1, k as int, pv);
                lemma_singular_transfer(a0, b0, m1, c1, pv);
            }
            return Err(KernelError::Singular);
        }
        swap_rows(&mut m, &mut c, k, r);
        proof {
            let m2 = matrix_values(m@);
            let c2 = row_values(c@);
            assert(m2 =~= m1.update(k as int, m1[r as int]).update(r as int, m1[k as int]));
            assert(c2 =~= c1.update(k as int, c1[r as int]).update(r as int, c1[k as int]));
            lemma_swap_rows(m1, c1, k as int, r as int, pv);
            lemma_equivalent_transitive(a0, b0, m1, c1, m2, c2, pv);
            assert forall|i: int, j: int| 0 <= i < m2.len() && 0 <= j < m2[i].len() implies (
            #[trigger] m2[i][j]) < pv by {
                assert(m1[i][j] < pv);
                assert(m1[k as int][j] < pv);
                assert(m1[r as int][j] < pv);
            }
            assert forall|i: int| 0 <= i < c2.len() implies (#[trigger] c2[i]) < pv by {
                assert(c1[i] < pv);
                assert(c1[k as int] < pv);
                assert(c1[r as int] < pv);
            }
            assert forall|i: int, j: int| 0 <= i < m2.len() && 0 <= j < k implies (
            #[trigger] m2[i][j]) == (if i == j {
                1nat
            } else {
                0nat
            }) by {
                assert(m1[i][j] == (if i == j {
                    1nat
                } else {
                    0nat
                }));
                assert(m1[k as int][j] == 0);
                assert(m1[r as int][j] == 0);
            }
        }
        let ghost m2 = matrix_values(m@);
        let ghost c2 = row_values(c@);
        normalize_pivot(&mut m, &mut c, k, p);
        let ghost m3 = matrix_values(m@);
        let ghost c3 = row_values(c@);
        eliminate_column(&mut m, &mut c, k, p);
        proof {
            lemma_equivalent_transitive(a0, b0, m2, c2, m3, c3, pv);
            lemma_equivalent_transitive(a0, b0, m3, c3, matrix_values(m@), row_values(c@), pv);
        }
        k = k + 1;
    }
    proof {
        let m1 = matrix_values(m@);
        let c1 = row_values(c@);
        lemma_unit_matrix(m1, c1, pv);
        lemma_inhomogeneous(m1, c1, c1, pv);
        lemma_inhomogeneous(a0, b0, c1, pv);
        assert(system_holds(a0, b0, c1, 1, pv) == system_holds(m1, c1, c1, 1, pv));
        if is_singular(a0, pv) {
            lemma_equivalent_symmetric(a0, b0, m1, c1, pv);
            lemma_singular_transfer(m1, c1, a0, b0, pv);
        }
        assert forall|i: int| 0 <= i < c@.len() implies (#[trigger] c@[i]).value() < pv by {
            assert(c1[i] < pv);
        }
    }
    Ok(c)
}

} // verus!
