//! The ring of 64-bit integers. Sums and products wrap around, so the ring
//! is that of the integers modulo 2^64, with its residues written from
//! -2^63 to 2^63 - 1. Division rounds towards zero.

use vstd::prelude::*;
use vstd::arithmetic::div_mod::*;
use vstd::arithmetic::mul::*;
use vstd::wrapping::i64_specs::{signed_crop, wrapping_add, wrapping_mul, wrapping_sub};
use crate::poly::raw::zp::gcd;
use crate::poly::ring::{Ring, GCD};

verus! {

/// 2^64.
pub open spec fn range64() -> int {
    0x1_0000_0000_0000_0000int
}

/// `signed_crop` leaves the residue modulo 2^64 as it is.
proof fn lemma_crop_residue(x: int)
    ensures
        (signed_crop(x) as int) % range64() == x % range64(),
        i64::MIN <= signed_crop(x) <= i64::MAX,
{
    let r = range64();
    lemma_mod_bound(x, r);
    lemma_mod_twice(x, r);
    if x % r > i64::MAX {
        lemma_mod_multiples_vanish(-1, x % r, r);
    }
}

/// `signed_crop` of a 64-bit integer is that integer.
proof fn lemma_crop_id(a: i64)
    ensures
        signed_crop(a as int) == a,
{
    let r = range64();
    if a >= 0 {
        lemma_small_mod(a as nat, r as nat);
    } else {
        lemma_small_mod((a + r) as nat, r as nat);
        lemma_mod_multiples_vanish(1, a as int, r);
    }
}

/// Two integers with the same residue have the same `signed_crop`.
proof fn lemma_crop_congruent(x: int, y: int)
    requires
        x % range64() == y % range64(),
    ensures
        signed_crop(x) == signed_crop(y),
{
}

/// The wrapping sum is the `signed_crop` of the sum.
proof fn lemma_add_is_crop(a: i64, b: i64)
    ensures
        wrapping_add(a, b) == signed_crop(a + b),
{
    let r = range64();
    let s = a + b;
    if s > i64::MAX {
        lemma_small_mod(s as nat, r as nat);
    } else if s < i64::MIN {
        lemma_small_mod((s + r) as nat, r as nat);
        lemma_mod_multiples_vanish(1, s, r);
    } else {
        lemma_crop_id(s as i64);
    }
}

/// The quotient of `a` by `b`, rounded towards zero and wrapped.
pub open spec fn quotient(a: i64, b: i64) -> i64 {
    match a.checked_div(b) {
        Some(q) => q,
        None => a,
    }
}

impl Ring for i64 {
    open spec fn wf(self) -> bool {
        true
    }

    open spec fn zero_spec() -> Self {
        0i64
    }

    open spec fn one_spec() -> Self {
        1i64
    }

    open spec fn add_spec(self, rhs: Self) -> Self {
        wrapping_add(self, rhs)
    }

    open spec fn neg_spec(self) -> Self {
        wrapping_sub(0i64, self)
    }

    open spec fn mul_spec(self, rhs: Self) -> Self {
        wrapping_mul(self, rhs)
    }

    open spec fn div_spec(self, rhs: Self) -> Self {
        quotient(self, rhs)
    }

    open spec fn rem_spec(self, rhs: Self) -> Self {
        wrapping_sub(self, wrapping_mul(quotient(self, rhs), rhs))
    }

    proof fn lemma_constants() {
    }

    proof fn lemma_closed(a: Self, b: Self) {
    }

    proof fn lemma_add_commutative(a: Self, b: Self) {
    }

    proof fn lemma_add_associative(a: Self, b: Self, c: Self) {
    }

    proof fn lemma_add_zero(a: Self) {
    }

    proof fn lemma_add_neg(a: Self) {
    }

    proof fn lemma_mul_commutative(a: Self, b: Self) {
        lemma_mul_is_commutative(a as int, b as int);
    }

    proof fn lemma_mul_associative(a: Self, b: Self, c: Self) {
        let r = range64();
        let ab = signed_crop(a * b);
        let bc = signed_crop(b * c);
        lemma_crop_residue(a * b);
        lemma_crop_residue(b * c);
        lemma_mul_mod_noop_left(ab as int, c as int, r);
        lemma_mul_mod_noop_left(a * b, c as int, r);
        lemma_mul_mod_noop_right(a as int, bc as int, r);
        lemma_mul_mod_noop_right(a as int, b * c, r);
        lemma_mul_is_associative(a as int, b as int, c as int);
        lemma_crop_congruent(ab * c, a * bc);
    }

    proof fn lemma_mul_one(a: Self) {
        lemma_mul_basics(a as int);
        lemma_crop_id(a);
    }

    proof fn lemma_distributive(a: Self, b: Self, c: Self) {
        let r = range64();
        let s = wrapping_add(b, c);
        let ab = signed_crop(a * b);
        let ac = signed_crop(a * c);
        lemma_add_is_crop(b, c);
        lemma_add_is_crop(ab, ac);
        lemma_crop_residue(b + c);
        lemma_crop_residue(a * b);
        lemma_crop_residue(a * c);
        // a * s is congruent to a * (b + c)
        lemma_mul_mod_noop_right(a as int, s as int, r);
        lemma_mul_mod_noop_right(a as int, b + c, r);
        // ab + ac is congruent to a * b + a * c
        lemma_add_mod_noop(ab as int, ac as int, r);
        lemma_add_mod_noop(a * b, a * c, r);
        lemma_mul_is_distributive_add(a as int, b as int, c as int);
        lemma_crop_congruent(a * s, ab + ac);
    }

    proof fn lemma_div_rem(a: Self, b: Self) {
    }

    proof fn lemma_div_self(a: Self) {
        if a > 0 {
            lemma_div_basics(a as int);
        } else {
            lemma_div_basics(-(a as int));
            assert((a as int) * -1 == -(a as int));
        }
        assert(quotient(a, a) == 1i64);
        lemma_mul_basics(a as int);
        lemma_crop_id(a);
    }

    fn zero() -> (r: Self) {
        0
    }

    fn one() -> (r: Self) {
        1
    }

    fn is_zero(self) -> (b: bool) {
        self == 0
    }

    fn is_one(self) -> (b: bool) {
        self == 1
    }

    fn equals(self, rhs: Self) -> (b: bool) {
        self == rhs
    }

    fn add(self, rhs: Self) -> (r: Self) {
        self.wrapping_add(rhs)
    }

    fn sub(self, rhs: Self) -> (r: Self) {
        self.wrapping_sub(rhs)
    }

    fn neg(self) -> (r: Self) {
        0i64.wrapping_sub(self)
    }

    fn mul(self, rhs: Self) -> (r: Self) {
        self.wrapping_mul(rhs)
    }

    fn div(self, rhs: Self) -> (r: Self) {
        match self.checked_div(rhs) {
            Some(q) => q,
            None => self,
        }
    }

    fn rem(self, rhs: Self) -> (r: Self) {
        let q = match self.checked_div(rhs) {
            Some(q) => q,
            None => self,
        };
        self.wrapping_sub(q.wrapping_mul(rhs))
    }
}

/// The absolute value of an integer.
pub open spec fn magnitude(a: i64) -> nat {
    if a >= 0 {
        a as nat
    } else {
        (-(a as int)) as nat
    }
}

/// The 64-bit integer for a number up to 2^63, which wraps to the smallest
/// integer.
pub open spec fn from_magnitude(g: nat) -> i64 {
    if g <= i64::MAX {
        g as i64
    } else {
        i64::MIN
    }
}

/// The absolute value of an integer, as an unsigned integer.
fn magnitude_of(a: i64) -> (r: u64)
    ensures
        r == magnitude(a),
{
    if a >= 0 {
        a as u64
    } else if a == i64::MIN {
        9223372036854775808u64
    } else {
        (-a) as u64
    }
}

impl GCD for i64 {
    /// The greatest common divisor of the absolute values.
    open spec fn gcd_spec(a: Self, b: Self) -> Self {
        from_magnitude(gcd(magnitude(a), magnitude(b)))
    }

    proof fn lemma_gcd_closed(a: Self, b: Self) {
    }

    fn gcd(a: Self, b: Self) -> (g: Self) {
        let mut x = magnitude_of(a);
        let mut y = magnitude_of(b);
        while y != 0
            invariant
                gcd(x as nat, y as nat) == gcd(magnitude(a), magnitude(b)),
            decreases y,
        {
            proof {
                lemma_mod_bound(x as int, y as int);
            }
            let r = x % y;
            x = y;
            y = r;
        }
        if x <= 9223372036854775807u64 {
            x as i64
        } else {
            i64::MIN
        }
    }
}

} // verus!
