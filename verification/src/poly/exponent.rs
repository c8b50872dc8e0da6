//! The type of the exponents of a polynomial: a bounded unsigned integer.

use vstd::prelude::*;
use crate::poly::raw::zp::UnsignedInteger;

verus! {

/// An exponent of one variable. Its sums are checked: one that does not fit
/// is reported, never wrapped.
pub trait Exponent: UnsignedInteger {
    /// `self + other`, or `None` where the sum does not fit.
    fn checked_add(self, other: Self) -> (r: Option<Self>)
        ensures
            r is Some <==> self.value() + other.value() <= Self::max(),
            r matches Some(s) ==> s.value() == self.value() + other.value(),
    ;

    /// The exponent as an index, or `None` where it is too large for one.
    fn to_index(self) -> (r: Option<usize>)
        ensures
            r matches Some(i) ==> i == self.value(),
            r is None ==> self.value() > usize::MAX,
    ;

    /// The exponent as a number of 32 bits, or `None` where it is too large
    /// for one.
    fn to_u32(self) -> (r: Option<u32>)
        ensures
            r matches Some(i) ==> i == self.value(),
            r is None ==> self.value() > u32::MAX,
    ;
}

impl Exponent for u8 {
    fn checked_add(self, other: Self) -> (r: Option<Self>) {
        self.checked_add(other)
    }

    fn to_index(self) -> (r: Option<usize>) {
        Some(self as usize)
    }

    fn to_u32(self) -> (r: Option<u32>) {
        Some(self as u32)
    }
}

impl Exponent for u16 {
    fn checked_add(self, other: Self) -> (r: Option<Self>) {
        self.checked_add(other)
    }

    fn to_index(self) -> (r: Option<usize>) {
        Some(self as usize)
    }

    fn to_u32(self) -> (r: Option<u32>) {
        Some(self as u32)
    }
}

impl Exponent for u32 {
    fn checked_add(self, other: Self) -> (r: Option<Self>) {
        self.checked_add(other)
    }

    fn to_index(self) -> (r: Option<usize>) {
        Some(self as usize)
    }

    fn to_u32(self) -> (r: Option<u32>) {
        Some(self)
    }
}

impl Exponent for u64 {
    fn checked_add(self, other: Self) -> (r: Option<Self>) {
        self.checked_add(other)
    }

    fn to_index(self) -> (r: Option<usize>) {
        if self <= usize::MAX as u64 {
            Some(self as usize)
        } else {
            None
        }
    }

    fn to_u32(self) -> (r: Option<u32>) {
        if self <= u32::MAX as u64 {
            Some(self as u32)
        } else {
            None
        }
    }
}

} // verus!
