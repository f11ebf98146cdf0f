//! Thin capability traits over machine integers — bit counting and the
//! additive and multiplicative identities — and a small plumbing helper
//! turning an overflow-flagged pair into an option.

use vstd::prelude::*;
use vstd::std_specs::bits::{
    axiom_u16_leading_zeros, axiom_u32_leading_zeros, axiom_u64_leading_zeros,
    axiom_u8_leading_zeros, u16_leading_zeros, u32_leading_zeros, u64_leading_zeros,
    u8_leading_zeros,
};

verus! {

/// Bit access on an unsigned machine integer: its total width, the
/// number of significant bits, and single-bit reads.
pub trait Bits: Sized {
    /// The type's total bit width.
    spec fn spec_width() -> u32;

    /// The number of significant bits: the width minus the leading
    /// zeros.
    spec fn spec_bits(&self) -> u32;

    /// Whether the bit at `index` (0 = least significant) is set.
    spec fn spec_bit(&self, index: u32) -> bool;

    /// The number of significant bits of this value.
    fn bits(&self) -> (r: u32)
        ensures
            r == self.spec_bits(),
    ;

    /// Reads the bit at `index` (0 = least significant).
    fn bit(&self, index: u32) -> (r: bool)
        requires
            index < Self::spec_width(),
        ensures
            r == self.spec_bit(index),
    ;
}

impl Bits for u8 {
    open spec fn spec_width() -> u32 {
        8
    }

    open spec fn spec_bits(&self) -> u32 {
        (8 - u8_leading_zeros(*self)) as u32
    }

    open spec fn spec_bit(&self, index: u32) -> bool {
        *self & (1u8 << index) != 0
    }

    fn bits(&self) -> (r: u32) {
        proof {
            axiom_u8_leading_zeros(*self);
        }
        8 - self.leading_zeros()
    }

    fn bit(&self, index: u32) -> (r: bool) {
        *self & (1u8 << index) != 0
    }
}

impl Bits for u16 {
    open spec fn spec_width() -> u32 {
        16
    }

    open spec fn spec_bits(&self) -> u32 {
        (16 - u16_leading_zeros(*self)) as u32
    }

    open spec fn spec_bit(&self, index: u32) -> bool {
        *self & (1u16 << index) != 0
    }

    fn bits(&self) -> (r: u32) {
        proof {
            axiom_u16_leading_zeros(*self);
        }
        16 - self.leading_zeros()
    }

    fn bit(&self, index: u32) -> (r: bool) {
        *self & (1u16 << index) != 0
    }
}

impl Bits for u32 {
    open spec fn spec_width() -> u32 {
        32
    }

    open spec fn spec_bits(&self) -> u32 {
        (32 - u32_leading_zeros(*self)) as u32
    }

    open spec fn spec_bit(&self, index: u32) -> bool {
        *self & (1u32 << index) != 0
    }

    fn bits(&self) -> (r: u32) {
        proof {
            axiom_u32_leading_zeros(*self);
        }
        32 - self.leading_zeros()
    }

    fn bit(&self, index: u32) -> (r: bool) {
        *self & (1u32 << index) != 0
    }
}

impl Bits for u64 {
    open spec fn spec_width() -> u32 {
        64
    }

    open spec fn spec_bits(&self) -> u32 {
        (64 - u64_leading_zeros(*self)) as u32
    }

    open spec fn spec_bit(&self, index: u32) -> bool {
        *self & (1u64 << index) != 0
    }

    fn bits(&self) -> (r: u32) {
        proof {
            axiom_u64_leading_zeros(*self);
        }
        64 - self.leading_zeros()
    }

    fn bit(&self, index: u32) -> (r: bool) {
        *self & (1u64 << index) != 0
    }
}

/// The additive identity of a numeric type, with a test for it.
pub trait Zero: Sized {
    /// The additive identity.
    spec fn spec_zero() -> Self;

    /// Produces the additive identity.
    fn zero() -> (r: Self)
        ensures
            r == Self::spec_zero(),
    ;

    /// Whether this value is the additive identity.
    fn is_zero(&self) -> (r: bool)
        ensures
            r == (*self == Self::spec_zero()),
    ;
}

/// The multiplicative identity of a numeric type, with a test for it.
pub trait One: Sized {
    /// The multiplicative identity.
    spec fn spec_one() -> Self;

    /// Produces the multiplicative identity.
    fn one() -> (r: Self)
        ensures
            r == Self::spec_one(),
    ;

    /// Whether this value is the multiplicative identity.
    fn is_one(&self) -> (r: bool)
        ensures
            r == (*self == Self::spec_one()),
    ;
}

impl Zero for u8 {
    open spec fn spec_zero() -> Self {
        0u8
    }

    fn zero() -> (r: Self) {
        0
    }

    fn is_zero(&self) -> (r: bool) {
        *self == 0
    }
}

impl Zero for u16 {
    open spec fn spec_zero() -> Self {
        0u16
    }

    fn zero() -> (r: Self) {
        0
    }

    fn is_zero(&self) -> (r: bool) {
        *self == 0
    }
}

impl Zero for u32 {
    open spec fn spec_zero() -> Self {
        0u32
    }

    fn zero() -> (r: Self) {
        0
    }

    fn is_zero(&self) -> (r: bool) {
        *self == 0
    }
}

impl Zero for u64 {
    open spec fn spec_zero() -> Self {
        0u64
    }

    fn zero() -> (r: Self) {
        0
    }

    fn is_zero(&self) -> (r: bool) {
        *self == 0
    }
}

impl Zero for u128 {
    open spec fn spec_zero() -> Self {
        0u128
    }

    fn zero() -> (r: Self) {
        0
    }

    fn is_zero(&self) -> (r: bool) {
        *self == 0
    }
}

impl Zero for usize {
    open spec fn spec_zero() -> Self {
        0usize
    }

    fn zero() -> (r: Self) {
        0
    }

    fn is_zero(&self) -> (r: bool) {
        *self == 0
    }
}

impl One for u8 {
    open spec fn spec_one() -> Self {
        1u8
    }

    fn one() -> (r: Self) {
        1
    }

    fn is_one(&self) -> (r: bool) {
        *self == 1
    }
}

impl One for u16 {
    open spec fn spec_one() -> Self {
        1u16
    }

    fn one() -> (r: Self) {
        1
    }

    fn is_one(&self) -> (r: bool) {
        *self == 1
    }
}

impl One for u32 {
    open spec fn spec_one() -> Self {
        1u32
    }

    fn one() -> (r: Self) {
        1
    }

    fn is_one(&self) -> (r: bool) {
        *self == 1
    }
}

impl One for u64 {
    open spec fn spec_one() -> Self {
        1u64
    }

    fn one() -> (r: Self) {
        1
    }

    fn is_one(&self) -> (r: bool) {
        *self == 1
    }
}

impl One for u128 {
    open spec fn spec_one() -> Self {
        1u128
    }

    fn one() -> (r: Self) {
        1
    }

    fn is_one(&self) -> (r: bool) {
        *self == 1
    }
}

impl One for usize {
    open spec fn spec_one() -> Self {
        1usize
    }

    fn one() -> (r: Self) {
        1
    }

    fn is_one(&self) -> (r: bool) {
        *self == 1
    }
}

impl One for i8 {
    open spec fn spec_one() -> Self {
        1i8
    }

    fn one() -> (r: Self) {
        1
    }

    fn is_one(&self) -> (r: bool) {
        *self == 1
    }
}

impl One for i16 {
    open spec fn spec_one() -> Self {
        1i16
    }

    fn one() -> (r: Self) {
        1
    }

    fn is_one(&self) -> (r: bool) {
        *self == 1
    }
}

impl One for i32 {
    open spec fn spec_one() -> Self {
        1i32
    }

    fn one() -> (r: Self) {
        1
    }

    fn is_one(&self) -> (r: bool) {
        *self == 1
    }
}

impl One for i64 {
    open spec fn spec_one() -> Self {
        1i64
    }

    fn one() -> (r: Self) {
        1
    }

    fn is_one(&self) -> (r: bool) {
        *self == 1
    }
}

impl One for i128 {
    open spec fn spec_one() -> Self {
        1i128
    }

    fn one() -> (r: Self) {
        1
    }

    fn is_one(&self) -> (r: bool) {
        *self == 1
    }
}

impl One for isize {
    open spec fn spec_one() -> Self {
        1isize
    }

    fn one() -> (r: Self) {
        1
    }

    fn is_one(&self) -> (r: bool) {
        *self == 1
    }
}

/// Turns an overflow-flagged pair into an option: the value when the
/// flag is clear, nothing when it is set.
pub fn tuple_to_option<T: Copy>(pair: (T, bool)) -> (r: Option<T>)
    ensures
        r == (if pair.1 {
            Option::<T>::None
        } else {
            Option::Some(pair.0)
        }),
{
    if pair.1 {
        None
    } else {
        Some(pair.0)
    }
}

} // verus!
