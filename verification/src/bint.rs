//! The signed integer: a [`BUint`] bit pattern read as two's complement.
//! The sign is the top bit of the most significant digit; there is no
//! separate sign field.
//!
//! The digit array itself is held least significant digit first, and a
//! digit's bytes are taken least significant first: the value's own
//! layout is little-endian.  The native-endian conversions are therefore
//! the little-endian ones, and the big-endian conversions reverse bytes;
//! this library targets little-endian machines.

use vstd::prelude::*;
use crate::buint::BUint;
use crate::repr::{
    be_sval, chunks_of, digits_sval, digits_val, le_bytes_of, le_sval, le_val, lemma_chunks_sval,
    lemma_le_bytes_of_sval, swapped,
};

verus! {

/// A signed integer of fixed width: exactly `n` 64-bit digits of two's
/// complement, `n` chosen at construction and never resized.
pub struct BInt {
    bits: BUint,
}

impl View for BInt {
    type V = Seq<u64>;

    closed spec fn view(&self) -> Seq<u64> {
        self.bits@
    }
}

impl PartialEq for BInt {
    fn eq(&self, other: &Self) -> (r: bool) {
        self.bits == other.bits
    }
}

impl vstd::std_specs::cmp::PartialEqSpecImpl for BInt {
    open spec fn obeys_eq_spec() -> bool {
        true
    }

    open spec fn eq_spec(&self, other: &Self) -> bool {
        self@ == other@
    }
}

impl Eq for BInt {}

/// Copies a byte slice in reverse order.
pub(crate) fn reversed(bytes: &[u8]) -> (r: Vec<u8>)
    ensures
        r@ == bytes@.reverse(),
{
    let n: usize = bytes.len();
    let mut out: Vec<u8> = Vec::new();
    let mut i: usize = 0;
    while i < n
        invariant
            0 <= i <= n,
            n == bytes@.len(),
            out@.len() == i,
            forall|j: int| 0 <= j < i ==> out@[j] == bytes@[n - 1 - j],
        decreases n - i,
    {
        out.push(bytes[n - 1 - i]);
        i += 1;
    }
    proof {
        assert(out@ =~= bytes@.reverse());
    }
    out
}

impl BInt {
    /// The two's-complement value this integer represents.
    pub open spec fn ival(&self) -> int {
        digits_sval(self@)
    }

    /// Well-formed: at least one digit, so that the sign bit exists.
    pub open spec fn wf(&self) -> bool {
        self@.len() >= 1
    }

    /// Reinterprets a magnitude's bit pattern as a signed integer.
    pub fn from_bits(bits: BUint) -> (r: Self)
        ensures
            r@ == bits@,
    {
        BInt { bits }
    }

    /// The underlying magnitude bit pattern.
    pub fn to_bits(self) -> (r: BUint)
        ensures
            r@ == self@,
    {
        self.bits
    }

    /// The additive identity with `n` digits.
    pub fn zero(n: usize) -> (r: Self)
        ensures
            r@.len() == n,
            forall|i: int| 0 <= i < n ==> r@[i] == 0u64,
            r.ival() == 0,
    {
        BInt { bits: BUint::zero(n) }
    }

    /// Reinterprets a big-endian-produced value in the native order: the
    /// whole-array endian swap.  Its own inverse.
    pub fn from_be(x: Self) -> (r: Self)
        ensures
            r@ == swapped(x@),
            r@.len() == x@.len(),
    {
        Self::from_bits(x.bits.swap_bytes())
    }

    /// Reinterprets a little-endian-produced value in the native order:
    /// the identity, as the native order is little-endian.
    pub fn from_le(x: Self) -> (r: Self)
        ensures
            r@ == x@,
    {
        x
    }

    /// Converts to big-endian order: the whole-array endian swap.  Its
    /// own inverse.
    pub fn to_be(self) -> (r: Self)
        ensures
            r@ == swapped(self@),
            r@.len() == self@.len(),
    {
        Self::from_be(self)
    }

    /// Converts to little-endian order: the identity.
    pub fn to_le(self) -> (r: Self)
        ensures
            r@ == self@,
    {
        Self::from_le(self)
    }

    /// The little-endian byte encoding, exactly 8·n bytes.
    pub fn to_le_bytes(&self) -> (r: Vec<u8>)
        ensures
            r@ == le_bytes_of(self@),
            r@.len() == 8 * self@.len(),
            le_val(r@) == digits_val(self@),
            self.wf() ==> le_sval(r@) == self.ival(),
    {
        let r = self.bits.to_le_bytes();
        proof {
            if self.wf() {
                lemma_le_bytes_of_sval(self@);
            }
        }
        r
    }

    /// The big-endian byte encoding, exactly 8·n bytes: the reversal of
    /// the little-endian one.
    pub fn to_be_bytes(&self) -> (r: Vec<u8>)
        ensures
            r@ == le_bytes_of(self@).reverse(),
            r@.len() == 8 * self@.len(),
            self.wf() ==> be_sval(r@) == self.ival(),
    {
        let le = self.to_le_bytes();
        let r = reversed(le.as_slice());
        proof {
            assert(r@.reverse() =~= le@);
        }
        r
    }

    /// The native-endian byte encoding: the little-endian one, as the
    /// native order is little-endian.
    pub fn to_ne_bytes(&self) -> (r: Vec<u8>)
        ensures
            r@ == le_bytes_of(self@),
            r@.len() == 8 * self@.len(),
            self.wf() ==> le_sval(r@) == self.ival(),
    {
        self.to_le_bytes()
    }

    /// Reads an integer from its exact-length little-endian encoding:
    /// cannot fail, the byte pattern is the value.
    pub fn from_le_bytes(bytes: &[u8]) -> (r: Self)
        requires
            bytes@.len() >= 8,
            bytes@.len() % 8 == 0,
        ensures
            r@ == chunks_of(bytes@),
            r@.len() == bytes@.len() / 8,
            r.wf(),
            r.ival() == le_sval(bytes@),
    {
        let r = Self::from_bits(BUint::from_le_bytes(bytes));
        proof {
            lemma_chunks_sval(bytes@);
        }
        r
    }

    /// Reads an integer from its exact-length big-endian encoding.
    pub fn from_be_bytes(bytes: &[u8]) -> (r: Self)
        requires
            bytes@.len() >= 8,
            bytes@.len() % 8 == 0,
        ensures
            r@ == chunks_of(bytes@.reverse()),
            r@.len() == bytes@.len() / 8,
            r.wf(),
            r.ival() == be_sval(bytes@),
    {
        let le = reversed(bytes);
        Self::from_le_bytes(le.as_slice())
    }

    /// Reads an integer from its exact-length native-endian encoding:
    /// the little-endian one, as the native order is little-endian.
    pub fn from_ne_bytes(bytes: &[u8]) -> (r: Self)
        requires
            bytes@.len() >= 8,
            bytes@.len() % 8 == 0,
        ensures
            r@ == chunks_of(bytes@),
            r@.len() == bytes@.len() / 8,
            r.wf(),
            r.ival() == le_sval(bytes@),
    {
        Self::from_le_bytes(bytes)
    }
}

} // verus!
