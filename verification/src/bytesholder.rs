//! A fixed-size byte-buffer wrapper: a plain pass-through container
//! around `[u8; N]`, not part of the codec itself.

use vstd::prelude::*;

verus! {

/// A fixed-size buffer of `N` bytes.
#[derive(Debug, Clone, Copy, PartialEq, Eq, PartialOrd, Ord, Hash)]
pub struct BytesHolder<const N: usize> {
    bytes: [u8; N],
}

impl<const N: usize> View for BytesHolder<N> {
    type V = Seq<u8>;

    closed spec fn view(&self) -> Seq<u8> {
        self.bytes@
    }
}

impl<const N: usize> BytesHolder<N> {
    /// Wraps a byte array.
    pub fn new(bytes: [u8; N]) -> (r: Self)
        ensures
            r@ == bytes@,
    {
        BytesHolder { bytes }
    }

    /// The held bytes, as a slice.
    pub fn as_slice(&self) -> (r: &[u8])
        ensures
            r@ == self@,
    {
        self.bytes.as_slice()
    }

    /// Reads one byte.
    pub fn byte(&self, i: usize) -> (r: u8)
        requires
            i < N,
        ensures
            r == self@[i as int],
    {
        self.bytes[i]
    }

    /// Overwrites one byte.
    pub fn set_byte(&mut self, i: usize, b: u8)
        requires
            i < N,
        ensures
            final(self)@ == old(self)@.update(i as int, b),
    {
        self.bytes[i] = b;
    }
}

impl<const N: usize> Default for BytesHolder<N> {
    /// The all-zero buffer.
    fn default() -> (r: Self)
        ensures
            r@.len() == N,
            forall|i: int| 0 <= i < N ==> r@[i] == 0u8,
    {
        BytesHolder { bytes: [0u8; N] }
    }
}

} // verus!
