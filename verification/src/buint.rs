//! The unsigned magnitude: an ordered array of 64-bit digits, index 0
//! least significant, together with its byte-level conversions and the
//! whole-array endian swap.

use vstd::prelude::*;
use vstd::pervasive::VecAdditionalExecFns;
use vstd::arithmetic::power2::*;
use vstd::arithmetic::div_mod::*;
use crate::repr::{
    chunks_of, digit_le_bytes, digits_sval, digits_val, le_bytes_of, le_bytes_of_nat, le_val,
    lemma_chunks_val, lemma_digits_val_zero_seq, lemma_le_bytes_of_len, lemma_le_bytes_of_push,
    lemma_le_bytes_of_val, lemma_le_bytes_of_nat_snoc, lemma_le_val_bound, swapped, swapped_digit,
};

verus! {

/// An unsigned integer of fixed width: exactly `n` digits, chosen at
/// construction and never resized.
pub struct BUint {
    digits: Vec<u64>,
}

impl View for BUint {
    type V = Seq<u64>;

    closed spec fn view(&self) -> Seq<u64> {
        self.digits@
    }
}

impl PartialEq for BUint {
    fn eq(&self, other: &Self) -> (r: bool) {
        if self.digits.len() != other.digits.len() {
            return false;
        }
        let mut i: usize = 0;
        while i < self.digits.len()
            invariant
                0 <= i <= self@.len(),
                self@.len() == other@.len(),
                forall|j: int| 0 <= j < i ==> self@[j] == other@[j],
            decreases self@.len() - i,
        {
            if self.digits[i] != other.digits[i] {
                return false;
            }
            i += 1;
        }
        proof {
            assert(self@ =~= other@);
        }
        true
    }
}

impl vstd::std_specs::cmp::PartialEqSpecImpl for BUint {
    open spec fn obeys_eq_spec() -> bool {
        true
    }

    open spec fn eq_spec(&self, other: &Self) -> bool {
        self@ == other@
    }
}

impl Eq for BUint {}

/// Reads `k` little-endian bytes of a slice as one digit-sized value.
pub(crate) fn le_chunk_value(s: &[u8], off: usize, k: usize) -> (r: u64)
    requires
        off + k <= s@.len(),
        k <= 8,
    ensures
        r as nat == le_val(s@.subrange(off as int, off as int + k as int)),
        (r as nat) < pow2((8 * k) as nat),
{
    let ghost w = s@.subrange(off as int, off as int + k as int);
    let n: usize = s.len();
    let mut d: u64 = 0;
    let mut j: usize = k;
    proof {
        lemma2_to64();
        assert(w.skip(k as int) =~= Seq::<u8>::empty());
    }
    while j > 0
        invariant
            0 <= j <= k,
            k <= 8,
            off + k <= n,
            n == s@.len(),
            w == s@.subrange(off as int, off as int + k as int),
            d as nat == le_val(w.skip(j as int)),
            (d as nat) < pow2((8 * (k - j)) as nat),
        decreases j,
    {
        j -= 1;
        proof {
            lemma2_to64();
            lemma2_to64_rest();
            if 8 * (k - 1 - j) < 56 {
                lemma_pow2_strictly_increases((8 * (k - 1 - j)) as nat, 56);
            }
            lemma_pow2_adds(8, (8 * (k - 1 - j)) as nat);
            assert(w.skip(j as int).skip(1) =~= w.skip(j as int + 1));
            assert(w.skip(j as int)[0] == s@[off + j]);
        }
        let b = s[off + j];
        d = d * 256 + b as u64;
    }
    proof {
        assert(w.skip(0) =~= w);
    }
    d
}

/// Appends the eight little-endian bytes of one digit.
fn push_digit_le_bytes(out: &mut Vec<u8>, d: u64)
    ensures
        final(out)@ == old(out)@ + digit_le_bytes(d),
{
    let ghost base = out@;
    let mut x: u64 = d;
    let mut j: usize = 0;
    proof {
        lemma2_to64();
        lemma_div_basics(d as int);
        assert(base + le_bytes_of_nat(d as nat, 0) =~= base);
    }
    while j < 8
        invariant
            0 <= j <= 8,
            out@ == base + le_bytes_of_nat(d as nat, j as nat),
            x as nat == d as nat / pow2((8 * j) as nat),
        decreases 8 - j,
    {
        proof {
            lemma2_to64();
            lemma_le_bytes_of_nat_snoc(d as nat, j as nat);
            lemma_pow2_pos((8 * j) as nat);
            lemma_pow2_adds((8 * j) as nat, 8);
            lemma_div_denominator(d as int, pow2((8 * j) as nat) as int, 256);
            assert(out@.push((x % 256) as u8) =~= base + le_bytes_of_nat(d as nat, j as nat).push(
                ((d as nat / pow2((8 * j) as nat)) % 256) as u8,
            ));
        }
        let b: u8 = (x % 256) as u8;
        out.push(b);
        x = x / 256;
        j += 1;
    }
    proof {
        assert(base + le_bytes_of_nat(d as nat, 8) =~= base + digit_le_bytes(d));
    }
}

/// Reverses one digit's bytes.
fn swap_digit(d: u64) -> (r: u64)
    ensures
        r == swapped_digit(d),
{
    ((d & 0x00000000000000FF) << 56) | ((d & 0x000000000000FF00) << 40) | ((d
        & 0x0000000000FF0000) << 24) | ((d & 0x00000000FF000000) << 8) | ((d & 0x000000FF00000000)
        >> 8) | ((d & 0x0000FF0000000000) >> 24) | ((d & 0x00FF000000000000) >> 40) | ((d
        & 0xFF00000000000000) >> 56)
}

impl BUint {
    /// The unsigned value this magnitude represents.
    pub open spec fn uval(&self) -> nat {
        digits_val(self@)
    }

    /// Builds a magnitude from its digit array, index 0 least significant.
    pub fn from_digits(digits: Vec<u64>) -> (r: Self)
        ensures
            r@ == digits@,
    {
        BUint { digits }
    }

    /// The digit array, index 0 least significant.
    pub fn digits(&self) -> (r: &Vec<u64>)
        ensures
            r@ == self@,
    {
        &self.digits
    }

    /// The number of digits.
    pub fn len(&self) -> (r: usize)
        ensures
            r == self@.len(),
    {
        self.digits.len()
    }

    /// The additive identity with `n` digits.
    pub fn zero(n: usize) -> (r: Self)
        ensures
            r@.len() == n,
            forall|i: int| 0 <= i < n ==> r@[i] == 0u64,
            r.uval() == 0,
            digits_sval(r@) == 0,
    {
        let mut digits: Vec<u64> = Vec::new();
        while digits.len() < n
            invariant
                digits@.len() <= n,
                forall|i: int| 0 <= i < digits@.len() ==> digits@[i] == 0u64,
            decreases n - digits.len(),
        {
            digits.push(0);
        }
        proof {
            lemma_digits_val_zero_seq(digits@);
        }
        BUint { digits }
    }

    /// The little-endian byte encoding: 8 bytes per digit, least
    /// significant digit's bytes first.
    pub fn to_le_bytes(&self) -> (r: Vec<u8>)
        ensures
            r@ == le_bytes_of(self@),
            r@.len() == 8 * self@.len(),
            le_val(r@) == self.uval(),
    {
        let mut out: Vec<u8> = Vec::new();
        let mut i: usize = 0;
        proof {
            assert(self@.take(0) =~= Seq::<u64>::empty());
            assert(out@ =~= le_bytes_of(self@.take(0)));
        }
        while i < self.digits.len()
            invariant
                0 <= i <= self@.len(),
                out@ == le_bytes_of(self@.take(i as int)),
            decreases self@.len() - i,
        {
            push_digit_le_bytes(&mut out, self.digits[i]);
            proof {
                lemma_le_bytes_of_push(self@.take(i as int), self@[i as int]);
                assert(self@.take(i + 1) =~= self@.take(i as int).push(self@[i as int]));
            }
            i += 1;
        }
        proof {
            assert(self@.take(self@.len() as int) =~= self@);
            lemma_le_bytes_of_len(self@);
            lemma_le_bytes_of_val(self@);
        }
        out
    }

    /// Reads a magnitude back from its little-endian byte encoding.
    pub fn from_le_bytes(bytes: &[u8]) -> (r: Self)
        requires
            bytes@.len() % 8 == 0,
        ensures
            r@ == chunks_of(bytes@),
            r@.len() == bytes@.len() / 8,
            r.uval() == le_val(bytes@),
    {
        let len: usize = bytes.len();
        let n: usize = len / 8;
        proof {
            lemma_fundamental_div_mod(len as int, 8);
            assert(len == 8 * n);
        }
        let mut digits: Vec<u64> = Vec::new();
        let mut i: usize = 0;
        while i < n
            invariant
                0 <= i <= n,
                digits@.len() == i,
                n == bytes@.len() / 8,
                len == bytes@.len(),
                bytes@.len() == 8 * n,
                forall|j: int| 0 <= j < i ==> digits@[j] == chunks_of(bytes@)[j],
            decreases n - i,
        {
            let d = le_chunk_value(bytes, i * 8, 8);
            proof {
                let w = bytes@.subrange(8 * i as int, 8 * i as int + 8);
                lemma_le_val_bound(w);
                lemma2_to64_rest();
                lemma_small_mod(le_val(w), 0x10000000000000000);
            }
            digits.push(d);
            i += 1;
        }
        proof {
            assert(digits@ =~= chunks_of(bytes@));
            lemma_chunks_val(bytes@);
        }
        BUint { digits }
    }

    /// The whole-array endian swap: digit order reversed and each digit's
    /// bytes reversed.
    pub fn swap_bytes(&self) -> (r: Self)
        ensures
            r@ == swapped(self@),
            r@.len() == self@.len(),
    {
        let n: usize = self.digits.len();
        let mut digits: Vec<u64> = Vec::new();
        let mut i: usize = 0;
        while i < n
            invariant
                0 <= i <= n,
                n == self@.len(),
                digits@.len() == i,
                forall|j: int| 0 <= j < i ==> digits@[j] == swapped_digit(self@[n - 1 - j]),
            decreases n - i,
        {
            let d = swap_digit(self.digits[n - 1 - i]);
            digits.push(d);
            i += 1;
        }
        proof {
            assert(digits@ =~= swapped(self@));
        }
        BUint { digits }
    }
}

} // verus!
