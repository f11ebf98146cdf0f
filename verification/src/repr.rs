//! The mathematical model of the codec: the numeric value of a byte or
//! digit sequence, in unsigned and two's-complement readings, and the
//! sequence-level descriptions of the byte encodings.
//!
//! Byte and digit sequences are always least-significant-first here;
//! big-endian order enters only through [`Seq::reverse`].

use vstd::prelude::*;
use vstd::arithmetic::power2::*;
use vstd::arithmetic::div_mod::*;

verus! {

/// Number of bytes in one digit.
pub const DIGIT_BYTES: usize = 8;

/// Log base 2 of [`DIGIT_BYTES`]: shifting a byte count right by this
/// many bits yields a digit count.
pub const BYTE_SHIFT: usize = 3;

/// The unsigned value of a little-endian byte sequence (base 256).
pub open spec fn le_val(s: Seq<u8>) -> nat
    decreases s.len(),
{
    if s.len() == 0 {
        0
    } else {
        s[0] as nat + 256 * le_val(s.skip(1))
    }
}

/// The unsigned value of a little-endian digit sequence (base 2^64).
pub open spec fn digits_val(s: Seq<u64>) -> nat
    decreases s.len(),
{
    if s.len() == 0 {
        0
    } else {
        s[0] as nat + 0x10000000000000000 * digits_val(s.skip(1))
    }
}

/// Whether a byte, read as a signed 8-bit value, is negative.
pub open spec fn byte_neg(b: u8) -> bool {
    b >= 0x80
}

/// Whether a digit, read as a signed 64-bit value, is negative.
pub open spec fn digit_neg(d: u64) -> bool {
    d >= 0x8000000000000000
}

/// The digit that pure sign extension appends: all ones when negative,
/// all zeros otherwise.
pub open spec fn sign_fill(neg: bool) -> u64 {
    if neg {
        0xFFFFFFFFFFFFFFFFu64
    } else {
        0u64
    }
}

/// The byte that pure sign extension appends.
pub open spec fn pad_byte(neg: bool) -> u8 {
    if neg {
        0xFFu8
    } else {
        0u8
    }
}

/// The two's-complement value of a little-endian byte sequence: the top
/// byte's sign bit decides whether 2^(8·len) is subtracted.
pub open spec fn le_sval(s: Seq<u8>) -> int {
    if s.len() == 0 {
        0
    } else if byte_neg(s.last()) {
        le_val(s) - pow2(8 * s.len())
    } else {
        le_val(s) as int
    }
}

/// The unsigned value of a big-endian byte sequence.
pub open spec fn be_val(s: Seq<u8>) -> nat {
    le_val(s.reverse())
}

/// The two's-complement value of a big-endian byte sequence.
pub open spec fn be_sval(s: Seq<u8>) -> int {
    le_sval(s.reverse())
}

/// The two's-complement value of a digit sequence: the top digit's sign
/// bit decides whether 2^(64·len) is subtracted.
pub open spec fn digits_sval(s: Seq<u64>) -> int {
    if s.len() == 0 {
        0
    } else if digit_neg(s.last()) {
        digits_val(s) - pow2(64 * s.len())
    } else {
        digits_val(s) as int
    }
}

/// Whether a mathematical integer is representable in two's complement
/// with `n` 64-bit digits.
pub open spec fn in_range(v: int, n: nat) -> bool {
    n >= 1 && -pow2((64 * n - 1) as nat) <= v < pow2((64 * n - 1) as nat)
}

/// The `k` low-order base-256 digits of `x`, least significant first.
pub open spec fn le_bytes_of_nat(x: nat, k: nat) -> Seq<u8>
    decreases k,
{
    if k == 0 {
        Seq::empty()
    } else {
        seq![(x % 256) as u8] + le_bytes_of_nat(x / 256, (k - 1) as nat)
    }
}

/// The eight bytes of one digit, least significant first.
pub open spec fn digit_le_bytes(d: u64) -> Seq<u8> {
    le_bytes_of_nat(d as nat, 8)
}

/// The little-endian byte encoding of a digit sequence: each digit's
/// bytes in order, least significant digit first.
pub open spec fn le_bytes_of(ds: Seq<u64>) -> Seq<u8>
    decreases ds.len(),
{
    if ds.len() == 0 {
        Seq::empty()
    } else {
        digit_le_bytes(ds[0]) + le_bytes_of(ds.skip(1))
    }
}

/// The digit sequence read from a little-endian byte sequence whose
/// length is a multiple of [`DIGIT_BYTES`].
pub open spec fn chunks_of(b: Seq<u8>) -> Seq<u64> {
    Seq::new(b.len() / 8, |j: int| (le_val(b.subrange(8 * j, 8 * j + 8)) % 0x10000000000000000) as u64)
}

/// One digit with its bytes reversed.
pub open spec fn swapped_digit(d: u64) -> u64 {
    ((d & 0x00000000000000FF) << 56) | ((d & 0x000000000000FF00) << 40)
        | ((d & 0x0000000000FF0000) << 24) | ((d & 0x00000000FF000000) << 8)
        | ((d & 0x000000FF00000000) >> 8) | ((d & 0x0000FF0000000000) >> 24)
        | ((d & 0x00FF000000000000) >> 40) | ((d & 0xFF00000000000000) >> 56)
}

/// The whole-array endian swap: digit order reversed and every digit's
/// bytes reversed.
pub open spec fn swapped(ds: Seq<u64>) -> Seq<u64> {
    Seq::new(ds.len(), |i: int| swapped_digit(ds[ds.len() - 1 - i]))
}

/// The unsigned value of a byte sequence is bounded by 2^(8·len).
pub proof fn lemma_le_val_bound(s: Seq<u8>)
    ensures
        le_val(s) < pow2(8 * s.len()),
    decreases s.len(),
{
    lemma2_to64();
    if s.len() > 0 {
        lemma_le_val_bound(s.skip(1));
        lemma_pow2_adds(8, (8 * (s.len() - 1)) as nat);
        assert(s[0] as nat + 256 * le_val(s.skip(1)) < 256 * pow2((8 * (s.len() - 1)) as nat))
            by (nonlinear_arith)
            requires
                s[0] < 256,
                le_val(s.skip(1)) < pow2((8 * (s.len() - 1)) as nat),
        ;
    }
}

/// Concatenation splits the unsigned value of a byte sequence.
pub proof fn lemma_le_val_concat(a: Seq<u8>, b: Seq<u8>)
    ensures
        le_val(a + b) == le_val(a) + pow2(8 * a.len()) * le_val(b),
    decreases a.len(),
{
    lemma2_to64();
    if a.len() == 0 {
        assert(a + b =~= b);
        assert(le_val(a) == 0);
        assert(pow2(8 * a.len()) == 1);
        assert(le_val(a + b) == le_val(a) + pow2(8 * a.len()) * le_val(b));
    } else {
        assert((a + b).skip(1) =~= a.skip(1) + b);
        lemma_le_val_concat(a.skip(1), b);
        let p: nat = pow2((8 * (a.len() - 1)) as nat);
        assert(le_val(a + b) == a[0] as nat + 256 * (le_val(a.skip(1)) + p * le_val(b)));
        lemma_pow2_adds(8, (8 * (a.len() - 1)) as nat);
        assert(pow2(8 * a.len()) == 256 * p);
        assert(256 * (le_val(a.skip(1)) + p * le_val(b)) == 256 * le_val(a.skip(1)) + (256 * p)
            * le_val(b)) by (nonlinear_arith);
        assert(le_val(a) == a[0] as nat + 256 * le_val(a.skip(1)));
        assert(le_val(a + b) == le_val(a) + (256 * p) * le_val(b));
        assert(le_val(a + b) == le_val(a) + pow2(8 * a.len()) * le_val(b));
    }
}

/// Appending one byte adds its value scaled by the position weight.
pub proof fn lemma_le_val_push(s: Seq<u8>, b: u8)
    ensures
        le_val(s.push(b)) == le_val(s) + pow2(8 * s.len()) * (b as nat),
{
    assert(s.push(b) =~= s + seq![b]);
    lemma_le_val_concat(s, seq![b]);
    assert(seq![b].skip(1) =~= Seq::<u8>::empty());
    assert(le_val(Seq::<u8>::empty()) == 0);
    assert(le_val(seq![b]) == b as nat);
}

/// The unsigned value of a digit sequence is bounded by 2^(64·len).
pub proof fn lemma_digits_val_bound(s: Seq<u64>)
    ensures
        digits_val(s) < pow2(64 * s.len()),
    decreases s.len(),
{
    lemma2_to64();
    lemma2_to64_rest();
    if s.len() > 0 {
        lemma_digits_val_bound(s.skip(1));
        lemma_pow2_adds(64, (64 * (s.len() - 1)) as nat);
        assert(s[0] as nat + 0x10000000000000000 * digits_val(s.skip(1)) < 0x10000000000000000
            * pow2((64 * (s.len() - 1)) as nat))
            by (nonlinear_arith)
            requires
                s[0] < 0x10000000000000000,
                digits_val(s.skip(1)) < pow2((64 * (s.len() - 1)) as nat),
        ;
    }
}

/// Concatenation splits the unsigned value of a digit sequence.
pub proof fn lemma_digits_val_concat(a: Seq<u64>, b: Seq<u64>)
    ensures
        digits_val(a + b) == digits_val(a) + pow2(64 * a.len()) * digits_val(b),
    decreases a.len(),
{
    lemma2_to64();
    lemma2_to64_rest();
    if a.len() == 0 {
        assert(a + b =~= b);
        assert(digits_val(a) == 0);
        assert(pow2(64 * a.len()) == 1);
        assert(digits_val(a + b) == digits_val(a) + pow2(64 * a.len()) * digits_val(b));
    } else {
        assert((a + b).skip(1) =~= a.skip(1) + b);
        lemma_digits_val_concat(a.skip(1), b);
        lemma_pow2_adds(64, (64 * (a.len() - 1)) as nat);
        let p: nat = pow2((64 * (a.len() - 1)) as nat);
        assert(digits_val(a + b) == a[0] as nat + 0x10000000000000000 * (digits_val(a.skip(1))
            + p * digits_val(b)));
        assert(pow2(64 * a.len()) == 0x10000000000000000 * p);
        assert(0x10000000000000000 * (digits_val(a.skip(1)) + p * digits_val(b))
            == 0x10000000000000000 * digits_val(a.skip(1)) + (0x10000000000000000 * p)
            * digits_val(b)) by (nonlinear_arith);
        assert(digits_val(a) == a[0] as nat + 0x10000000000000000 * digits_val(a.skip(1)));
        assert(digits_val(a + b) == digits_val(a) + (0x10000000000000000 * p) * digits_val(b));
        assert(digits_val(a + b) == digits_val(a) + pow2(64 * a.len()) * digits_val(b));
    }
}

/// Appending one digit adds its value scaled by the position weight.
pub proof fn lemma_digits_val_push(s: Seq<u64>, d: u64)
    ensures
        digits_val(s.push(d)) == digits_val(s) + pow2(64 * s.len()) * (d as nat),
{
    assert(s.push(d) =~= s + seq![d]);
    lemma_digits_val_concat(s, seq![d]);
    assert(seq![d].skip(1) =~= Seq::<u64>::empty());
    assert(digits_val(Seq::<u64>::empty()) == 0);
    assert(digits_val(seq![d]) == d as nat);
}

/// A nonempty digit sequence decomposes at its most significant digit.
pub proof fn lemma_digits_val_last(s: Seq<u64>)
    requires
        s.len() >= 1,
    ensures
        digits_val(s) == digits_val(s.drop_last()) + pow2(64 * (s.len() - 1) as nat) * (
        s.last() as nat),
{
    assert(s =~= s.drop_last().push(s.last()));
    lemma_digits_val_push(s.drop_last(), s.last());
}

/// `le_bytes_of_nat` produces exactly `k` bytes, holding `x mod 2^(8k)`.
pub proof fn lemma_le_bytes_of_nat_val(x: nat, k: nat)
    ensures
        le_bytes_of_nat(x, k).len() == k,
        le_val(le_bytes_of_nat(x, k)) == x % pow2(8 * k),
    decreases k,
{
    lemma2_to64();
    if k == 0 {
        assert(x % 1 == 0) by (nonlinear_arith);
    } else {
        let rest = le_bytes_of_nat(x / 256, (k - 1) as nat);
        lemma_le_bytes_of_nat_val(x / 256, (k - 1) as nat);
        assert((seq![(x % 256) as u8] + rest).skip(1) =~= rest);
        lemma_pow2_adds(8, (8 * (k - 1)) as nat);
        lemma_pow2_pos((8 * (k - 1)) as nat);
        lemma_mod_breakdown(x as int, 256, pow2((8 * (k - 1)) as nat) as int);
        assert(x % 256 < 256) by (nonlinear_arith);
    }
}

/// The eight bytes of a digit carry exactly that digit's value.
pub proof fn lemma_digit_le_bytes_val(d: u64)
    ensures
        digit_le_bytes(d).len() == 8,
        le_val(digit_le_bytes(d)) == d as nat,
{
    lemma_le_bytes_of_nat_val(d as nat, 8);
    lemma2_to64_rest();
    lemma_small_mod(d as nat, pow2(64));
}

/// The little-endian encoding of a digit sequence has 8 bytes per digit.
pub proof fn lemma_le_bytes_of_len(ds: Seq<u64>)
    ensures
        le_bytes_of(ds).len() == 8 * ds.len(),
    decreases ds.len(),
{
    if ds.len() > 0 {
        lemma_digit_le_bytes_val(ds[0]);
        lemma_le_bytes_of_len(ds.skip(1));
    }
}

/// The little-endian byte encoding preserves the unsigned value.
pub proof fn lemma_le_bytes_of_val(ds: Seq<u64>)
    ensures
        le_val(le_bytes_of(ds)) == digits_val(ds),
    decreases ds.len(),
{
    if ds.len() > 0 {
        lemma_digit_le_bytes_val(ds[0]);
        lemma_le_bytes_of_val(ds.skip(1));
        lemma_le_val_concat(digit_le_bytes(ds[0]), le_bytes_of(ds.skip(1)));
        lemma2_to64_rest();
    }
}

/// Each aligned window of the byte encoding is one digit's encoding.
pub proof fn lemma_le_bytes_of_index(ds: Seq<u64>, j: int)
    requires
        0 <= j < ds.len(),
    ensures
        le_bytes_of(ds).subrange(8 * j, 8 * j + 8) == digit_le_bytes(ds[j]),
    decreases ds.len(),
{
    lemma_digit_le_bytes_val(ds[0]);
    lemma_le_bytes_of_len(ds.skip(1));
    if j == 0 {
        assert(le_bytes_of(ds).subrange(0, 8) =~= digit_le_bytes(ds[0]));
    } else {
        lemma_le_bytes_of_index(ds.skip(1), j - 1);
        assert(le_bytes_of(ds).subrange(8 * j, 8 * j + 8) =~= le_bytes_of(ds.skip(1)).subrange(
            8 * (j - 1),
            8 * (j - 1) + 8,
        ));
    }
}

/// Reading the byte encoding back in aligned chunks yields the digits.
pub proof fn lemma_chunks_of_le_bytes(ds: Seq<u64>)
    ensures
        chunks_of(le_bytes_of(ds)) == ds,
{
    lemma_le_bytes_of_len(ds);
    assert forall|j: int| 0 <= j < ds.len() implies chunks_of(le_bytes_of(ds))[j] == ds[j] by {
        lemma_le_bytes_of_index(ds, j);
        lemma_digit_le_bytes_val(ds[j]);
        lemma_small_mod(ds[j] as nat, 0x10000000000000000);
    }
    assert(chunks_of(le_bytes_of(ds)) =~= ds);
}

/// Chunking a byte sequence of aligned length preserves its value.
pub proof fn lemma_chunks_val(u: Seq<u8>)
    requires
        u.len() % 8 == 0,
    ensures
        chunks_of(u).len() == u.len() / 8,
        digits_val(chunks_of(u)) == le_val(u),
    decreases u.len(),
{
    if u.len() > 0 {
        let w = u.subrange(0, 8);
        lemma_le_val_bound(w);
        lemma2_to64_rest();
        lemma_small_mod(le_val(w), 0x10000000000000000);
        assert(chunks_of(u).skip(1) =~= chunks_of(u.skip(8))) by {
            assert(u.skip(8).len() == u.len() - 8);
            assert forall|j: int| 0 <= j < u.len() / 8 - 1 implies chunks_of(u).skip(1)[j]
                == chunks_of(u.skip(8))[j] by {
                assert(u.skip(8).subrange(8 * j, 8 * j + 8) =~= u.subrange(
                    8 * (j + 1),
                    8 * (j + 1) + 8,
                ));
            }
        }
        lemma_chunks_val(u.skip(8));
        assert(u =~= w + u.skip(8));
        lemma_le_val_concat(w, u.skip(8));
        assert(chunks_of(u)[0] == le_val(w));
    } else {
        assert(chunks_of(u) =~= Seq::<u64>::empty());
    }
}

/// An eight-byte window's value reaches 2^63 exactly when the top byte's
/// sign bit is set.
pub proof fn lemma_window_top(w: Seq<u8>)
    requires
        w.len() == 8,
    ensures
        le_val(w) < 0x10000000000000000,
        le_val(w) >= 0x8000000000000000 <==> byte_neg(w[7]),
{
    assert(w =~= w.take(7).push(w[7]));
    lemma_le_val_push(w.take(7), w[7]);
    lemma_le_val_bound(w.take(7));
    lemma2_to64_rest();
    assert(le_val(w) == le_val(w.take(7)) + pow2(56) * (w[7] as nat));
    assert(le_val(w.take(7)) < pow2(56));
    assert(pow2(56) == 0x100000000000000);
}

/// Extending the byte count of `le_bytes_of_nat` by one appends the next
/// base-256 digit of `x`.
pub proof fn lemma_le_bytes_of_nat_snoc(x: nat, j: nat)
    ensures
        le_bytes_of_nat(x, j + 1) == le_bytes_of_nat(x, j).push(((x / pow2(8 * j)) % 256) as u8),
    decreases j,
{
    lemma2_to64();
    if j == 0 {
        assert(x / pow2(0) == x) by {
            lemma_div_basics(x as int);
        }
        assert(le_bytes_of_nat(x / 256, 0) == Seq::<u8>::empty());
        assert(le_bytes_of_nat(x, 0) == Seq::<u8>::empty());
        assert(le_bytes_of_nat(x, 1) == seq![(x % 256) as u8] + Seq::<u8>::empty());
        assert(le_bytes_of_nat(x, 1) =~= le_bytes_of_nat(x, 0).push((x % 256) as u8));
    } else {
        lemma_le_bytes_of_nat_snoc(x / 256, (j - 1) as nat);
        lemma_pow2_pos((8 * (j - 1)) as nat);
        lemma_pow2_adds(8, (8 * (j - 1)) as nat);
        lemma_div_denominator(x as int, 256, pow2((8 * (j - 1)) as nat) as int);
        assert((x / 256) / pow2((8 * (j - 1)) as nat) == x / pow2(8 * j));
        assert(le_bytes_of_nat(x, j + 1) =~= le_bytes_of_nat(x, j).push(
            ((x / pow2(8 * j)) % 256) as u8,
        ));
    }
}

/// Byte `i` of `le_bytes_of_nat` is the `i`-th base-256 digit of `x`.
pub proof fn lemma_le_bytes_of_nat_index(x: nat, k: nat, i: int)
    requires
        0 <= i < k,
    ensures
        le_bytes_of_nat(x, k)[i] == ((x / pow2((8 * i) as nat)) % 256) as u8,
    decreases k,
{
    lemma2_to64();
    if i == 0 {
        lemma_div_basics(x as int);
    } else {
        lemma_le_bytes_of_nat_index(x / 256, (k - 1) as nat, i - 1);
        lemma_le_bytes_of_nat_val(x / 256, (k - 1) as nat);
        lemma_pow2_pos((8 * (i - 1)) as nat);
        lemma_pow2_adds(8, (8 * (i - 1)) as nat);
        lemma_div_denominator(x as int, 256, pow2((8 * (i - 1)) as nat) as int);
        assert(le_bytes_of_nat(x, k)[i] == le_bytes_of_nat(x / 256, (k - 1) as nat)[i - 1]);
    }
}

/// Appending a digit appends its eight bytes to the byte encoding.
pub proof fn lemma_le_bytes_of_push(s: Seq<u64>, d: u64)
    ensures
        le_bytes_of(s.push(d)) == le_bytes_of(s) + digit_le_bytes(d),
    decreases s.len(),
{
    lemma_digit_le_bytes_val(d);
    if s.len() == 0 {
        assert(s.push(d).skip(1) =~= Seq::<u64>::empty());
        assert(le_bytes_of(Seq::<u64>::empty()) == Seq::<u8>::empty());
        assert(le_bytes_of(s) == Seq::<u8>::empty());
        assert(s.push(d)[0] == d);
        assert(le_bytes_of(s.push(d)) == digit_le_bytes(d) + Seq::<u8>::empty());
        assert(le_bytes_of(s.push(d)) =~= le_bytes_of(s) + digit_le_bytes(d));
    } else {
        assert(s.push(d).skip(1) =~= s.skip(1).push(d));
        lemma_le_bytes_of_push(s.skip(1), d);
        lemma_digit_le_bytes_val(s[0]);
        lemma_le_bytes_of_len(s.skip(1));
        assert(le_bytes_of(s.push(d)) == digit_le_bytes(s[0]) + (le_bytes_of(s.skip(1))
            + digit_le_bytes(d)));
        assert(le_bytes_of(s) == digit_le_bytes(s[0]) + le_bytes_of(s.skip(1)));
        assert(le_bytes_of(s.push(d)) =~= le_bytes_of(s) + digit_le_bytes(d));
    }
}

/// A digit sequence of zeros has value zero in both readings.
pub proof fn lemma_digits_val_zero_seq(s: Seq<u64>)
    requires
        forall|i: int| 0 <= i < s.len() ==> s[i] == 0u64,
    ensures
        digits_val(s) == 0,
        digits_sval(s) == 0,
    decreases s.len(),
{
    if s.len() > 0 {
        lemma_digits_val_zero_seq(s.skip(1));
    }
}

/// A byte sequence of all ones has the largest value of its length.
pub proof fn lemma_le_val_ones(s: Seq<u8>)
    requires
        forall|i: int| 0 <= i < s.len() ==> s[i] == 0xFFu8,
    ensures
        le_val(s) == pow2(8 * s.len()) - 1,
    decreases s.len(),
{
    lemma2_to64();
    if s.len() > 0 {
        lemma_le_val_ones(s.skip(1));
        lemma_pow2_adds(8, (8 * (s.len() - 1)) as nat);
        lemma_pow2_pos((8 * (s.len() - 1)) as nat);
        assert(256 * (pow2((8 * (s.len() - 1)) as nat) - 1) == 256 * pow2(
            (8 * (s.len() - 1)) as nat,
        ) - 256) by (nonlinear_arith);
    }
}

/// A byte sequence of all zeros has value zero.
pub proof fn lemma_le_val_zeros(s: Seq<u8>)
    requires
        forall|i: int| 0 <= i < s.len() ==> s[i] == 0u8,
    ensures
        le_val(s) == 0,
    decreases s.len(),
{
    if s.len() > 0 {
        lemma_le_val_zeros(s.skip(1));
    }
}

/// A nonempty digit sequence's signed value lies in the range of its own
/// width, and is negative exactly when the top digit's sign bit is set.
pub proof fn lemma_digits_sval_range(s: Seq<u64>)
    requires
        s.len() >= 1,
    ensures
        in_range(digits_sval(s), s.len()),
        digits_sval(s) < 0 <==> digit_neg(s.last()),
{
    let m = s.len();
    let low = digits_val(s.drop_last());
    let d = s.last();
    lemma_digits_val_last(s);
    lemma_digits_val_bound(s.drop_last());
    lemma_digits_val_bound(s);
    let p: nat = pow2((64 * (m - 1)) as nat);
    lemma_pow2_pos((64 * (m - 1)) as nat);
    lemma_pow2_adds((64 * (m - 1)) as nat, 63);
    lemma_pow2_adds((64 * (m - 1)) as nat, 64);
    lemma2_to64_rest();
    assert(pow2((64 * m - 1) as nat) == p * 0x8000000000000000);
    assert(pow2(64 * m) == p * 0x10000000000000000);
    assert(digits_val(s) == low + p * (d as nat));
    if digit_neg(d) {
        assert(low + p * (d as nat) >= p * 0x8000000000000000) by (nonlinear_arith)
            requires
                d >= 0x8000000000000000,
                low >= 0,
                p >= 0,
        ;
        assert(p * 0x10000000000000000 == p * 0x8000000000000000 + p * 0x8000000000000000)
            by (nonlinear_arith);
        assert(digits_sval(s) == digits_val(s) - p * 0x10000000000000000);
    } else {
        assert(low + p * (d as nat) < p * 0x8000000000000000) by (nonlinear_arith)
            requires
                d < 0x8000000000000000,
                low < p,
        ;
    }
}

/// A value representable in `n1` digits is representable in `n2 >= n1`.
pub proof fn lemma_in_range_mono(v: int, n1: nat, n2: nat)
    requires
        in_range(v, n1),
        n1 <= n2,
    ensures
        in_range(v, n2),
{
    if n1 < n2 {
        lemma_pow2_strictly_increases((64 * n1 - 1) as nat, (64 * n2 - 1) as nat);
    }
}

/// Appending the sign-extension digit keeps the signed value.
pub proof fn lemma_digits_sval_push_fill(s: Seq<u64>)
    requires
        s.len() >= 1,
    ensures
        digits_sval(s.push(sign_fill(digit_neg(s.last())))) == digits_sval(s),
{
    let m = s.len();
    let neg = digit_neg(s.last());
    let f = sign_fill(neg);
    lemma_digits_val_push(s, f);
    let p: nat = pow2(64 * m);
    lemma_pow2_adds(64 * m, 64);
    lemma2_to64_rest();
    assert(pow2(64 * (m + 1)) == p * 0x10000000000000000);
    assert(s.push(f).last() == f);
    if neg {
        assert(p * 0xFFFFFFFFFFFFFFFF + p == p * 0x10000000000000000) by (nonlinear_arith);
        assert(digits_val(s.push(f)) == digits_val(s) + p * 0xFFFFFFFFFFFFFFFF);
        assert(digits_sval(s.push(f)) == digits_val(s) + p * 0xFFFFFFFFFFFFFFFF - p
            * 0x10000000000000000);
    } else {
        assert(digits_val(s.push(f)) == digits_val(s));
    }
}

/// Sign-extending a digit sequence to `n` digits keeps the signed value
/// and the sign.
pub proof fn lemma_digits_sval_extend(s: Seq<u64>, n: nat)
    requires
        1 <= s.len() <= n,
    ensures
        ({
            let e = s + Seq::new((n - s.len()) as nat, |i: int| sign_fill(digit_neg(s.last())));
            e.len() == n && digits_sval(e) == digits_sval(s) && digit_neg(e.last()) == digit_neg(
                s.last(),
            )
        }),
    decreases n - s.len(),
{
    let neg = digit_neg(s.last());
    let e = s + Seq::new((n - s.len()) as nat, |i: int| sign_fill(neg));
    if n == s.len() {
        assert(e =~= s);
    } else {
        let s2 = s.push(sign_fill(neg));
        lemma_digits_sval_push_fill(s);
        assert(s2.last() == sign_fill(neg));
        assert(digit_neg(s2.last()) == neg);
        lemma_digits_sval_extend(s2, n);
        assert(e =~= s2 + Seq::new((n - s2.len()) as nat, |i: int| sign_fill(digit_neg(s2.last()))));
    }
}

/// If a signed value fits one digit fewer than its sequence holds, the top
/// digit is pure sign extension and can be peeled off.
pub proof fn lemma_peel(s: Seq<u64>)
    requires
        s.len() >= 2,
        in_range(digits_sval(s), (s.len() - 1) as nat),
    ensures
        s.last() == sign_fill(digits_sval(s) < 0),
        digits_sval(s.drop_last()) == digits_sval(s),
        digit_neg(s.drop_last().last()) == (digits_sval(s) < 0),
{
    let m = s.len();
    let t = s.drop_last();
    let d = s.last();
    let v = digits_sval(s);
    let low = digits_val(t);
    lemma_digits_val_last(s);
    lemma_digits_val_last(t);
    lemma_digits_val_bound(t);
    lemma_digits_val_bound(t.drop_last());
    lemma_digits_sval_range(s);
    let p: nat = pow2((64 * (m - 1)) as nat);
    let q: nat = pow2((64 * (m - 2)) as nat);
    let r: nat = pow2((64 * (m - 1) - 1) as nat);
    lemma_pow2_pos((64 * (m - 2)) as nat);
    lemma_pow2_adds((64 * (m - 1)) as nat, 64);
    lemma_pow2_adds((64 * (m - 1) - 1) as nat, 1);
    lemma_pow2_adds((64 * (m - 2)) as nat, 63);
    lemma2_to64();
    lemma2_to64_rest();
    assert(pow2(64 * m) == p * 0x10000000000000000);
    assert(p == r * 2);
    assert(r == q * 0x8000000000000000);
    assert(digits_val(s) == low + p * (d as nat));
    let sd: int = if digit_neg(d) {
        d - 0x10000000000000000
    } else {
        d as int
    };
    if digit_neg(d) {
        assert(p * ((d as int) - 0x10000000000000000) == p * (d as int) - p * 0x10000000000000000)
            by (nonlinear_arith);
        assert(v == low + p * sd);
    } else {
        assert(v == low + p * sd);
    }
    assert(-r <= v < r);
    if sd >= 1 {
        assert(p * sd >= p) by (nonlinear_arith)
            requires
                sd >= 1,
                p >= 0,
        ;
        assert(false);
    }
    if sd <= -2 {
        assert(p * sd <= -2 * p) by (nonlinear_arith)
            requires
                sd <= -2,
                p >= 0,
        ;
        assert(false);
    }
    let lw = digits_val(t.drop_last());
    assert(low == lw + q * (t.last() as nat));
    if sd == 0 {
        assert(d == 0);
        assert(p * sd == 0) by (nonlinear_arith)
            requires
                sd == 0,
        ;
        assert(v == low);
        if t.last() >= 0x8000000000000000 {
            assert(lw + q * (t.last() as nat) >= q * 0x8000000000000000) by (nonlinear_arith)
                requires
                    t.last() >= 0x8000000000000000,
                    lw >= 0,
                    q >= 0,
            ;
            assert(false);
        }
        assert(digits_sval(t) == low);
    } else {
        assert(sd == -1);
        assert(d == 0xFFFFFFFFFFFFFFFF);
        assert(p * sd == -p) by (nonlinear_arith)
            requires
                sd == -1,
        ;
        assert(v == low - p);
        assert(low >= p - r);
        if t.last() < 0x8000000000000000 {
            assert(lw + q * (t.last() as nat) < q * 0x8000000000000000) by (nonlinear_arith)
                requires
                    t.last() < 0x8000000000000000,
                    lw < q,
            ;
            assert(false);
        }
        assert(digits_sval(t) == low - pow2(64 * (m - 1) as nat));
    }
}

/// A value that fits in `n` digits makes everything above digit `n` pure
/// sign extension, and truncation to `n` digits keeps the value.
pub proof fn lemma_truncate(s: Seq<u64>, n: nat)
    requires
        1 <= n < s.len(),
        in_range(digits_sval(s), n),
    ensures
        digits_sval(s.take(n as int)) == digits_sval(s),
        forall|j: int| n <= j < s.len() ==> s[j] == sign_fill(digits_sval(s) < 0),
        digit_neg(s[n - 1]) == (digits_sval(s) < 0),
    decreases s.len(),
{
    let m = s.len();
    let v = digits_sval(s);
    lemma_in_range_mono(v, n, (m - 1) as nat);
    lemma_peel(s);
    let t = s.drop_last();
    if n == m - 1 {
        assert(s.take(n as int) =~= t);
        assert(t.last() == s[n - 1]);
    } else {
        lemma_truncate(t, n);
        assert(t.take(n as int) =~= s.take(n as int));
        assert(t[n - 1] == s[n - 1]);
        assert forall|j: int| n <= j < m implies s[j] == sign_fill(v < 0) by {
            if j < m - 1 {
                assert(t[j] == s[j]);
            }
        }
    }
}

/// A signed value fits in `n` digits exactly when every digit from `n` on
/// is the sign-extension pattern and digit `n-1` agrees with the sign.
pub proof fn lemma_fits_iff(s: Seq<u64>, n: nat)
    requires
        s.len() >= 1,
        n >= 1,
    ensures
        in_range(digits_sval(s), n) <==> ((forall|j: int|
            n <= j < s.len() ==> s[j] == sign_fill(digit_neg(s.last()))) && (n <= s.len()
            ==> digit_neg(s[n - 1]) == digit_neg(s.last()))),
{
    let v = digits_sval(s);
    let neg = digit_neg(s.last());
    lemma_digits_sval_range(s);
    if n >= s.len() {
        lemma_in_range_mono(v, s.len(), n);
        if n == s.len() {
            assert(s[n - 1] == s.last());
        }
    } else {
        if in_range(v, n) {
            lemma_truncate(s, n);
        }
        if (forall|j: int| n <= j < s.len() ==> s[j] == sign_fill(neg)) && digit_neg(s[n - 1])
            == neg {
            let t = s.take(n as int);
            assert(t.last() == s[n - 1]);
            assert(digit_neg(t.last()) == neg);
            lemma_digits_sval_extend(t, s.len());
            assert(s =~= t + Seq::new((s.len() - n) as nat, |i: int| sign_fill(digit_neg(t.last()))));
            lemma_digits_sval_range(t);
        }
    }
}

/// The `n`-digit sequence that keeps a sequence's low digits and fills the
/// rest with sign extension.
pub open spec fn fit_digits(s: Seq<u64>, n: nat) -> Seq<u64> {
    Seq::new(
        n,
        |j: int|
            if j < s.len() {
                s[j]
            } else {
                sign_fill(digit_neg(s.last()))
            },
    )
}

/// Fitting to `n` digits keeps the signed value whenever it is in range.
pub proof fn lemma_fit_value(s: Seq<u64>, n: nat)
    requires
        s.len() >= 1,
        n >= 1,
        in_range(digits_sval(s), n),
    ensures
        fit_digits(s, n).len() == n,
        digits_sval(fit_digits(s, n)) == digits_sval(s),
    decreases s.len(),
{
    if n < s.len() {
        lemma_truncate(s, n);
        lemma_digits_sval_range(s);
        assert(fit_digits(s, n) =~= s.take(n as int));
    } else if n == s.len() {
        assert(fit_digits(s, n) =~= s);
    } else {
        lemma_digits_sval_extend(s, n);
        assert(fit_digits(s, n) =~= s + Seq::new(
            (n - s.len()) as nat,
            |i: int| sign_fill(digit_neg(s.last())),
        ));
    }
}

/// Appending the pad byte keeps the two's-complement value of bytes.
pub proof fn lemma_le_sval_push_pad(t: Seq<u8>)
    requires
        t.len() >= 1,
    ensures
        le_sval(t.push(pad_byte(byte_neg(t.last())))) == le_sval(t),
{
    let neg = byte_neg(t.last());
    let b = pad_byte(neg);
    lemma_le_val_push(t, b);
    let p: nat = pow2(8 * t.len());
    lemma_pow2_adds(8 * t.len(), 8);
    lemma2_to64();
    assert(pow2(8 * (t.len() + 1)) == p * 256);
    assert(t.push(b).last() == b);
    if neg {
        assert(p * 255 + p == p * 256) by (nonlinear_arith);
        assert(le_val(t.push(b)) == le_val(t) + p * 255);
    } else {
        assert(le_val(t.push(b)) == le_val(t));
    }
}

/// Padding a nonempty byte sequence with its sign byte keeps the
/// two's-complement value and the sign.
pub proof fn lemma_le_sval_pad(t: Seq<u8>, k: nat)
    requires
        t.len() >= 1,
    ensures
        ({
            let e = t + Seq::new(k, |i: int| pad_byte(byte_neg(t.last())));
            e.len() == t.len() + k && le_sval(e) == le_sval(t) && byte_neg(e.last()) == byte_neg(
                t.last(),
            )
        }),
    decreases k,
{
    let neg = byte_neg(t.last());
    let e = t + Seq::new(k, |i: int| pad_byte(neg));
    if k == 0 {
        assert(e =~= t);
    } else {
        let t2 = t.push(pad_byte(neg));
        lemma_le_sval_push_pad(t);
        assert(t2.last() == pad_byte(neg));
        assert(byte_neg(t2.last()) == neg);
        lemma_le_sval_pad(t2, (k - 1) as nat);
        assert(e =~= t2 + Seq::new((k - 1) as nat, |i: int| pad_byte(byte_neg(t2.last()))));
    }
}

/// Chunking an aligned byte sequence keeps the two's-complement value and
/// the sign.
pub proof fn lemma_chunks_sval(u: Seq<u8>)
    requires
        u.len() >= 8,
        u.len() % 8 == 0,
    ensures
        chunks_of(u).len() == u.len() / 8,
        digits_sval(chunks_of(u)) == le_sval(u),
        digit_neg(chunks_of(u).last()) == byte_neg(u.last()),
{
    lemma_chunks_val(u);
    let m = (u.len() / 8) as int;
    lemma_fundamental_div_mod(u.len() as int, 8);
    assert(u.len() == 8 * m);
    let w = u.subrange(8 * (m - 1), 8 * (m - 1) + 8);
    lemma_window_top(w);
    lemma_small_mod(le_val(w), 0x10000000000000000);
    assert(chunks_of(u).last() == le_val(w));
    assert(w[7] == u.last());
    assert(64 * chunks_of(u).len() == 8 * u.len());
}

/// The byte encoding of a digit sequence keeps the two's-complement value
/// and the sign.
pub proof fn lemma_le_bytes_of_sval(ds: Seq<u64>)
    requires
        ds.len() >= 1,
    ensures
        le_sval(le_bytes_of(ds)) == digits_sval(ds),
        byte_neg(le_bytes_of(ds).last()) == digit_neg(ds.last()),
{
    lemma_le_bytes_of_len(ds);
    lemma_le_bytes_of_val(ds);
    let m = ds.len();
    lemma_le_bytes_of_index(ds, m - 1);
    let w = digit_le_bytes(ds.last());
    lemma_digit_le_bytes_val(ds.last());
    lemma_window_top(w);
    lemma2_to64_rest();
    assert(le_bytes_of(ds).last() == w[7]);
    assert(8 * le_bytes_of(ds).len() == 64 * ds.len());
}

/// Two digit sequences of one length with one unsigned value are equal.
pub proof fn lemma_digits_val_inj(a: Seq<u64>, b: Seq<u64>)
    requires
        a.len() == b.len(),
        digits_val(a) == digits_val(b),
    ensures
        a == b,
    decreases a.len(),
{
    if a.len() == 0 {
        assert(a =~= b);
    } else {
        lemma_fundamental_div_mod_converse(
            digits_val(a) as int,
            0x10000000000000000,
            digits_val(a.skip(1)) as int,
            a[0] as int,
        );
        lemma_fundamental_div_mod_converse(
            digits_val(b) as int,
            0x10000000000000000,
            digits_val(b.skip(1)) as int,
            b[0] as int,
        );
        lemma_digits_val_inj(a.skip(1), b.skip(1));
        assert forall|i: int| 0 <= i < a.len() implies a[i] == b[i] by {
            if i > 0 {
                assert(a[i] == a.skip(1)[i - 1]);
                assert(b[i] == b.skip(1)[i - 1]);
            }
        }
        assert(a =~= b);
    }
}

/// Two nonempty digit sequences of one length with one signed value are
/// equal: the two's-complement representation at a width is unique.
pub proof fn lemma_digits_sval_inj(a: Seq<u64>, b: Seq<u64>)
    requires
        a.len() == b.len(),
        a.len() >= 1,
        digits_sval(a) == digits_sval(b),
    ensures
        a == b,
{
    lemma_digits_sval_range(a);
    lemma_digits_sval_range(b);
    lemma_digits_val_inj(a, b);
}

} // verus!
