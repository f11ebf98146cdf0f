//! Cross-function laws of the codec, stated over the same spec-level
//! model that the conversion contracts use, and proved for all inputs.

use vstd::prelude::*;
use vstd::arithmetic::power2::*;
use crate::repr::{
    be_sval, be_val, byte_neg, chunks_of, digit_le_bytes, digits_sval, in_range, le_bytes_of,
    le_sval, le_val, lemma_chunks_of_le_bytes, lemma_chunks_sval, lemma_digit_le_bytes_val,
    lemma_digits_sval_inj, lemma_digits_sval_range, lemma_le_bytes_of_index,
    lemma_le_bytes_of_len, lemma_le_bytes_of_nat_index, lemma_le_sval_pad, pad_byte, swapped,
    swapped_digit,
};

verus! {

/// Round trip, little- and native-endian: reading back the exact-length
/// little-endian encoding of any digit sequence yields that sequence, so
/// `from_le_bytes(x.to_le_bytes()) == x`; the native-endian conversions
/// are the little-endian ones, so the same holds for them.
pub proof fn lemma_round_trip_le(ds: Seq<u64>)
    ensures
        chunks_of(le_bytes_of(ds)) == ds,
{
    lemma_chunks_of_le_bytes(ds);
}

/// Round trip, big-endian: the encoder's byte reversal is undone by the
/// decoder's, so `from_be_bytes(x.to_be_bytes()) == x`.
pub proof fn lemma_round_trip_be(ds: Seq<u64>)
    ensures
        chunks_of(le_bytes_of(ds).reverse().reverse()) == ds,
{
    assert(le_bytes_of(ds).reverse().reverse() =~= le_bytes_of(ds));
    lemma_chunks_of_le_bytes(ds);
}

/// Slice/array agreement: on a byte sequence of exactly 8·n bytes the
/// variable-length decode always succeeds, and any digit sequence of
/// width n with the slice's value — in particular the slice decode's
/// result — is the exact-length decode's result.
pub proof fn lemma_slice_array_agree(b: Seq<u8>, n: nat)
    requires
        n >= 1,
        b.len() == 8 * n,
    ensures
        in_range(le_sval(b), n),
        chunks_of(b).len() == n,
        digits_sval(chunks_of(b)) == le_sval(b),
        forall|ds: Seq<u64>| ds.len() == n && digits_sval(ds) == le_sval(b) ==> ds == chunks_of(b),
{
    assert(b.len() % 8 == 0 && b.len() / 8 == n) by (nonlinear_arith)
        requires
            b.len() == 8 * n,
    ;
    lemma_chunks_sval(b);
    lemma_digits_sval_range(chunks_of(b));
    assert forall|ds: Seq<u64>| ds.len() == n && digits_sval(ds) == le_sval(b) implies ds
        == chunks_of(b) by {
        lemma_digits_sval_inj(ds, chunks_of(b));
    }
}

/// Implicit padding and redundant sign bytes, little-endian: appending
/// sign-extension bytes at the most significant end never changes the
/// two's-complement value, so the decode of the padded slice agrees with
/// the decode of the bare one, and a short slice reads as its own sign
/// extension.
pub proof fn lemma_sign_extension_le(t: Seq<u8>, k: nat)
    requires
        t.len() >= 1,
    ensures
        le_sval(t + Seq::new(k, |i: int| pad_byte(byte_neg(t.last())))) == le_sval(t),
{
    lemma_le_sval_pad(t, k);
}

/// Implicit padding and redundant sign bytes, big-endian: the pad bytes
/// stand at the front, before the most significant byte.
pub proof fn lemma_sign_extension_be(t: Seq<u8>, k: nat)
    requires
        t.len() >= 1,
    ensures
        be_sval(Seq::new(k, |i: int| pad_byte(byte_neg(t[0]))) + t) == be_sval(t),
{
    let pads = Seq::new(k, |i: int| pad_byte(byte_neg(t[0])));
    assert(t.reverse().last() == t[0]);
    lemma_le_sval_pad(t.reverse(), k);
    assert((pads + t).reverse() =~= t.reverse() + Seq::new(
        k,
        |i: int| pad_byte(byte_neg(t.reverse().last())),
    ));
}

/// The empty slice reads as zero in either byte order, and zero is
/// representable at every width: the empty-slice decode succeeds for
/// every n.
pub proof fn lemma_empty_slice(n: nat)
    requires
        n >= 1,
    ensures
        le_sval(Seq::<u8>::empty()) == 0,
        be_sval(Seq::<u8>::empty()) == 0,
        in_range(0, n),
{
    assert(Seq::<u8>::empty().reverse() =~= Seq::<u8>::empty());
    lemma_pow2_pos((64 * n - 1) as nat);
}

/// Reversing one digit's bytes twice yields the digit again.
pub proof fn lemma_swapped_digit_involution(d: u64)
    ensures
        swapped_digit(swapped_digit(d)) == d,
{
    let y = swapped_digit(d);
    assert(((y & 0x00000000000000FF) << 56) | ((y & 0x000000000000FF00) << 40) | ((y
        & 0x0000000000FF0000) << 24) | ((y & 0x00000000FF000000) << 8) | ((y & 0x000000FF00000000)
        >> 8) | ((y & 0x0000FF0000000000) >> 24) | ((y & 0x00FF000000000000) >> 40) | ((y
        & 0xFF00000000000000) >> 56) == d) by (bit_vector)
        requires
            y == ((d & 0x00000000000000FF) << 56) | ((d & 0x000000000000FF00) << 40) | ((d
                & 0x0000000000FF0000) << 24) | ((d & 0x00000000FF000000) << 8) | ((d
                & 0x000000FF00000000) >> 8) | ((d & 0x0000FF0000000000) >> 24) | ((d
                & 0x00FF000000000000) >> 40) | ((d & 0xFF00000000000000) >> 56),
    ;
}

/// Endian involution: the whole-array endian swap is its own inverse, so
/// `to_be(to_be(x)) == x`; `to_le` is the identity, so its involution is
/// immediate.
pub proof fn lemma_endian_involution(ds: Seq<u64>)
    ensures
        swapped(swapped(ds)) == ds,
{
    assert forall|i: int| 0 <= i < ds.len() implies swapped(swapped(ds))[i] == ds[i] by {
        lemma_swapped_digit_involution(ds[i]);
        assert(swapped(swapped(ds))[i] == swapped_digit(swapped(ds)[ds.len() - 1 - i]));
    }
    assert(swapped(swapped(ds)) =~= ds);
}

/// Mirror symmetry: reading a byte sequence big-endian is reading its
/// reversal little-endian, in both the unsigned and the signed reading;
/// so `from_be_slice` on a slice agrees with `from_le_slice` on the
/// reversed slice.
pub proof fn lemma_mirror(s: Seq<u8>)
    ensures
        be_val(s) == le_val(s.reverse()),
        be_sval(s) == le_sval(s.reverse()),
{
}

/// One digit's byte reversal, seen through the byte encoding: the
/// swapped digit's bytes are the digit's bytes in reverse order.
pub proof fn lemma_swapped_digit_bytes(d: u64)
    ensures
        digit_le_bytes(swapped_digit(d)) == digit_le_bytes(d).reverse(),
{
    let y = swapped_digit(d);
    lemma_digit_le_bytes_val(d);
    lemma_digit_le_bytes_val(y);
    lemma2_to64();
    lemma2_to64_rest();
    assert((y / 0x1) % 256 == (d / 0x100000000000000) % 256 && (y / 0x100) % 256 == (d / 0x1000000000000) % 256 && (y / 0x10000) % 256 == (d / 0x10000000000) % 256 && (y / 0x1000000) % 256 == (d / 0x100000000) % 256 && (y / 0x100000000) % 256 == (d / 0x1000000) % 256 && (y / 0x10000000000) % 256 == (d / 0x10000) % 256 && (y / 0x1000000000000) % 256 == (d / 0x100) % 256 && (y / 0x100000000000000) % 256 == (d / 0x1) % 256) by (bit_vector)
        requires
            y == ((d & 0x00000000000000FF) << 56) | ((d & 0x000000000000FF00) << 40) | ((d
                & 0x0000000000FF0000) << 24) | ((d & 0x00000000FF000000) << 8) | ((d
                & 0x000000FF00000000) >> 8) | ((d & 0x0000FF0000000000) >> 24) | ((d
                & 0x00FF000000000000) >> 40) | ((d & 0xFF00000000000000) >> 56),
    ;
    assert forall|i: int| 0 <= i < 8 implies digit_le_bytes(y)[i] == digit_le_bytes(d).reverse()[i]
        by {
        lemma_le_bytes_of_nat_index(y as nat, 8, i);
        lemma_le_bytes_of_nat_index(d as nat, 8, 7 - i);
        assert(digit_le_bytes(d).reverse()[i] == digit_le_bytes(d)[7 - i]);
    }
    assert(digit_le_bytes(y) =~= digit_le_bytes(d).reverse());
}

/// The whole-array endian swap, seen through the byte encoding: the
/// swapped value encodes little-endian to exactly the reversed byte
/// stream — to reinterpret a value in the opposite byte order is to
/// swap, so `x.to_be().to_le_bytes() == x.to_be_bytes()`.
pub proof fn lemma_swap_is_byte_reversal(ds: Seq<u64>)
    ensures
        le_bytes_of(swapped(ds)) == le_bytes_of(ds).reverse(),
{
    let m = ds.len() as int;
    lemma_le_bytes_of_len(ds);
    lemma_le_bytes_of_len(swapped(ds));
    assert forall|t: int| 0 <= t < 8 * m implies le_bytes_of(swapped(ds))[t] == le_bytes_of(
        ds,
    ).reverse()[t] by {
        let j = t / 8;
        let r = t % 8;
        vstd::arithmetic::div_mod::lemma_fundamental_div_mod(t, 8);
        lemma_le_bytes_of_index(swapped(ds), j);
        lemma_swapped_digit_bytes(ds[m - 1 - j]);
        lemma_le_bytes_of_index(ds, m - 1 - j);
        lemma_digit_le_bytes_val(ds[m - 1 - j]);
        assert(le_bytes_of(swapped(ds))[t] == le_bytes_of(swapped(ds)).subrange(
            8 * j,
            8 * j + 8,
        )[r]);
        assert(digit_le_bytes(ds[m - 1 - j]).reverse()[r] == digit_le_bytes(ds[m - 1 - j])[7 - r]);
        assert(le_bytes_of(ds)[8 * (m - 1 - j) + (7 - r)] == le_bytes_of(ds).subrange(
            8 * (m - 1 - j),
            8 * (m - 1 - j) + 8,
        )[7 - r]);
    }
    assert(le_bytes_of(swapped(ds)) =~= le_bytes_of(ds).reverse());
}

} // verus!
