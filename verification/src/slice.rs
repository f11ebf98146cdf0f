//! The variable-length slice decode: reads a byte slice of any length
//! into an integer of `n` digits, sign-extending short input and
//! accepting long input only when the excess is provably redundant sign
//! extension.  The one failure is overflow: the slice's two's-complement
//! value does not fit in 64·n bits.

use vstd::prelude::*;
use vstd::pervasive::VecAdditionalExecFns;
use vstd::arithmetic::power2::*;
use vstd::arithmetic::div_mod::*;
use crate::bint::BInt;
use crate::buint::{le_chunk_value, BUint};
use crate::repr::{
    be_sval, byte_neg, chunks_of, digit_neg, digits_sval, fit_digits, in_range, le_sval, le_val,
    lemma_chunks_sval, lemma_digits_sval_range, lemma_fit_value, lemma_fits_iff,
    lemma_le_sval_pad, lemma_le_val_bound, lemma_le_val_concat, lemma_le_val_ones,
    lemma_le_val_zeros, pad_byte, sign_fill,
};

verus! {

impl BInt {
    /// Reads an integer of `n` digits from a little-endian byte slice of
    /// any length.  The empty slice is zero; shorter slices are
    /// sign-extended; longer slices succeed exactly when the extra bytes
    /// are redundant sign extension.  `None` exactly when the slice's
    /// two's-complement value does not fit in 64·n bits.
    #[verifier::loop_isolation(false)]
    pub fn from_le_slice(n: usize, slice: &[u8]) -> (r: Option<BInt>)
        requires
            n >= 1,
        ensures
            (match r {
                Option::Some(v) => v.wf() && v@.len() == n && in_range(le_sval(slice@), n as nat)
                    && v.ival() == le_sval(slice@),
                Option::None => !in_range(le_sval(slice@), n as nat),
            }),
    {
        let len: usize = slice.len();
        if len == 0 {
            proof {
                lemma_pow2_pos((64 * n - 1) as nat);
            }
            return Some(BInt::zero(n));
        }
        let neg: bool = slice[len - 1] >= 0x80;
        let sb: u64 = if neg {
            0xFFFFFFFFFFFFFFFFu64
        } else {
            0u64
        };
        let e: usize = len / 8;
        let rem: usize = len % 8;
        let ghost t = slice@;
        let ghost k: nat = if rem == 0 {
            0nat
        } else {
            (8 - rem) as nat
        };
        let ghost u = t + Seq::new(k, |i2: int| pad_byte(neg));
        let ghost cs = chunks_of(u);
        let ghost m = cs.len();
        let ghost v = le_sval(t);
        proof {
            assert(neg == byte_neg(t.last()));
            assert(sb == sign_fill(neg));
            lemma_fundamental_div_mod(len as int, 8);
            assert(len == 8 * e + rem);
            lemma_le_sval_pad(t, k);
            assert(u.len() % 8 == 0);
            assert(u.len() >= 8);
            lemma_chunks_sval(u);
            assert(digits_sval(cs) == v);
            assert(digit_neg(cs.last()) == neg);
            lemma_fits_iff(cs, n as nat);
            lemma_digits_sval_range(cs);
            assert(m == if rem == 0 {
                e as int
            } else {
                e + 1
            });
            assert(sign_fill(digit_neg(cs.last())) == sb);
        }
        let mut out: Vec<u64> = Vec::new();
        while out.len() < n
            invariant
                out@.len() <= n,
                forall|j: int| 0 <= j < out@.len() ==> out@[j] == sb,
            decreases n - out.len(),
        {
            out.push(sb);
        }
        let mut i: usize = 0;
        while i < e
            invariant
                0 <= i <= e,
                n >= 1,
                len == t.len(),
                t == slice@,
                len == 8 * e + rem,
                out@.len() == n,
                forall|j: int| 0 <= j < i && j < n ==> out@[j] == cs[j],
                forall|j: int| i <= j < n ==> out@[j] == sb,
                forall|j: int| n <= j < i ==> cs[j] == sb,
                n - 1 < i ==> digit_neg(cs[n - 1]) == neg,
            decreases e - i,
        {
            proof {
                assert(u.subrange(8 * i as int, 8 * i as int + 8) =~= t.subrange(
                    8 * i as int,
                    8 * i as int + 8,
                ));
                lemma_le_val_bound(u.subrange(8 * i as int, 8 * i as int + 8));
                lemma2_to64_rest();
                lemma_small_mod(
                    le_val(u.subrange(8 * i as int, 8 * i as int + 8)),
                    0x10000000000000000,
                );
            }
            let d: u64 = le_chunk_value(slice, i * 8, 8);
            proof {
                assert(d == cs[i as int]);
            }
            if i == n - 1 {
                if (d >= 0x8000000000000000) != neg {
                    proof {
                        assert(digit_neg(cs[n - 1]) != neg);
                    }
                    return None;
                }
                out.set(i, d);
            } else if i < n {
                out.set(i, d);
            } else {
                if d != sb {
                    proof {
                        assert(n <= i < m && cs[i as int] != sb);
                    }
                    return None;
                }
            }
            i += 1;
        }
        if rem != 0 {
            let low: u64 = le_chunk_value(slice, e * 8, rem);
            let mut p: u64 = 1;
            let mut j: usize = 0;
            proof {
                lemma2_to64();
            }
            while j < rem
                invariant
                    0 <= j <= rem,
                    rem <= 7,
                    p as nat == pow2((8 * j) as nat),
                decreases rem - j,
            {
                proof {
                    lemma2_to64();
                    lemma2_to64_rest();
                    if 8 * j < 48 {
                        lemma_pow2_strictly_increases((8 * j) as nat, 48);
                    }
                    lemma_pow2_adds((8 * j) as nat, 8);
                }
                p = p * 256;
                j += 1;
            }
            let d: u64 = if neg {
                low + (u64::MAX - p + 1)
            } else {
                low
            };
            proof {
                let part = t.subrange(8 * e as int, t.len() as int);
                let pads = Seq::new(k, |i2: int| pad_byte(neg));
                let w = u.subrange(8 * e as int, 8 * e as int + 8);
                assert(w =~= part + pads);
                lemma_le_val_concat(part, pads);
                lemma_pow2_adds((8 * rem) as nat, (8 * k) as nat);
                lemma2_to64_rest();
                if neg {
                    lemma_le_val_ones(pads);
                    assert(pow2((8 * rem) as nat) * (pow2((8 * k) as nat) - 1) == pow2(
                        (8 * rem) as nat,
                    ) * pow2((8 * k) as nat) - pow2((8 * rem) as nat)) by (nonlinear_arith);
                    assert(le_val(w) == low + 0x10000000000000000 - p);
                } else {
                    lemma_le_val_zeros(pads);
                    assert(le_val(w) == low as nat + pow2((8 * rem) as nat) * 0);
                }
                lemma_small_mod(le_val(w), 0x10000000000000000);
                assert(cs[e as int] == le_val(w));
                assert(d == cs[e as int]);
            }
            if e == n - 1 {
                if (d >= 0x8000000000000000) != neg {
                    proof {
                        assert(digit_neg(cs[n - 1]) != neg);
                    }
                    return None;
                }
                out.set(e, d);
            } else if e < n {
                out.set(e, d);
            } else {
                if d != sb {
                    proof {
                        assert(n <= e < m && cs[e as int] != sb);
                    }
                    return None;
                }
            }
        }
        proof {
            assert forall|j: int| n <= j < m implies cs[j] == sb by {
            }
            assert(n <= m ==> digit_neg(cs[n - 1]) == neg);
            assert(in_range(v, n as nat));
            assert(out@ =~= fit_digits(cs, n as nat));
            lemma_fit_value(cs, n as nat);
        }
        Some(BInt::from_bits(BUint::from_digits(out)))
    }

    /// Reads an integer of `n` digits from a big-endian byte slice of any
    /// length: the mirror of [`BInt::from_le_slice`], with the most
    /// significant byte first.
    pub fn from_be_slice(n: usize, slice: &[u8]) -> (r: Option<BInt>)
        requires
            n >= 1,
        ensures
            (match r {
                Option::Some(v) => v.wf() && v@.len() == n && in_range(be_sval(slice@), n as nat)
                    && v.ival() == be_sval(slice@),
                Option::None => !in_range(be_sval(slice@), n as nat),
            }),
    {
        let le = crate::bint::reversed(slice);
        Self::from_le_slice(n, le.as_slice())
    }
}

} // verus!
