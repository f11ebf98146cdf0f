use bnum::bint::BInt;
use bnum::buint::BUint;

fn int_from(digits: Vec<u64>) -> BInt {
    BInt::from_bits(BUint::from_digits(digits))
}

#[test]
fn round_trip_le() {
    let x = int_from(vec![0x0123456789ABCDEF, 0xFEDCBA9876543210]);
    let bytes = x.to_le_bytes();
    let y = BInt::from_le_bytes(bytes.as_slice());
    assert!(y == int_from(vec![0x0123456789ABCDEF, 0xFEDCBA9876543210]));
}

#[test]
fn round_trip_be() {
    let x = int_from(vec![0x0123456789ABCDEF, 0xFEDCBA9876543210]);
    let bytes = x.to_be_bytes();
    let y = BInt::from_be_bytes(bytes.as_slice());
    assert!(y == int_from(vec![0x0123456789ABCDEF, 0xFEDCBA9876543210]));
}

#[test]
fn round_trip_ne() {
    let x = int_from(vec![5, 0, 0xFFFFFFFFFFFFFFFF]);
    let bytes = x.to_ne_bytes();
    let y = BInt::from_ne_bytes(bytes.as_slice());
    assert!(y == int_from(vec![5, 0, 0xFFFFFFFFFFFFFFFF]));
}

#[test]
fn le_bytes_layout() {
    let x = int_from(vec![0x0123456789ABCDEF, 0xFEDCBA9876543210]);
    let bytes = x.to_le_bytes();
    assert!(
        bytes
            == vec![
                0xEF, 0xCD, 0xAB, 0x89, 0x67, 0x45, 0x23, 0x01, 0x10, 0x32, 0x54, 0x76, 0x98,
                0xBA, 0xDC, 0xFE,
            ]
    );
}

#[test]
fn be_bytes_layout() {
    let x = int_from(vec![0x0123456789ABCDEF, 0xFEDCBA9876543210]);
    let bytes = x.to_be_bytes();
    assert!(
        bytes
            == vec![
                0xFE, 0xDC, 0xBA, 0x98, 0x76, 0x54, 0x32, 0x10, 0x01, 0x23, 0x45, 0x67, 0x89,
                0xAB, 0xCD, 0xEF,
            ]
    );
}

#[test]
fn from_le_bytes_exact() {
    let bytes: Vec<u8> = vec![1, 2, 3, 4, 5, 6, 7, 8, 9, 10, 11, 12, 13, 14, 15, 16];
    let x = BInt::from_le_bytes(bytes.as_slice());
    assert!(x == int_from(vec![0x0807060504030201, 0x100F0E0D0C0B0A09]));
}

#[test]
fn slice_array_agreement_be() {
    let bytes: Vec<u8> = vec![
        0xFE, 0xDC, 0xBA, 0x98, 0x76, 0x54, 0x32, 0x10, 0x01, 0x23, 0x45, 0x67, 0x89, 0xAB, 0xCD,
        0xEF,
    ];
    let from_slice = BInt::from_be_slice(2, bytes.as_slice());
    let from_array = BInt::from_be_bytes(bytes.as_slice());
    assert!(from_slice == Some(from_array));
}

#[test]
fn slice_array_agreement_le() {
    let bytes: Vec<u8> = vec![9, 8, 7, 6, 5, 4, 3, 2, 1, 0, 0xFF, 0xEE, 0xDD, 0xCC, 0xBB, 0xAA];
    let from_slice = BInt::from_le_slice(2, bytes.as_slice());
    let from_array = BInt::from_le_bytes(bytes.as_slice());
    assert!(from_slice == Some(from_array));
}

#[test]
fn implicit_padding_be() {
    // A single 0xFE byte is the value -2, sign-extended to the full width.
    let short = BInt::from_be_slice(1, &[0xFE]);
    let longer = BInt::from_be_slice(1, &[0xFF, 0xFE]);
    let minus_two = int_from(vec![0xFFFFFFFFFFFFFFFE]);
    assert!(short == Some(minus_two));
    let minus_two = int_from(vec![0xFFFFFFFFFFFFFFFE]);
    assert!(longer == Some(minus_two));
}

#[test]
fn implicit_padding_be_two_digits() {
    let short = BInt::from_be_slice(2, &[0xFE]);
    let minus_two = int_from(vec![0xFFFFFFFFFFFFFFFE, 0xFFFFFFFFFFFFFFFF]);
    assert!(short == Some(minus_two));
}

#[test]
fn implicit_padding_le() {
    let short = BInt::from_le_slice(1, &[0xFE]);
    let longer = BInt::from_le_slice(1, &[0xFE, 0xFF]);
    let minus_two = int_from(vec![0xFFFFFFFFFFFFFFFE]);
    assert!(short == Some(minus_two));
    let minus_two = int_from(vec![0xFFFFFFFFFFFFFFFE]);
    assert!(longer == Some(minus_two));
}

#[test]
fn redundant_prefix_accepted() {
    // Leading zero bytes are pure sign extension of a non-negative value.
    let r = BInt::from_be_slice(1, &[0x00, 0x00, 0xFE]);
    assert!(r == Some(int_from(vec![0xFE])));
    let nine_zeros_then_one = BInt::from_be_slice(1, &[0, 0, 0, 0, 0, 0, 0, 0, 1]);
    assert!(nine_zeros_then_one == Some(int_from(vec![1])));
}

#[test]
fn overflow_rejected_be() {
    // Nine bytes whose top byte is not pure sign extension: 2^64 does
    // not fit in one digit.
    let r = BInt::from_be_slice(1, &[0x01, 0, 0, 0, 0, 0, 0, 0, 0]);
    assert!(r == None);
    // A positive value whose top bit would read as a sign bit at width
    // one: the redundant prefix contradicts the next byte's sign.
    let r2 = BInt::from_be_slice(1, &[0x00, 0xFF, 0xFF, 0xFF, 0xFF, 0xFF, 0xFF, 0xFF, 0xFF]);
    assert!(r2 == None);
}

#[test]
fn overflow_rejected_le() {
    let r = BInt::from_le_slice(1, &[0, 0, 0, 0, 0, 0, 0, 0, 0x01]);
    assert!(r == None);
    let r2 = BInt::from_le_slice(1, &[0xFF, 0xFF, 0xFF, 0xFF, 0xFF, 0xFF, 0xFF, 0xFF, 0x00]);
    assert!(r2 == None);
}

#[test]
fn max_negative_accepted() {
    // Exactly 8 bytes always fit, even at the extremes.
    let r = BInt::from_be_slice(1, &[0x80, 0, 0, 0, 0, 0, 0, 0]);
    assert!(r == Some(int_from(vec![0x8000000000000000])));
}

#[test]
fn empty_slice_is_zero() {
    assert!(BInt::from_be_slice(1, &[]) == Some(BInt::zero(1)));
    assert!(BInt::from_be_slice(2, &[]) == Some(BInt::zero(2)));
    assert!(BInt::from_le_slice(3, &[]) == Some(BInt::zero(3)));
}

#[test]
fn endian_involution() {
    let x = int_from(vec![0x0123456789ABCDEF, 0xFEDCBA9876543210]);
    let there_and_back = x.to_be().to_be();
    assert!(there_and_back == int_from(vec![0x0123456789ABCDEF, 0xFEDCBA9876543210]));
    let y = int_from(vec![7, 0x8000000000000000]);
    let same = y.to_le().to_le();
    assert!(same == int_from(vec![7, 0x8000000000000000]));
}

#[test]
fn endian_swap_layout() {
    // One digit: to_be reverses that digit's bytes.
    let x = int_from(vec![0x0102030405060708]);
    assert!(x.to_be() == int_from(vec![0x0807060504030201]));
    // Two digits: digit order is reversed as well.
    let y = int_from(vec![0x0102030405060708, 0x1112131415161718]);
    assert!(y.to_be() == int_from(vec![0x1817161514131211, 0x0807060504030201]));
}

#[test]
fn from_be_matches_to_be() {
    let x = int_from(vec![3, 4]);
    let a = BInt::from_be(int_from(vec![3, 4]));
    assert!(a == x.to_be());
    let b = BInt::from_le(int_from(vec![3, 4]));
    assert!(b == int_from(vec![3, 4]));
}

#[test]
fn mirror_symmetry() {
    let s: Vec<u8> = vec![0x01, 0xFF, 0xFE, 0x00, 0x7F, 0x80, 0x20];
    let mut rev = s.clone();
    rev.reverse();
    let be = BInt::from_be_slice(2, s.as_slice());
    let le = BInt::from_le_slice(2, rev.as_slice());
    assert!(be == le);
    // Also where decoding fails.
    let long: Vec<u8> = vec![0x01, 0, 0, 0, 0, 0, 0, 0, 0];
    let mut long_rev = long.clone();
    long_rev.reverse();
    assert!(BInt::from_be_slice(1, long.as_slice()) == None);
    assert!(BInt::from_le_slice(1, long_rev.as_slice()) == None);
}

#[test]
fn magnitude_round_trip() {
    let m = BUint::from_digits(vec![0xAABBCCDDEEFF0011, 0x2233445566778899]);
    let bytes = m.to_le_bytes();
    let back = BUint::from_le_bytes(bytes.as_slice());
    assert!(back == BUint::from_digits(vec![0xAABBCCDDEEFF0011, 0x2233445566778899]));
}

#[test]
fn magnitude_swap_involution() {
    let m = BUint::from_digits(vec![1, 2, 3]);
    let back = m.swap_bytes().swap_bytes();
    assert!(back == BUint::from_digits(vec![1, 2, 3]));
}

#[test]
fn zero_has_zero_digits() {
    let z = BInt::zero(2);
    let bits = z.to_bits();
    assert!(bits.digits() == &vec![0u64, 0u64]);
    assert!(bits.len() == 2);
}
