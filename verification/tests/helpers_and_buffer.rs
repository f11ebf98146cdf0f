use bnum::bytesholder::BytesHolder;
use bnum::helpers::tuple_to_option;
use bnum::helpers::Bits;
use bnum::helpers::One;
use bnum::helpers::Zero;

#[test]
fn bits_counts_significant_bits() {
    assert!(0b1011u8.bits() == 4);
    assert!(0u8.bits() == 0);
    assert!(0xFFu8.bits() == 8);
    assert!(1u16.bits() == 1);
    assert!(0x8000u16.bits() == 16);
    assert!(0u32.bits() == 0);
    assert!(7u32.bits() == 3);
    assert!(0u64.bits() == 0);
    assert!(0x8000000000000000u64.bits() == 64);
    assert!(0x0123456789ABCDEFu64.bits() == 57);
}

#[test]
fn bit_reads_single_bits() {
    assert!(5u8.bit(0));
    assert!(!5u8.bit(1));
    assert!(5u8.bit(2));
    assert!(!5u8.bit(7));
    assert!(0x8000000000000000u64.bit(63));
    assert!(!0x8000000000000000u64.bit(0));
    assert!(0x10000u32.bit(16));
}

#[test]
fn zero_and_one_identities() {
    assert!(u8::zero() == 0);
    assert!(u64::zero() == 0);
    assert!(usize::zero() == 0);
    assert!(u8::one() == 1);
    assert!(i64::one() == 1);
    assert!(0u32.is_zero());
    assert!(!1u32.is_zero());
    assert!(1u128.is_one());
    assert!(!2u128.is_one());
    assert!(1i8.is_one());
    assert!(!(-1i8).is_one());
}

#[test]
fn tuple_to_option_keeps_unflagged_values() {
    assert!(tuple_to_option((7u32, false)) == Some(7u32));
    assert!(tuple_to_option((7u32, true)) == None);
    assert!(tuple_to_option((0u8, false)) == Some(0u8));
}

#[test]
fn bytes_holder_default_is_zeroed() {
    let b: BytesHolder<4> = BytesHolder::default();
    assert!(b.as_slice() == &[0u8, 0, 0, 0]);
}

#[test]
fn bytes_holder_reads_and_writes() {
    let mut b = BytesHolder::new([1u8, 2, 3, 4]);
    assert!(b.byte(2) == 3);
    b.set_byte(2, 9);
    assert!(b.as_slice() == &[1u8, 2, 9, 4]);
    let c = BytesHolder::new([1u8, 2, 9, 4]);
    assert!(b == c);
}
