//! Behavioural tests for the fixed-width unsigned integer library.

use crypto_bigint::{DecodeError, UInt};

fn u(limbs: &[u64]) -> UInt {
    UInt { limbs: limbs.to_vec() }
}

#[test]
fn wrapping_add_sub_round_trip() {
    let a = UInt::from_u128(0x1234_5678_9abc_def0_fedc_ba98_7654_3210u128, 4);
    let b = UInt::from_u128(0xffff_ffff_ffff_ffff_ffff_ffff_ffff_ffffu128, 4);
    let s = a.wrapping_add(&b);
    assert_eq!(s.wrapping_sub(&b), a);
    let z = UInt::zero(4);
    assert_eq!(a.wrapping_add(&z).wrapping_sub(&z), a);
}

#[test]
fn adc_carry_matches_checked_add() {
    let max = UInt::max(2);
    let one = UInt::one(2);
    let (_, carry) = max.adc(&one, 0);
    assert_eq!(carry, 1);
    let opt: Option<UInt> = max.checked_add(&one).into();
    assert!(opt.is_none());

    let a = UInt::from_u64(7, 2);
    let (sum, carry) = a.adc(&one, 0);
    assert_eq!(carry, 0);
    assert_eq!(sum, UInt::from_u64(8, 2));
    let opt: Option<UInt> = a.checked_add(&one).into();
    assert_eq!(opt.unwrap(), UInt::from_u64(8, 2));
}

#[test]
fn adc_exact_values() {
    // 0xffff_ffff_ffff_ffff + 1 propagates one carry into the next limb.
    let a = u(&[u64::MAX, 0, 5]);
    let b = u(&[1, 0, 0]);
    let (sum, carry) = a.adc(&b, 0);
    assert_eq!(sum, u(&[0, 1, 5]));
    assert_eq!(carry, 0);
    // A carry-in of 1 is added as well.
    let (sum, carry) = a.adc(&b, 1);
    assert_eq!(sum, u(&[1, 1, 5]));
    assert_eq!(carry, 0);
}

#[test]
fn sbb_exact_values() {
    let a = u(&[0, 1]);
    let b = u(&[1, 0]);
    let (diff, borrow) = a.sbb(&b, 0);
    assert_eq!(diff, u(&[u64::MAX, 0]));
    assert_eq!(borrow, 0);
    let (diff, borrow) = b.sbb(&a, 0);
    assert_eq!(diff, u(&[1, u64::MAX]));
    assert_eq!(borrow, 1);
}

#[test]
fn mul_wide_by_one() {
    let a = u(&[0xdead_beef, 0x1234, 0xffff_ffff_ffff_ffff]);
    let one = UInt::one(3);
    let (hi, lo) = a.mul_wide(&one);
    assert_eq!(hi, UInt::zero(3));
    assert_eq!(lo, a);
}

#[test]
fn mul_wide_exact_values() {
    // (2^64 - 1)^2 == 2^128 - 2^65 + 1.
    let a = u(&[u64::MAX]);
    let (hi, lo) = a.mul_wide(&a);
    assert_eq!(lo, u(&[1]));
    assert_eq!(hi, u(&[u64::MAX - 1]));
    let sq = a.square();
    assert_eq!(sq, u(&[1, u64::MAX - 1]));
}

#[test]
fn wrapping_mul_exact_values() {
    let a = UInt::from_u64(3, 2);
    let b = UInt::from_u64(4, 2);
    assert_eq!(a.wrapping_mul(&b), UInt::from_u64(12, 2));
}

#[test]
fn mul_wide_matches_checked_mul() {
    let a = UInt::from_u128(0x1_0000_0000_0000_0000u128, 2);
    let (hi, _lo) = a.mul_wide(&a);
    // 2^64 squared is 2^128: past two limbs, so the high half is non-zero.
    assert_ne!(hi, UInt::zero(2));
    let opt: Option<UInt> = a.checked_mul(&a).into();
    assert!(opt.is_none());

    let b = UInt::from_u64(0x10_0000, 2);
    let (hi, lo) = b.mul_wide(&b);
    assert_eq!(hi, UInt::zero(2));
    let opt: Option<UInt> = b.checked_mul(&b).into();
    assert_eq!(opt.unwrap(), lo);
    assert_eq!(b.wrapping_mul(&b), UInt::from_u128(0x100_0000_0000u128, 2));
}

#[test]
fn checked_sub_flags_underflow() {
    let a = UInt::from_u64(5, 2);
    let b = UInt::from_u64(6, 2);
    let opt: Option<UInt> = a.checked_sub(&b).into();
    assert!(opt.is_none());
    let opt: Option<UInt> = b.checked_sub(&a).into();
    assert_eq!(opt.unwrap(), UInt::one(2));
}

#[test]
fn byte_round_trips() {
    let x = UInt::from_u128(0x0102_0304_0506_0708_090a_0b0c_0d0e_0f10u128, 4);
    let be = x.to_be_bytes();
    assert_eq!(UInt::from_be_bytes(&be, 4).unwrap(), x);
    let le = x.to_le_bytes();
    assert_eq!(UInt::from_le_bytes(&le, 4).unwrap(), x);
}

#[test]
fn hex_round_trips() {
    let x = UInt::from_u128(0xfedc_ba98_7654_3210_0123_4567_89ab_cdefu128, 4);
    let be = x.to_be_hex();
    assert_eq!(UInt::from_be_hex(&be, 4).unwrap(), x);
    let le = x.to_le_hex();
    assert_eq!(UInt::from_le_hex(&le, 4).unwrap(), x);
}

#[test]
fn byte_encodings_exact() {
    let x = UInt::from_u64(0x0102_0304_0506_0708, 1);
    assert_eq!(x.to_le_bytes(), vec![8, 7, 6, 5, 4, 3, 2, 1]);
    assert_eq!(x.to_be_bytes(), vec![1, 2, 3, 4, 5, 6, 7, 8]);
}

#[test]
fn hex_encoding_is_uppercase_and_padded() {
    let x = UInt::from_u64(0xdead_beef, 1);
    assert_eq!(x.to_be_hex(), b"00000000DEADBEEF".to_vec());
    let z = UInt::zero(1);
    assert_eq!(z.to_be_hex(), b"0000000000000000".to_vec());
}

#[test]
fn hex_decoding_accepts_both_cases() {
    let a = UInt::from_be_hex(b"00000000deadbeef", 1).unwrap();
    let b = UInt::from_be_hex(b"00000000DEADBEEF", 1).unwrap();
    assert_eq!(a, b);
    assert_eq!(a.to_u64(), 0xdead_beef);
}

#[test]
fn le_hex_pair_order() {
    // Little-endian hex keeps digit pairs in byte order, high nibble first
    // within each pair.
    let x = UInt::from_le_hex(b"EFCDAB8967452301", 1).unwrap();
    assert_eq!(x.to_u64(), 0x0123_4567_89ab_cdef);
}

#[test]
fn split_concat_round_trip() {
    let x = UInt::from_u128(0x1111_2222_3333_4444_5555_6666_7777_8888u128, 4);
    let (hi, lo) = x.split();
    assert_eq!(hi.concat(&lo), x);
}

#[test]
fn ct_eq_properties() {
    let x = u(&[1, 2, 3]);
    let y = u(&[1, 2, 4]);
    assert_eq!(x.ct_eq(&x).unwrap_u8(), 1);
    assert_eq!(x.ct_eq(&y).unwrap_u8(), 0);
    assert_eq!(y.ct_eq(&x).unwrap_u8(), 0);
    let z = u(&[1, 2, 3]);
    assert_eq!(x.ct_eq(&z).unwrap_u8(), 1);
    assert_eq!(z.ct_eq(&x).unwrap_u8(), 1);
}

#[test]
fn eight_limb_all_f_hex_is_max() {
    // 512-bit value: 8 limbs of 64 bits, 128 hex digits of 'f'.
    let hex = vec![b'f'; 128];
    let x = UInt::from_be_hex(&hex, 8).unwrap();
    assert_eq!(x, UInt::max(8));

    let one = UInt::one(8);
    let (sum, carry) = x.adc(&one, 0);
    assert_eq!(sum, UInt::zero(8));
    assert_eq!(carry, 1);
    assert_eq!(x.wrapping_add(&one), UInt::zero(8));

    let (diff, borrow) = UInt::zero(8).sbb(&one, 0);
    assert_eq!(diff, UInt::max(8));
    assert_eq!(borrow, 1);
    assert_eq!(UInt::zero(8).wrapping_sub(&one), UInt::max(8));
}

#[test]
fn u128_max_splits_into_max_halves() {
    let x = UInt::from_u128(u128::MAX, 2);
    let (hi, lo) = x.split();
    assert_eq!(hi.to_u64(), u64::MAX);
    assert_eq!(lo.to_u64(), u64::MAX);
    assert_eq!(hi, UInt::from_u64(u64::MAX, 1));
    assert_eq!(lo, UInt::from_u64(u64::MAX, 1));
}

#[test]
fn small_integer_constructors() {
    assert_eq!(UInt::from_u8(0xab, 2).to_u128(), 0xab);
    assert_eq!(UInt::from_u16(0xabcd, 2).to_u128(), 0xabcd);
    assert_eq!(UInt::from_u32(0xdead_beef, 2).to_u128(), 0xdead_beef);
    assert_eq!(UInt::from_u64(u64::MAX, 2).to_u128(), u64::MAX as u128);
    let v = 0x0011_2233_4455_6677_8899_aabb_ccdd_eeffu128;
    assert_eq!(UInt::from_u128(v, 2).to_u128(), v);
    assert_eq!(UInt::from_u64(5, 1).to_u64(), 5);
}

#[test]
fn constants_have_expected_limbs() {
    assert_eq!(UInt::zero(3).limbs(), &vec![0, 0, 0]);
    assert_eq!(UInt::one(3).limbs(), &vec![1, 0, 0]);
    assert_eq!(UInt::max(3).limbs(), &vec![u64::MAX, u64::MAX, u64::MAX]);
}

#[test]
fn is_zero_flag() {
    assert_eq!(UInt::zero(4).is_zero().unwrap_u8(), 1);
    assert_eq!(UInt::one(4).is_zero().unwrap_u8(), 0);
    assert_eq!(u(&[0, 0, 1]).is_zero().unwrap_u8(), 0);
}

#[test]
fn conditional_select_uses_matching_limbs() {
    // The two operands differ only past the first limb, so a selector that
    // reads every destination limb from one fixed source index would fail.
    let a = u(&[9, 1, 2, 3]);
    let b = u(&[9, 7, 8, 6]);
    let pick_a = UInt::conditional_select(&a, &b, subtle::Choice::from(0));
    assert_eq!(pick_a, a);
    let pick_b = UInt::conditional_select(&a, &b, subtle::Choice::from(1));
    assert_eq!(pick_b, b);
}

#[test]
fn decode_hex_byte_values() {
    assert_eq!(crypto_bigint::codec::decode_hex_byte([b'0', b'0']).unwrap(), 0);
    assert_eq!(crypto_bigint::codec::decode_hex_byte([b'f', b'F']).unwrap(), 0xff);
    assert_eq!(crypto_bigint::codec::decode_hex_byte([b'1', b'a']).unwrap(), 0x1a);
    assert_eq!(crypto_bigint::codec::decode_hex_byte([b'A', b'9']).unwrap(), 0xa9);
    assert_eq!(
        crypto_bigint::codec::decode_hex_byte([b'g', b'0']),
        Err(DecodeError::BadHexDigit)
    );
}

#[test]
fn wrong_length_is_rejected() {
    let bytes = [0u8; 15];
    assert_eq!(UInt::from_be_bytes(&bytes, 2), Err(DecodeError::WrongLength));
    assert_eq!(UInt::from_le_bytes(&bytes, 2), Err(DecodeError::WrongLength));
    let hex = [b'0'; 31];
    assert_eq!(UInt::from_be_hex(&hex, 2), Err(DecodeError::WrongLength));
    assert_eq!(UInt::from_le_hex(&hex, 2), Err(DecodeError::WrongLength));
}

#[test]
fn bad_hex_digit_is_rejected() {
    let mut hex = vec![b'0'; 32];
    hex[5] = b'x';
    assert_eq!(UInt::from_be_hex(&hex, 2), Err(DecodeError::BadHexDigit));
    assert_eq!(UInt::from_le_hex(&hex, 2), Err(DecodeError::BadHexDigit));
}

#[test]
fn equality_requires_same_width() {
    let narrow = UInt::from_u64(1, 1);
    let wide = UInt::from_u64(1, 2);
    assert!(narrow != wide);
    assert!(narrow == UInt::one(1));
}

#[test]
fn checked_add_payload_through_option() {
    // The CtOption wrapper must carry the computed sum, not either operand.
    let a = UInt::from_u64(40, 1);
    let b = UInt::from_u64(2, 1);
    let opt: Option<UInt> = a.checked_add(&b).into();
    assert_eq!(opt.unwrap().to_u64(), 42);
}

#[test]
fn limbs_accessor_reflects_value() {
    let x = UInt::from_u128(0x0000_0000_0000_0002_0000_0000_0000_0001u128, 3);
    assert_eq!(x.limbs(), &vec![1, 2, 0]);
}

#[test]
fn lowercase_hex_rendering() {
    let x = UInt::from_u64(0xdead_beef, 1);
    assert_eq!(x.to_be_hex_lower(), b"00000000deadbeef".to_vec());
    assert_eq!(UInt::from_be_hex(&x.to_be_hex_lower(), 1).unwrap(), x);
}
