use oxinum::uint::BigUint;

#[test]
fn zero_is_canonical() {
    let z = BigUint::zero();
    assert!(z.is_zero());
    assert_eq!(z.as_limbs().len(), 0);
    assert_eq!(z.bit_length(), 0);
}

#[test]
fn normalize_strips_trailing_zeros() {
    let n = BigUint::from_le_limbs(&[5, 0, 0]);
    assert_eq!(n.as_limbs(), &[5u64]);
}

#[test]
fn from_u128_high_limb() {
    let n = BigUint::from_u128(u128::MAX);
    assert_eq!(n.as_limbs(), &[u64::MAX, u64::MAX]);
    assert_eq!(n.bit_length(), 128);
}

#[test]
fn add_with_carry_chain() {
    // 0xFF...F + 1 should produce a new limb.
    let a = BigUint::from_u64(u64::MAX);
    let b = BigUint::from_u64(1);
    let s = &a + &b;
    assert_eq!(s.as_limbs(), &[0u64, 1u64]);
}

#[test]
fn checked_sub_underflow_returns_none() {
    let a = BigUint::from_u64(5);
    let b = BigUint::from_u64(10);
    assert!(a.checked_sub(&b).is_none());
}

#[test]
fn checked_sub_basic() {
    let a = BigUint::from_u64(100);
    let b = BigUint::from_u64(40);
    assert_eq!(a.checked_sub(&b), Some(BigUint::from_u64(60)));
}

#[test]
fn checked_sub_borrow_chain() {
    let a = BigUint::from_le_limbs(&[0, 1]); // 2^64
    let b = BigUint::from_u64(1);
    let d = a.checked_sub(&b).expect("non-underflow");
    assert_eq!(d.as_limbs(), &[u64::MAX]);
}

#[test]
fn shl_within_limb() {
    let n = BigUint::from_u64(1);
    assert_eq!(n.shl_bits(5), BigUint::from_u64(32));
}

#[test]
fn shl_crosses_limb_boundary() {
    let n = BigUint::from_u64(1);
    let s = n.shl_bits(64);
    assert_eq!(s.as_limbs(), &[0u64, 1u64]);
}

#[test]
fn shl_by_zero_is_identity() {
    let n = BigUint::from_u64(42);
    assert_eq!(n.shl_bits(0), n);
}

#[test]
fn shr_within_limb() {
    let n = BigUint::from_u64(0b1010_0000);
    assert_eq!(n.shr_bits(4), BigUint::from_u64(0b1010));
}

#[test]
fn shr_crosses_limb_boundary() {
    let n = BigUint::from_le_limbs(&[0, 1]); // 2^64
    let s = n.shr_bits(64);
    assert_eq!(s, BigUint::from_u64(1));
}

#[test]
fn shl_then_shr_is_identity() {
    let n = BigUint::from_u64(0xDEAD_BEEF_CAFE_BABE);
    for k in [0u64, 1, 32, 63, 64, 65, 100, 256] {
        let r = n.shl_bits(k).shr_bits(k);
        assert_eq!(r, n, "shl/shr identity failed for k={k}");
    }
}

#[test]
fn cmp_by_length() {
    let small = BigUint::from_u64(u64::MAX);
    let big = BigUint::from_le_limbs(&[0, 1]); // 2^64 > 2^64 - 1
    assert!(big > small);
}

#[test]
fn cmp_same_length_msb_first() {
    let a = BigUint::from_le_limbs(&[1, 2]);
    let b = BigUint::from_le_limbs(&[100, 1]);
    // [1, 2] has top limb 2 > 1 = top of [100, 1].
    assert!(a > b);
}

#[test]
fn bit_length_basic() {
    assert_eq!(BigUint::zero().bit_length(), 0);
    assert_eq!(BigUint::from_u64(1).bit_length(), 1);
    assert_eq!(BigUint::from_u64(0xFF).bit_length(), 8);
    assert_eq!(BigUint::from_u64(u64::MAX).bit_length(), 64);
}

#[test]
fn trailing_zeros_basic() {
    assert_eq!(BigUint::from_u64(0b1000).trailing_zeros(), 3);
    assert_eq!(BigUint::from_le_limbs(&[0, 1]).trailing_zeros(), 64);
    assert_eq!(BigUint::zero().trailing_zeros(), 0);
}

#[test]
fn count_ones_basic() {
    assert_eq!(BigUint::zero().count_ones(), 0);
    assert_eq!(BigUint::from_u64(0b1011).count_ones(), 3);
    // Multi-limb: top limb has u64 = 0xF (4 bits), low limb has 1 bit set.
    let n = BigUint::from_le_limbs(&[1, 0xF]);
    assert_eq!(n.count_ones(), 5);
}

#[test]
fn test_set_clear_bit() {
    let mut n = BigUint::zero();
    n.set_bit(100);
    assert!(n.test_bit(100));
    assert_eq!(n.bit_length(), 101);
    n.clear_bit(100);
    assert!(n.is_zero());
}

#[test]
fn bytes_roundtrip_le() {
    let n = BigUint::from_u64(0xDEAD_BEEF_CAFE_BABE);
    let bytes = n.to_bytes_le();
    let m = BigUint::from_bytes_le(&bytes);
    assert_eq!(m, n);
}

#[test]
fn bytes_roundtrip_be() {
    let n = BigUint::from_u64(0xDEAD_BEEF_CAFE_BABE);
    let bytes = n.to_bytes_be();
    let m = BigUint::from_bytes_be(&bytes);
    assert_eq!(m, n);
}

#[test]
fn bitand_or_xor() {
    let a = BigUint::from_u64(0b1100);
    let b = BigUint::from_u64(0b1010);
    assert_eq!(&a & &b, BigUint::from_u64(0b1000));
    assert_eq!(&a | &b, BigUint::from_u64(0b1110));
    assert_eq!(&a ^ &b, BigUint::from_u64(0b0110));
}
