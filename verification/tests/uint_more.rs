use oxinum::uint::BigUint;

#[test]
fn doc_examples_uint() {
    let a = BigUint::from_u64(42);
    let b = BigUint::from_u64(58);
    assert_eq!(&a + &b, BigUint::from_u64(100));
    assert!(BigUint::one().is_one());
    assert_eq!(BigUint::from_u64(42).to_u64(), Some(42));
    assert_eq!(BigUint::from_le_limbs(&[5, 0, 0]), BigUint::from_u64(5));
    assert_eq!(BigUint::from_u64(0xDEAD_BEEF).as_limbs(), &[0xDEAD_BEEFu64]);
    assert_eq!(BigUint::from_u128(u128::MAX).bit_length(), 128);
    assert_eq!(BigUint::from_u64(0b1000).trailing_zeros(), 3);
    assert_eq!(BigUint::from_u64(0b1011).count_ones(), 3);
    let n = BigUint::from_u64(0b1010);
    assert!(!n.test_bit(0));
    assert!(n.test_bit(1));
    assert!(!n.test_bit(2));
    assert!(n.test_bit(3));
    assert_eq!(BigUint::from_bytes_be(&[1, 2, 3]), BigUint::from_u64(0x010203));
    assert_eq!(BigUint::from_bytes_le(&[3, 2, 1]), BigUint::from_u64(0x010203));
    assert_eq!(BigUint::from_u64(0x010203).to_bytes_be(), vec![1u8, 2, 3]);
    assert!(BigUint::zero().to_bytes_be().is_empty());
    assert_eq!(BigUint::from_u64(0x010203).to_bytes_le(), vec![3u8, 2, 1]);
    assert_eq!(BigUint::from_u64(1).shl_bits(65).bit_length(), 66);
    assert_eq!(BigUint::from_u64(0b1100).shr_bits(2), BigUint::from_u64(0b11));
}

#[test]
fn pow_examples() {
    assert_eq!(BigUint::from_u64(2).pow(10), BigUint::from_u64(1024));
    assert_eq!(BigUint::from_u64(3).pow(0), BigUint::from_u64(1));
    assert_eq!(BigUint::zero().pow(0), BigUint::from_u64(1));
    assert_eq!(BigUint::zero().pow(5), BigUint::zero());
    assert_eq!(BigUint::one().pow(1000), BigUint::one());
    // 3^41 does not fit in u64 but 3^40 does
    let big = BigUint::from_u64(3).pow(41);
    assert_eq!(big, BigUint::from_u128(3u128.pow(41)));
}

#[test]
fn set_bit_grows_and_clear_bit_shrinks() {
    let mut n = BigUint::zero();
    n.set_bit(5);
    assert_eq!(n, BigUint::from_u64(32));
    n.set_bit(5);
    assert_eq!(n, BigUint::from_u64(32));
    let mut m = BigUint::from_u64(0b1010);
    m.clear_bit(1);
    assert_eq!(m, BigUint::from_u64(0b1000));
    m.clear_bit(200);
    assert_eq!(m, BigUint::from_u64(0b1000));
}

#[test]
fn to_u64_overflow_is_none() {
    assert_eq!(BigUint::from_le_limbs(&[1, 1]).to_u64(), None);
    assert_eq!(BigUint::zero().to_u64(), Some(0));
}

#[test]
fn mul_and_div_rem() {
    let a = BigUint::from_u128(0x1234_5678_9abc_def0_1122_3344_5566_7788);
    let b = BigUint::from_u64(0xffff_ffff_ffff_fff1);
    let p = BigUint::mul_ref(&a, &b);
    let (q, r) = p.div_rem(&b);
    assert_eq!(q, a);
    assert!(r.is_zero());
    let (q2, r2) = BigUint::from_u64(1000).div_rem(&BigUint::from_u64(7));
    assert_eq!(q2, BigUint::from_u64(142));
    assert_eq!(r2, BigUint::from_u64(6));
}

#[test]
fn add_sub_roundtrip() {
    let a = BigUint::from_le_limbs(&[u64::MAX, u64::MAX, 3]);
    let b = BigUint::from_le_limbs(&[1, 0, 0, 0]);
    let s = BigUint::add_ref(&a, &b);
    assert_eq!(s.as_limbs(), &[0u64, 0, 4]);
    assert_eq!(s.checked_sub(&b), Some(a.clone()));
    assert_eq!(b.checked_sub(&s), None);
}

#[test]
fn shifts_by_large_amounts() {
    let n = BigUint::from_u64(0b1011);
    assert!(n.shr_bits(1000).is_zero());
    let m = n.shl_bits(130);
    assert_eq!(m.bit_length(), 134);
    assert_eq!(m.trailing_zeros(), 130);
    assert_eq!(m.shr_bits(130), n);
    let mut o = n.clone();
    o <<= 3;
    assert_eq!(o, BigUint::from_u64(0b1011000));
    o >>= 4;
    assert_eq!(o, BigUint::from_u64(0b101));
    assert_eq!(&n << 1, BigUint::from_u64(0b10110));
    assert_eq!(n.clone() >> 1, BigUint::from_u64(0b101));
}

#[test]
fn bitwise_multi_limb() {
    let a = BigUint::from_le_limbs(&[0xF0, 0xFF]);
    let b = BigUint::from_le_limbs(&[0x0F]);
    assert_eq!(&a & &b, BigUint::zero());
    assert_eq!(&a | &b, BigUint::from_le_limbs(&[0xFF, 0xFF]));
    assert_eq!(a.clone() ^ a.clone(), BigUint::zero());
    assert_eq!(BigUint::default(), BigUint::zero());
}

#[test]
fn bytes_round_trip() {
    for n in [0u128, 1, 255, 256, 0xDEAD_BEEF, u64::MAX as u128 + 1, u128::MAX] {
        let x = BigUint::from_u128(n);
        assert_eq!(BigUint::from_bytes_le(&x.to_bytes_le()), x);
        assert_eq!(BigUint::from_bytes_be(&x.to_bytes_be()), x);
        assert_eq!(x.to_bytes_le(), n.to_le_bytes()[..x.to_bytes_le().len()].to_vec());
    }
    // Leading zero bytes do not change the value, and are not produced.
    assert_eq!(BigUint::from_bytes_be(&[0, 0, 1, 2]).to_bytes_be(), vec![1u8, 2]);
}

#[test]
fn shift_left_then_right_is_identity() {
    let x = BigUint::from_u128(0x1234_5678_9ABC_DEF0_1122_3344_5566_7788);
    for k in [0u64, 1, 63, 64, 65, 200] {
        assert_eq!(x.shl_bits(k).shr_bits(k), x);
    }
}

#[test]
fn bit_length_brackets_the_value() {
    for n in [1u128, 2, 3, 255, 256, u128::MAX] {
        let x = BigUint::from_u128(n);
        let bl = x.bit_length();
        assert!(BigUint::one().shl_bits(bl - 1) <= x);
        assert!(x < BigUint::one().shl_bits(bl));
    }
}

#[test]
fn set_and_clear_bit_touch_one_bit() {
    let mut x = BigUint::from_u64(0b1010);
    x.set_bit(100);
    assert!(x.test_bit(100));
    assert!(x.test_bit(1) && x.test_bit(3) && !x.test_bit(0));
    x.clear_bit(100);
    assert_eq!(x, BigUint::from_u64(0b1010));
    x.clear_bit(3);
    assert_eq!(x, BigUint::from_u64(0b10));
}
