use core::cmp::Ordering;

use oxinum::bigint::BigInt;
use oxinum::float::{BigFloat, RoundingMode};

fn num(n: i64, prec: u32) -> BigFloat {
    BigFloat::from_i64(n, prec, RoundingMode::HalfEven)
}

#[test]
fn integers_that_fit_are_encoded_exactly() {
    for n in [0i64, 1, -1, 255, -256, 1 << 40, i64::MAX, i64::MIN] {
        assert_eq!(num(n, 64).to_bigint_trunc(), BigInt::from_i64(n));
    }
    // 9 needs four bits: at three bits it rounds (ties to even) to 8.
    assert_eq!(num(9, 3).to_bigint_trunc(), BigInt::from_i64(8));
    assert_eq!(num(9, 4).to_bigint_trunc(), BigInt::from_i64(9));
}

#[test]
fn rounding_a_normalized_value_changes_nothing() {
    let x = num(-12345, 20);
    let y = x.clone().round_to_precision(20, RoundingMode::ToZero);
    assert_eq!(y, x);
    assert_eq!(y.exponent(), x.exponent());
    assert_eq!(y.mantissa(), x.mantissa());
}

#[test]
fn negation_is_an_involution_and_an_inverse() {
    for n in [0i64, 3, -7, 1 << 50] {
        let x = num(n, 53);
        assert_eq!(x.neg().neg(), x);
        assert_eq!(x.neg().to_bigint_trunc(), BigInt::from_i64(-n));
    }
    assert!(BigFloat::nan(8).neg().neg().is_nan());
    assert!(BigFloat::infinity(8).neg().neg().is_sign_positive());
}

#[test]
fn total_cmp_orders_all_classes() {
    let seq = [
        BigFloat::neg_infinity(16),
        num(-5, 16),
        num(-1, 16),
        BigFloat::zero(16),
        num(1, 16),
        num(5, 16),
        BigFloat::infinity(16),
        BigFloat::nan(16),
    ];
    for i in 0..seq.len() {
        assert_eq!(seq[i].total_cmp(&seq[i]), Ordering::Equal);
        for j in 0..seq.len() {
            let expected = i.cmp(&j);
            assert_eq!(seq[i].total_cmp(&seq[j]), expected);
            assert_eq!(seq[j].total_cmp(&seq[i]), expected.reverse());
        }
    }
}

#[test]
fn equal_values_compare_equal() {
    let a = BigFloat::from_hex_float("0x1.8p1", 24).unwrap();
    let b = num(3, 24);
    assert_eq!(a, b);
    assert_eq!(a.total_cmp(&b), Ordering::Equal);
    assert_eq!(a.partial_cmp(&b), Some(Ordering::Equal));
    // Zeros are equal whatever their precision.
    assert_eq!(BigFloat::zero(8), BigFloat::zero(64));
    assert!(BigFloat::nan(8) != BigFloat::nan(8));
}

#[test]
fn significant_digit_count_is_exact() {
    let x = num(987_654_321, 64);
    for d in 1..12usize {
        let s = x.to_scientific_string(d);
        let mantissa = s.split('e').next().unwrap();
        let digits = mantissa.chars().filter(|c| c.is_ascii_digit()).count();
        assert_eq!(digits, d, "{s}");
    }
}

#[test]
fn hex_round_trip_keeps_every_bit() {
    let values = [
        BigFloat::from_hex_float("0x1.23456789abcdefp-300", 64).unwrap(),
        BigFloat::from_hex_float("-0x1.fffffp+1000", 24).unwrap(),
        BigFloat::from_hex_float("0x1p0", 1).unwrap(),
        BigFloat::zero(30),
    ];
    for x in values {
        let text = x.to_hex_string();
        let y = BigFloat::from_hex_float(&text, x.precision()).unwrap();
        assert_eq!(y, x, "{text}");
        assert_eq!(y.precision(), x.precision());
    }
}

#[test]
fn integer_rounding_brackets_the_value() {
    for text in ["0x1.4p1", "-0x1.4p1", "0x1.8p0", "-0x1p-3", "0x1p4"] {
        let x = BigFloat::from_hex_float(text, 32).unwrap();
        let f = x.to_bigint_floor();
        let c = x.to_bigint_ceil();
        let t = x.to_bigint_trunc();
        let r = x.to_bigint_round();
        let one = BigInt::one();
        assert!(BigInt::sub_ref(&c, &f) == BigInt::zero() || BigInt::sub_ref(&c, &f) == one);
        assert!(t == f || t == c, "{text}");
        assert!(r == f || r == c, "{text}");
    }
}

#[test]
fn engineering_notation_shape() {
    let values = [
        num(7, 32),
        num(-12_345, 32),
        num(999_999, 32),
        BigFloat::from_hex_float("0x1p-20", 32).unwrap(),
        BigFloat::from_hex_float("-0x1.5p100", 32).unwrap(),
    ];
    for x in values.iter() {
        for d in 1..8usize {
            let s = x.to_engineering_string(d);
            let (mant, exp) = s.split_once('e').unwrap();
            let exp: i64 = exp.parse().unwrap();
            assert_eq!(exp.rem_euclid(3), 0, "{s}");
            let mant = mant.trim_start_matches('-');
            let int_part = mant.split('.').next().unwrap();
            assert!((1..=3).contains(&int_part.len()), "{s}");
            assert!(!int_part.starts_with('0'), "{s}");
            let digits = mant.chars().filter(|c| c.is_ascii_digit()).count();
            assert_eq!(digits, d.max(int_part.len()), "{s}");
        }
    }
}

#[test]
fn addition_is_commutative() {
    let values = [
        num(3, 8),
        num(-3, 24),
        BigFloat::from_hex_float("0x1.fffp-30", 16).unwrap(),
        BigFloat::from_hex_float("-0x1.8p40", 12).unwrap(),
        BigFloat::zero(5),
        BigFloat::infinity(9),
        BigFloat::neg_infinity(9),
        BigFloat::nan(7),
    ];
    for a in values.iter() {
        for b in values.iter() {
            let ab = a + b;
            let ba = b + a;
            assert_eq!(ab.is_nan(), ba.is_nan());
            if !ab.is_nan() {
                assert_eq!(ab, ba);
                assert_eq!(ab.sign(), ba.sign());
            }
            assert_eq!(ab.precision(), ba.precision());
            assert_eq!(ab.exponent(), ba.exponent());
            assert_eq!(ab.mantissa(), ba.mantissa());
        }
    }
}
