use oxinum::float::Sign;
use oxinum::uint::BigUint;
use oxinum::bigint::BigInt;
use oxinum::error::OxiNumError;
use oxinum::float::{BigFloat, RoundingMode};

fn from_f64(x: f64, prec: u32) -> Result<BigFloat, OxiNumError> {
    BigFloat::from_f64_bits(x.to_bits(), prec)
}

fn to_f64(x: &BigFloat) -> f64 {
    f64::from_bits(x.to_f64_bits())
}

#[test]
fn from_f64_doc_example() {
    let half = from_f64(0.5, 1).expect("0.5 fits in 1 bit");
    assert_eq!(to_f64(&half), 0.5);
}

#[test]
fn to_f64_doc_example() {
    let one = BigFloat::from_i64(1, 53, RoundingMode::HalfEven);
    assert_eq!(to_f64(&one), 1.0);
}

#[test]
fn bigint_conversion_doc_examples() {
    let x = from_f64(3.7, 64).expect("3.7");
    let y = from_f64(-3.7, 64).expect("-3.7");
    assert_eq!(x.to_bigint_trunc(), BigInt::from(3));
    assert_eq!(y.to_bigint_trunc(), BigInt::from(-3));
    assert_eq!(x.to_bigint_floor(), BigInt::from(3));
    assert_eq!(y.to_bigint_floor(), BigInt::from(-4));
    assert_eq!(x.to_bigint_ceil(), BigInt::from(4));
    assert_eq!(y.to_bigint_ceil(), BigInt::from(-3));
    assert_eq!(x.to_bigint_round(), BigInt::from(4));
    assert_eq!(y.to_bigint_round(), BigInt::from(-4));
}

#[test]
fn special_doubles_are_refused() {
    assert_eq!(
        from_f64(f64::NAN, 53),
        Err(OxiNumError::Parse("cannot encode NaN as BigFloat".to_string()))
    );
    assert_eq!(
        from_f64(f64::NEG_INFINITY, 53),
        Err(OxiNumError::Parse("cannot encode infinity as BigFloat".to_string()))
    );
    assert!(from_f64(-0.0, 53).unwrap().is_zero());
    assert!(from_f64(-0.0, 53).unwrap().is_sign_positive());
}

#[test]
fn doubles_round_trip_exactly() {
    for x in [
        1.0,
        -1.5,
        0.1,
        12.0,
        f64::MAX,
        f64::MIN_POSITIVE,
        5e-324,
        -2.5e-310,
        123456789.123456789,
    ] {
        let b = from_f64(x, 53).unwrap();
        assert_eq!(to_f64(&b).to_bits(), x.to_bits(), "{x}");
        let wide = from_f64(x, 200).unwrap();
        assert_eq!(to_f64(&wide).to_bits(), x.to_bits(), "{x}");
    }
}

#[test]
fn to_f64_rounds_to_nearest_even_and_saturates() {
    let tie_down = BigFloat::from_hex_float("0x1.00000000000008p0", 64).unwrap();
    assert_eq!(to_f64(&tie_down), 1.0);
    let tie_up = BigFloat::from_hex_float("0x1.00000000000018p0", 64).unwrap();
    assert_eq!(to_f64(&tie_up), 1.0 + 2.0 * f64::EPSILON);
    let huge = BigFloat::from_hex_float("0x1p1024", 53).unwrap();
    assert_eq!(to_f64(&huge), f64::INFINITY);
    let neg_huge = BigFloat::from_hex_float("-0x1p5000", 53).unwrap();
    assert_eq!(to_f64(&neg_huge), f64::NEG_INFINITY);
    let tiny = BigFloat::from_hex_float("-0x1p-1080", 53).unwrap();
    assert_eq!(to_f64(&tiny).to_bits(), (-0.0f64).to_bits());
    let sub = BigFloat::from_hex_float("0x1.8p-1070", 53).unwrap();
    assert_eq!(to_f64(&sub), 1.5 * 2f64.powi(-1070));
    assert!(to_f64(&BigFloat::nan(53)).is_nan());
    assert_eq!(to_f64(&BigFloat::infinity(53)), f64::INFINITY);
    assert_eq!(to_f64(&BigFloat::zero(53)), 0.0);
}

#[test]
fn narrow_decoding_rounds_half_to_even() {
    // 3.5 at two bits is a tie between 3 and 4: even gives 4.
    let x = from_f64(3.5, 2).unwrap();
    assert_eq!(to_f64(&x), 4.0);
    // 2.5 at two bits is a tie between 2 and 3: even gives 2.
    let y = from_f64(2.5, 2).unwrap();
    assert_eq!(to_f64(&y), 2.0);
}

#[test]
fn integer_encoding_doc_examples() {
    let a = BigFloat::from_i64(-42, 16, RoundingMode::HalfEven);
    assert_eq!(to_f64(&a), -42.0);
    let n = BigInt::from(-42i64);
    let f = BigFloat::from_bigint(&n, 64, RoundingMode::HalfEven);
    assert_eq!(to_f64(&f), -42.0);
    let u = BigUint::from_u64(1024);
    let g = BigFloat::from_biguint(&u, 64, RoundingMode::HalfEven);
    assert_eq!(to_f64(&g), 1024.0);
    assert_eq!(BigFloat::nan(53).to_bigint_trunc(), BigInt::zero());
    assert_eq!(BigFloat::infinity(53).to_bigint_trunc(), BigInt::zero());
}

#[test]
fn subnormal_rounding_carries_to_the_next_quantum() {
    // 1.75·2^-1074 rounds to 2^-1073 (pattern 2).
    let x = BigFloat::from_parts(Sign::Positive, BigUint::from_u64(7), -1076, 53, RoundingMode::HalfEven);
    assert_eq!(x.to_f64_bits(), 2);
    // 2^-1022 - 2^-1075 is a tie between the largest subnormal and 2^-1022:
    // it goes to the even 2^-1022.
    let y = BigFloat::from_parts(
        Sign::Positive,
        BigUint::from_u64((1u64 << 53) - 1),
        -1075,
        53,
        RoundingMode::HalfEven,
    );
    assert_eq!(to_f64(&y), f64::MIN_POSITIVE);
    // 0.75·2^-1074 rounds to the smallest subnormal; 0.5·2^-1074 ties to 0.
    let z = BigFloat::from_parts(Sign::Positive, BigUint::from_u64(3), -1076, 53, RoundingMode::HalfEven);
    assert_eq!(z.to_f64_bits(), 1);
    let h = BigFloat::from_parts(Sign::Negative, BigUint::from_u64(1), -1075, 53, RoundingMode::HalfEven);
    assert_eq!(h.to_f64_bits(), (-0.0f64).to_bits());
    let w = BigFloat::from_parts(Sign::Negative, BigUint::from_u64(5), -1077, 53, RoundingMode::HalfEven);
    assert_eq!(to_f64(&w), -f64::from_bits(1));
    // Just below 2^1024 by less than half a unit: rounds up to infinity.
    let big = BigFloat::from_hex_float("0x1.fffffffffffff8p1023", 64).unwrap();
    assert_eq!(to_f64(&big), f64::INFINITY);
    let max = BigFloat::from_hex_float("0x1.fffffffffffff7p1023", 64).unwrap();
    assert_eq!(to_f64(&max), f64::MAX);
}

#[test]
fn to_f64_classes_and_negation() {
    assert!(to_f64(&BigFloat::nan(53)).is_nan());
    assert_eq!(to_f64(&BigFloat::infinity(53)), f64::INFINITY);
    assert_eq!(to_f64(&BigFloat::neg_infinity(53)), f64::NEG_INFINITY);
    let zero = to_f64(&BigFloat::zero(53));
    assert_eq!(zero, 0.0);
    assert!(zero.is_sign_positive());
    // Top bit at 2^1024: overflow to infinity, keeping the sign.
    let huge = BigFloat::from_parts(Sign::Negative, BigUint::from_u64(1), 1024, 53, RoundingMode::HalfEven);
    assert_eq!(to_f64(&huge), f64::NEG_INFINITY);
    // 2^-1076 and 2^-1075 are at most half the smallest subnormal: signed zero.
    let tiny = BigFloat::from_parts(Sign::Negative, BigUint::from_u64(1), -1076, 53, RoundingMode::HalfEven);
    assert_eq!(tiny.to_f64_bits(), (-0.0f64).to_bits());
    let half = BigFloat::from_parts(Sign::Positive, BigUint::from_u64(1), -1075, 53, RoundingMode::HalfEven);
    assert_eq!(half.to_f64_bits(), 0);
    // Negation flips the sign bit only.
    for x in [
        BigFloat::from_i64(3, 53, RoundingMode::HalfEven),
        BigFloat::from_parts(Sign::Positive, BigUint::from_u64(7), -1076, 53, RoundingMode::HalfEven),
        BigFloat::infinity(53),
        huge.clone(),
    ] {
        assert_eq!(to_f64(&x.neg()), -to_f64(&x));
    }
    assert_eq!(BigFloat::zero(53).neg().to_f64_bits(), 0);
}
