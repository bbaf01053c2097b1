use oxinum::uint::BigUint;
use oxinum::bigint::BigInt;
use oxinum::error::OxiNumError;
use oxinum::float::{BigFloat, RoundingMode, Sign};

fn flt(n: i64, prec: u32) -> BigFloat {
    BigFloat::from_i64(n, prec, RoundingMode::HalfEven)
}

fn parse_msg(s: &str) -> String {
    match BigFloat::from_hex_float(s, 53) {
        Err(OxiNumError::Parse(m)) => m,
        other => panic!("expected a parse error for {s}, got {other:?}"),
    }
}

#[test]
fn scientific_doc_examples() {
    let x = flt(12345, 64);
    assert_eq!(x.to_scientific_string(5), "1.2345e4");
    assert_eq!(x.to_scientific_string(1), "1e4");
}

#[test]
fn engineering_doc_example() {
    let x = flt(12345, 64);
    assert_eq!(x.to_engineering_string(5), "12.345e3");
}

#[test]
fn scientific_rounds_ties_to_even() {
    assert_eq!(flt(125, 64).to_scientific_string(2), "1.2e2");
    assert_eq!(flt(135, 64).to_scientific_string(2), "1.4e2");
    assert_eq!(flt(126, 64).to_scientific_string(2), "1.3e2");
}

#[test]
fn scientific_carry_bumps_exponent() {
    assert_eq!(flt(999, 64).to_scientific_string(2), "1.0e3");
    assert_eq!(flt(9999, 64).to_scientific_string(1), "1e4");
}

#[test]
fn scientific_small_and_negative_values() {
    // -0.5 = -0x1p-1
    let half = BigFloat::from_hex_float("-0x1p-1", 53).unwrap();
    assert_eq!(half.to_scientific_string(3), "-5.00e-1");
    // 1/1024 = 0.0009765625
    let tiny = BigFloat::from_hex_float("0x1p-10", 53).unwrap();
    assert_eq!(tiny.to_scientific_string(4), "9.766e-4");
    assert_eq!(flt(-7, 10).to_scientific_string(0), "-7e0");
}

#[test]
fn scientific_zero_and_non_finite() {
    assert_eq!(BigFloat::zero(53).to_scientific_string(1), "0e0");
    assert_eq!(BigFloat::zero(53).to_scientific_string(3), "0.00e0");
    assert_eq!(BigFloat::zero(53).to_scientific_string(0), "0e0");
    assert_eq!(BigFloat::nan(53).to_scientific_string(3), "NaN");
    assert_eq!(BigFloat::infinity(53).to_scientific_string(3), "inf");
    assert_eq!(BigFloat::neg_infinity(53).to_scientific_string(3), "-inf");
    assert_eq!(BigFloat::neg_infinity(53).to_engineering_string(3), "-inf");
    assert_eq!(BigFloat::zero(53).to_engineering_string(2), "0.0e0");
}

#[test]
fn engineering_exponents_are_multiples_of_three() {
    assert_eq!(flt(12_345_678, 64).to_engineering_string(4), "12.35e6");
    assert_eq!(flt(1_234_567, 64).to_engineering_string(3), "1.23e6");
    assert_eq!(flt(123_456, 64).to_engineering_string(6), "123.456e3");
    // Fewer digits than the integer part needs: padded with zeros.
    assert_eq!(flt(123_456, 64).to_engineering_string(1), "100e3");
    let tiny = BigFloat::from_hex_float("0x1p-10", 53).unwrap();
    assert_eq!(tiny.to_engineering_string(4), "976.6e-6");
}

#[test]
fn hex_doc_examples() {
    assert_eq!(flt(12, 53).to_hex_string(), "0x1.8p3");
    let x = BigFloat::from_hex_float("0x1.8p3", 53).unwrap();
    assert_eq!(x, flt(12, 53));
}

#[test]
fn hex_rendering() {
    assert_eq!(BigFloat::zero(53).to_hex_string(), "0x0p0");
    assert_eq!(flt(1, 53).to_hex_string(), "0x1p0");
    assert_eq!(flt(-255, 53).to_hex_string(), "-0x1.fep7");
    assert_eq!(BigFloat::nan(8).to_hex_string(), "NaN");
    assert_eq!(BigFloat::infinity(8).to_hex_string(), "inf");
}

#[test]
fn hex_round_trip() {
    for n in [1i64, -3, 12, 255, -1_234_567, 987_654_321_012] {
        let x = flt(n, 64);
        let back = BigFloat::from_hex_float(&x.to_hex_string(), 64).unwrap();
        assert_eq!(back, x);
    }
}

#[test]
fn hex_parse_forms() {
    assert_eq!(BigFloat::from_hex_float("0X1P0", 53).unwrap(), flt(1, 53));
    assert_eq!(BigFloat::from_hex_float("+0x.8p1", 53).unwrap(), flt(1, 53));
    assert_eq!(BigFloat::from_hex_float("0x10p-4", 53).unwrap(), flt(1, 53));
    assert!(BigFloat::from_hex_float("0x0.0p5", 53).unwrap().is_zero());
    let y = BigFloat::from_hex_float("-0x1.4p+1", 53).unwrap();
    assert_eq!(y, flt(-5, 53).div_ref(&flt(2, 53)).unwrap());
}

#[test]
fn hex_parse_errors() {
    assert_eq!(parse_msg("1.8p3"), "hex float: missing '0x' prefix");
    assert_eq!(parse_msg(""), "hex float: missing '0x' prefix");
    assert_eq!(parse_msg("0xp3"), "hex float: no significand digits");
    assert_eq!(parse_msg("0x1.8"), "hex float: missing 'p' exponent marker");
    assert_eq!(parse_msg("0x1p"), "hex float: missing exponent digits");
    assert_eq!(parse_msg("0x1p-"), "hex float: missing exponent digits");
    assert_eq!(parse_msg("0x1p3z"), "hex float: trailing characters");
    assert_eq!(parse_msg("0x1p99999999999999999999"), "hex float: exponent out of range");
}

#[test]
fn binary_rendering() {
    assert_eq!(flt(5, 8).to_binary_string(), "0xb10100000p-5");
    assert_eq!(flt(-1, 4).to_binary_string(), "-0xb1000p-3");
    assert_eq!(BigFloat::zero(8).to_binary_string(), "0xb0p0");
    assert_eq!(BigFloat::nan(8).to_binary_string(), "NaN");
}

#[test]
fn integer_conversions_round_as_documented() {
    let x = BigFloat::from_hex_float("0x1.4p1", 53).unwrap(); // 2.5
    assert_eq!(x.to_bigint_trunc(), BigInt::from_i64(2));
    assert_eq!(x.to_bigint_floor(), BigInt::from_i64(2));
    assert_eq!(x.to_bigint_ceil(), BigInt::from_i64(3));
    assert_eq!(x.to_bigint_round(), BigInt::from_i64(3));
    let y = x.neg(); // -2.5
    assert_eq!(y.to_bigint_trunc(), BigInt::from_i64(-2));
    assert_eq!(y.to_bigint_floor(), BigInt::from_i64(-3));
    assert_eq!(y.to_bigint_ceil(), BigInt::from_i64(-2));
    assert_eq!(y.to_bigint_round(), BigInt::from_i64(-3));
    assert_eq!(BigFloat::nan(8).to_bigint_round(), BigInt::zero());
}

#[test]
fn division_operator_follows_ieee() {
    let one = flt(1, 53);
    let zero = BigFloat::zero(53);
    let q = &one / &zero;
    assert!(q.is_infinite());
    assert_eq!(q.sign(), Sign::Positive);
    let q = &one.neg() / &zero;
    assert!(q.is_infinite());
    assert_eq!(q.sign(), Sign::Negative);
    assert!((&zero / &zero).is_nan());
    assert_eq!(one.div_ref(&zero), Err(OxiNumError::DivByZero));
    let six = flt(6, 53);
    let three = flt(3, 53);
    assert_eq!(&six / &three, flt(2, 53));
    assert_eq!(&six + &three, flt(9, 53));
    assert_eq!(&six - &three, three);
}

#[test]
fn division_keeps_full_precision_whatever_the_dividend_precision() {
    let a = BigFloat::from_i64(1, 1, RoundingMode::HalfEven);
    let b = BigFloat::from_i64(3, 64, RoundingMode::HalfEven);
    let q = a.div_ref_with_mode(&b, RoundingMode::HalfEven).unwrap();
    assert_eq!(q.precision(), 64);
    assert_eq!(q.mantissa(), &BigUint::from_u64(12297829382473034411));
    assert_eq!(q.exponent(), -65);
    let q2 = b.div_ref_with_mode(&a, RoundingMode::HalfEven).unwrap();
    assert_eq!(q2, flt(3, 64));
}

#[test]
fn division_keeps_the_full_guard_width_when_the_dividend_is_wider() {
    // 263 (9 bits) / 191 (8 bits) = 1.3769...: the dividend shifted by
    // 9 + 8 bits gives a quotient that rounds to 353·2^-8 at 9 bits; a
    // shift narrowed by the width difference of the mantissas would round
    // it to 352·2^-8.
    let a = BigFloat::from_i64(263, 9, RoundingMode::HalfEven);
    let b = BigFloat::from_i64(191, 8, RoundingMode::HalfEven);
    let q = a.div_ref_with_mode(&b, RoundingMode::HalfEven).unwrap();
    assert_eq!(q.precision(), 9);
    assert_eq!(q.mantissa(), &BigUint::from_u64(353));
    assert_eq!(q.exponent(), -8);
}

#[test]
fn operator_forms() {
    let a = flt(7, 53);
    let b = flt(2, 53);
    assert_eq!(&a + b.clone(), flt(9, 53));
    assert_eq!(a.clone() + &b, flt(9, 53));
    assert_eq!(&a - b.clone(), flt(5, 53));
    assert_eq!(a.clone() - &b, flt(5, 53));
    assert_eq!(a.clone() / &b, BigFloat::from_hex_float("0x1.cp1", 53).unwrap());
    assert_eq!(&a / b.clone(), BigFloat::from_hex_float("0x1.cp1", 53).unwrap());
    assert_eq!(-&a, flt(-7, 53));
    assert_eq!(-a.clone(), flt(-7, 53));
    let mut c = a.clone();
    c.add_assign(&b);
    assert_eq!(c, flt(9, 53));
    c.sub_assign(&b);
    assert_eq!(c, a);
    c.div_assign(&b);
    assert_eq!(c, BigFloat::from_hex_float("0x1.cp1", 53).unwrap());
}

#[test]
fn remainder_truncates_toward_zero() {
    assert_eq!(&flt(7, 53) % &flt(3, 53), flt(1, 53));
    assert_eq!(&flt(-7, 53) % &flt(3, 53), flt(-1, 53));
    assert_eq!(&flt(7, 53) % &flt(-3, 53), flt(1, 53));
    let x = BigFloat::from_hex_float("0x1.ep2", 53).unwrap(); // 7.5
    assert_eq!(x.clone() % flt(2, 53), BigFloat::from_hex_float("0x1.8p0", 53).unwrap());
    assert_eq!(&x % BigFloat::infinity(53), x);
    assert!((BigFloat::infinity(53) % flt(2, 53)).is_nan());
    assert!((&x % &BigFloat::zero(53)).is_nan());
    assert!((&BigFloat::nan(53) % &x).is_nan());
    assert!((&BigFloat::zero(53) % &x).is_zero());
    let mut y = flt(10, 53);
    y.rem_assign(&flt(4, 53));
    assert_eq!(y, flt(2, 53));
}

#[test]
fn quotients_are_within_one_unit_in_every_mode() {
    // 2^65 / 3 = 12297829382473034410.67: each mode lands on one of the two
    // neighbouring 64-bit mantissas at exponent -65.
    let one = BigFloat::from_i64(1, 64, RoundingMode::HalfEven);
    let three = BigFloat::from_i64(3, 64, RoundingMode::HalfEven);
    for (mode, m) in [
        (RoundingMode::ToZero, 12297829382473034410u64),
        (RoundingMode::AwayFromZero, 12297829382473034411u64),
        (RoundingMode::HalfEven, 12297829382473034411u64),
        (RoundingMode::ToNegInf, 12297829382473034410u64),
        (RoundingMode::ToInf, 12297829382473034411u64),
    ] {
        let q = one.div_ref_with_mode(&three, mode).unwrap();
        assert_eq!(q.mantissa(), &BigUint::from_u64(m));
        assert_eq!(q.exponent(), -65);
        let err = (3 * m as u128).abs_diff(1u128 << 65);
        assert!(err < 3);
    }
}
