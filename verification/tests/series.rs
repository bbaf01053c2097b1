use oxinum::bigint::BigInt;
use oxinum::float::series::{split_arg, CosSeries, ExpSeries, SinSeries};
use oxinum::float::{BigFloat, RoundingMode};

fn bi(n: i64) -> BigInt {
    BigInt::from(n)
}

#[test]
fn exp_series_term_zero() {
    let s = ExpSeries { p: bi(1), q: bi(2) };
    let (p, q, b, a) = s.term(0);
    assert_eq!(p, BigInt::one());
    assert_eq!(q, BigInt::one());
    assert_eq!(b, BigInt::one());
    assert_eq!(a, BigInt::one());
}

#[test]
fn exp_series_term_three() {
    // ExpSeries { p=1, q=2 }.term(3) = (1, 2*3=6, 1, 1)
    let s = ExpSeries { p: bi(1), q: bi(2) };
    let (p, q, b, a) = s.term(3);
    assert_eq!(p, bi(1));
    assert_eq!(q, bi(6));
    assert_eq!(b, BigInt::one());
    assert_eq!(a, BigInt::one());
}

#[test]
fn sin_series_term_zero() {
    // SinSeries { p=1, q=1 }.term(0) = (1, 1, 1, 1)
    let s = SinSeries {
        p: bi(1),
        q: bi(1),
        p2: bi(1),
        q2: bi(1),
    };
    let (p, q, b, a) = s.term(0);
    assert_eq!(p, bi(1));
    assert_eq!(q, bi(1));
    assert_eq!(b, BigInt::one());
    assert_eq!(a, BigInt::one());
}

#[test]
fn sin_series_term_two() {
    // SinSeries { p=1, q=1, p2=1, q2=1 }.term(2): (-1, 1*4*5 = 20, 1, 1)
    let s = SinSeries {
        p: bi(1),
        q: bi(1),
        p2: bi(1),
        q2: bi(1),
    };
    let (p, q, b, a) = s.term(2);
    assert_eq!(p, bi(-1));
    assert_eq!(q, bi(20));
    assert_eq!(b, BigInt::one());
    assert_eq!(a, BigInt::one());
}

#[test]
fn cos_series_term_one() {
    // CosSeries { p2=1, q2=1 }.term(1): (-1, 1*1*2 = 2, 1, 1)
    let s = CosSeries {
        p2: bi(1),
        q2: bi(1),
    };
    let (p, q, b, a) = s.term(1);
    assert_eq!(p, bi(-1));
    assert_eq!(q, bi(2));
    assert_eq!(b, BigInt::one());
    assert_eq!(a, BigInt::one());
}

#[test]
fn series_terms_with_larger_arguments() {
    let s = SinSeries {
        p: bi(3),
        q: bi(4),
        p2: bi(9),
        q2: bi(16),
    };
    let (p, q, _, _) = s.term(1);
    assert_eq!(p, bi(-9));
    assert_eq!(q, bi(16 * 2 * 3));
    let c = CosSeries {
        p2: bi(9),
        q2: bi(16),
    };
    let (p, q, _, _) = c.term(3);
    assert_eq!(p, bi(-9));
    assert_eq!(q, bi(16 * 5 * 6));
    let e = ExpSeries { p: bi(-3), q: bi(4) };
    let (p, q, _, _) = e.term(5);
    assert_eq!(p, bi(-3));
    assert_eq!(q, bi(20));
}

#[test]
fn split_arg_is_exact() {
    // 3/4 = 0x1.8p-1
    let y = BigFloat::from_hex_float("0x1.8p-1", 8).unwrap();
    let (p, q) = split_arg(&y);
    // mantissa 0b11000000 at 8 bits, exponent -8: p = 192, q = 256.
    assert_eq!(p, bi(192));
    assert_eq!(q, bi(256));
    let z = BigFloat::from_i64(-12, 4, RoundingMode::HalfEven);
    let (p, q) = split_arg(&z);
    assert_eq!(p, bi(-12));
    assert_eq!(q, bi(1));
}
