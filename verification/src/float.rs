//! Native `BigFloat` — binary-base arbitrary-precision floating-point
//! number built as `(sign, mantissa, exponent, precision)`.
//!
//! The value of a finite `BigFloat` is `(-1)^sign * mantissa * 2^exponent`.
//!
//! Invariants (a type invariant, so every value has them):
//!
//! 1. `precision > 0`.
//! 2. If the mantissa is zero the value is the canonical zero
//!    `{ Positive, 0, 0 }` (or a non-finite value, see below).
//! 3. A non-zero finite mantissa is normalized: its bit length is exactly
//!    `precision`.
//! 4. NaN and the infinities carry a zero mantissa and zero exponent; NaN's
//!    sign is always `Positive`.
//!
//! Two finite values are equal iff their `(sign, mantissa, exponent)`
//! triples match; precision is a representation knob, not part of the value.

use vstd::prelude::*;
use vstd::arithmetic::power2::{pow2, lemma_pow2_pos, lemma2_to64};

use crate::uint::BigUint;

use crate::bits_spec::{nat_bit, nat_bit_length, nat_trailing_zeros, lemma_bit_length_bound};

pub mod spec;
pub mod cmp;
pub mod add;
pub mod div;
pub mod convert;
pub mod decimal;
pub mod format;
pub mod hex;
pub mod hex_proofs;
mod ops;
pub mod series;
pub mod ieee;
pub mod rem;

use self::spec::{
    sat, round_up, strip_m, strip_e, pad_m, pad_e, drop_m, drop_e, round_m, round_e,
    lemma_bl_mul_pow2, lemma_bl_div_pow2, lemma_strip, lemma_increment_bits, lemma_pow2_half_bits,
    lemma_round_m_bits, parts_m, parts_e,
};

verus! {

/// Sign of a value.
#[derive(Debug, Clone, Copy, PartialEq, Eq, Hash, Structural)]
pub enum Sign {
    Positive,
    Negative,
}

/// Classification of a `BigFloat` value: finite, infinite, or NaN.
#[derive(Debug, Clone, Copy, PartialEq, Eq, Hash, Structural, Default)]
pub enum FloatClass {
    #[default]
    Finite,
    Infinite,
    Nan,
}

/// The IEEE 754 category of a value (`Subnormal` never occurs).
#[derive(Debug, Clone, Copy, PartialEq, Eq, Hash, Structural)]
pub enum FpCategory {
    Nan,
    Infinite,
    Zero,
    Subnormal,
    Normal,
}

/// Rounding modes for `BigFloat` arithmetic.
#[derive(Debug, Clone, Copy, PartialEq, Eq, Hash, Structural)]
pub enum RoundingMode {
    /// Round half to even (banker's rounding).
    HalfEven,
    /// Round half away from zero.
    HalfAway,
    /// Round half toward zero (truncate ties).
    HalfToZero,
    /// Truncate toward zero (drop fractional bits).
    ToZero,
    /// Round toward `+∞`.
    ToInf,
    /// Round toward `-∞`.
    ToNegInf,
    /// Round away from zero (round up in magnitude).
    AwayFromZero,
}

/// A mantissa whose bit count an `i64` exponent can absorb (every mantissa
/// that fits in memory).
pub open spec fn mant_fits(m: nat) -> bool {
    nat_bit_length(m) <= i64::MAX
}

/// The sum clamped to the `i64` range (saturating addition).
pub(crate) fn sat_add(a: i64, b: i64) -> (r: i64)
    ensures
        r == sat(a + b),
{
    let s = a as i128 + b as i128;
    if s > i64::MAX as i128 {
        i64::MAX
    } else if s < i64::MIN as i128 {
        i64::MIN
    } else {
        s as i64
    }
}

/// The difference clamped to the `i64` range (saturating subtraction).
pub(crate) fn sat_sub(a: i64, b: i64) -> (r: i64)
    ensures
        r == sat(a - b),
{
    let s = a as i128 - b as i128;
    if s > i64::MAX as i128 {
        i64::MAX
    } else if s < i64::MIN as i128 {
        i64::MIN
    } else {
        s as i64
    }
}

/// Native arbitrary-precision binary float.
#[derive(Debug)]
pub struct BigFloat {
    pub(crate) class: FloatClass,
    pub(crate) sign: Sign,
    pub(crate) mantissa: BigUint,
    pub(crate) exponent: i64,
    pub(crate) precision: u32,
}

impl BigFloat {
    /// The type invariant: every `BigFloat` is [`BigFloat::valid`].
    #[verifier::type_invariant]
    pub open spec fn inv(&self) -> bool {
        self.valid()
    }

    /// The class of the value.
    pub closed spec fn cls(&self) -> FloatClass {
        self.class
    }

    /// The sign field.
    pub closed spec fn sgn(&self) -> Sign {
        self.sign
    }

    /// The mantissa's value.
    pub closed spec fn mant(&self) -> nat {
        self.mantissa@
    }

    /// The binary exponent.
    pub closed spec fn exp(&self) -> int {
        self.exponent as int
    }

    /// The precision in bits.
    pub closed spec fn prec(&self) -> nat {
        self.precision as nat
    }

    /// The spec accessors read the fields.
    pub(crate) proof fn lemma_fields(&self)
        ensures
            self.cls() == self.class,
            self.sgn() == self.sign,
            self.mant() == self.mantissa@,
            self.exp() == self.exponent as int,
            self.prec() == self.precision as nat,
    {
    }

    /// The invariant every `BigFloat` keeps, over its spec accessors:
    /// positive precision, canonical zero, NaN and infinities without a
    /// mantissa, NaN positive, and a non-zero finite mantissa of exactly
    /// `precision` bits.
    pub open spec fn valid(&self) -> bool {
        &&& self.prec() > 0
        &&& (self.mant() == 0 ==> self.sgn() == Sign::Positive || self.cls() == FloatClass::Infinite)
        &&& (self.mant() == 0 ==> self.exp() == 0)
        &&& (self.cls() != FloatClass::Finite ==> self.mant() == 0)
        &&& (self.cls() == FloatClass::Nan ==> self.sgn() == Sign::Positive)
        &&& (self.cls() == FloatClass::Finite && self.mant() != 0 ==> nat_bit_length(self.mant())
            == self.prec())
    }

    /// Whether this is the canonical zero.
    pub open spec fn is_zero_spec(&self) -> bool {
        self.cls() == FloatClass::Finite && self.mant() == 0
    }
}

impl Clone for BigFloat {
    fn clone(&self) -> (r: BigFloat)
        ensures
            r.cls() == self.cls(),
            r.sgn() == self.sgn(),
            r.mant() == self.mant(),
            r.exp() == self.exp(),
            r.prec() == self.prec(),
    {
        proof {
            use_type_invariant(self);
        }
        BigFloat {
            class: self.class,
            sign: self.sign,
            mantissa: self.mantissa.clone(),
            exponent: self.exponent,
            precision: self.precision,
        }
    }
}

impl BigFloat {
    /// Canonical zero at `prec` bits of precision.
    pub fn zero(prec: u32) -> (r: BigFloat)
        requires
            prec > 0,
        ensures
            r.cls() == FloatClass::Finite,
            r.sgn() == Sign::Positive,
            r.mant() == 0,
            r.exp() == 0,
            r.prec() == prec,
    {
        BigFloat {
            class: FloatClass::Finite,
            sign: Sign::Positive,
            mantissa: BigUint::zero(),
            exponent: 0,
            precision: prec,
        }
    }

    /// The canonical NaN at `prec` bits. NaN's sign is always `Positive`.
    pub fn nan(prec: u32) -> (r: BigFloat)
        requires
            prec > 0,
        ensures
            r.cls() == FloatClass::Nan,
            r.sgn() == Sign::Positive,
            r.mant() == 0,
            r.exp() == 0,
            r.prec() == prec,
    {
        BigFloat {
            class: FloatClass::Nan,
            sign: Sign::Positive,
            mantissa: BigUint::zero(),
            exponent: 0,
            precision: prec,
        }
    }

    /// Positive infinity (`+∞`) at `prec` bits.
    pub fn infinity(prec: u32) -> (r: BigFloat)
        requires
            prec > 0,
        ensures
            r.cls() == FloatClass::Infinite,
            r.sgn() == Sign::Positive,
            r.mant() == 0,
            r.exp() == 0,
            r.prec() == prec,
    {
        BigFloat {
            class: FloatClass::Infinite,
            sign: Sign::Positive,
            mantissa: BigUint::zero(),
            exponent: 0,
            precision: prec,
        }
    }

    /// Negative infinity (`−∞`) at `prec` bits.
    pub fn neg_infinity(prec: u32) -> (r: BigFloat)
        requires
            prec > 0,
        ensures
            r.cls() == FloatClass::Infinite,
            r.sgn() == Sign::Negative,
            r.mant() == 0,
            r.exp() == 0,
            r.prec() == prec,
    {
        BigFloat {
            class: FloatClass::Infinite,
            sign: Sign::Negative,
            mantissa: BigUint::zero(),
            exponent: 0,
            precision: prec,
        }
    }

    /// Construct from parts: the trailing zero bits of the mantissa move into
    /// the exponent, the mantissa is padded to `prec` bits when narrower and
    /// rounded to `prec` bits with `mode` when wider.
    pub fn from_parts(sign: Sign, mantissa: BigUint, exponent: i64, prec: u32, mode: RoundingMode) -> (r: BigFloat)
        requires
            prec > 0,
            mant_fits(mantissa@),
        ensures
            r.cls() == FloatClass::Finite,
            r.prec() == prec,
            r.mant() == parts_m(mantissa@, exponent as int, prec as nat, mode, sign == Sign::Negative),
            r.exp() == parts_e(mantissa@, exponent as int, prec as nat, mode, sign == Sign::Negative),
            r.sgn() == (if mantissa@ == 0 { Sign::Positive } else { sign }),
    {
        if mantissa.is_zero() {
            return Self::zero(prec);
        }
        let negative = match sign {
            Sign::Negative => true,
            Sign::Positive => false,
        };
        // Canonicalize: strip trailing zeros, pad to `prec` bits.
        let (m1, e1) = absorb_trailing_zeros(&mantissa, exponent);
        proof {
            lemma_strip(mantissa@);
        }
        let (m2, e2) = pad_parts(m1, e1, prec);
        proof {
            lemma_strip(mantissa@);
            let b = nat_bit_length(strip_m(mantissa@));
            if b < prec {
                lemma_bl_mul_pow2(strip_m(mantissa@), (prec - b) as nat);
            }
            assert(nat_bit_length(m2@) <= i64::MAX);
        }
        let (m3, e3) = round_to_precision_parts(&m2, e2, negative, prec, mode);
        proof {
            lemma_round_m_bits(m2@, e2 as int, prec as nat, mode, negative);
            lemma_strip(mantissa@);
            let b = nat_bit_length(strip_m(mantissa@));
            if b < prec {
                lemma_pow2_pos((prec - b) as nat);
                assert(m2@ > 0) by (nonlinear_arith)
                    requires
                        m2@ == strip_m(mantissa@) * pow2((prec - b) as nat),
                        strip_m(mantissa@) > 0,
                        pow2((prec - b) as nat) > 0,
                ;
            }
        }
        BigFloat { class: FloatClass::Finite, sign, mantissa: m3, exponent: e3, precision: prec }
    }

    /// Returns the precision in bits.
    pub fn precision(&self) -> (r: u32)
        ensures
            r == self.prec(),
    {
        self.precision
    }

    /// Returns the sign (always `Positive` for the canonical zero).
    pub fn sign(&self) -> (r: Sign)
        ensures
            r == self.sgn(),
    {
        self.sign
    }

    /// Returns a reference to the mantissa.
    pub fn mantissa(&self) -> (r: &BigUint)
        ensures
            r@ == self.mant(),
    {
        &self.mantissa
    }

    /// Returns the binary exponent.
    pub fn exponent(&self) -> (r: i64)
        ensures
            r == self.exp(),
    {
        self.exponent
    }

    /// Returns `true` if this value is the canonical zero.
    pub fn is_zero(&self) -> (r: bool)
        ensures
            r == self.is_zero_spec(),
    {
        matches!(self.class, FloatClass::Finite) && self.mantissa.is_zero()
    }

    /// Returns `true` if this value is finite (not NaN or Inf).
    pub fn is_finite(&self) -> (r: bool)
        ensures
            r == (self.cls() == FloatClass::Finite),
    {
        matches!(self.class, FloatClass::Finite)
    }

    /// Returns `true` if this value is infinite (`+∞` or `−∞`).
    pub fn is_infinite(&self) -> (r: bool)
        ensures
            r == (self.cls() == FloatClass::Infinite),
    {
        matches!(self.class, FloatClass::Infinite)
    }

    /// Returns `true` if this value is NaN.
    pub fn is_nan(&self) -> (r: bool)
        ensures
            r == (self.cls() == FloatClass::Nan),
    {
        matches!(self.class, FloatClass::Nan)
    }

    /// Returns `true` for finite non-zero values (there are no subnormals).
    pub fn is_normal(&self) -> (r: bool)
        ensures
            r == (self.cls() == FloatClass::Finite && self.mant() != 0),
    {
        matches!(self.class, FloatClass::Finite) && !self.mantissa.is_zero()
    }

    /// Returns the IEEE 754 category; `Subnormal` is never returned.
    pub fn classify(&self) -> (r: FpCategory)
        ensures
            r == (match self.cls() {
                FloatClass::Nan => FpCategory::Nan,
                FloatClass::Infinite => FpCategory::Infinite,
                FloatClass::Finite => if self.mant() == 0 {
                    FpCategory::Zero
                } else {
                    FpCategory::Normal
                },
            }),
    {
        match self.class {
            FloatClass::Nan => FpCategory::Nan,
            FloatClass::Infinite => FpCategory::Infinite,
            FloatClass::Finite => if self.mantissa.is_zero() {
                FpCategory::Zero
            } else {
                FpCategory::Normal
            },
        }
    }

    /// `true` for positive values and NaN (NaN has the canonical positive sign,
    /// and the single zero is positive).
    pub fn is_sign_positive(&self) -> (r: bool)
        ensures
            r == (self.sgn() == Sign::Positive),
    {
        self.sign == Sign::Positive
    }

    /// `true` only for negative-sign values (there is no negative zero).
    pub fn is_sign_negative(&self) -> (r: bool)
        ensures
            r == (self.sgn() == Sign::Negative),
    {
        self.sign == Sign::Negative
    }

    /// `-1`, `0`, or `+1` by the sign of the value.
    pub fn signum(&self) -> (r: i32)
        ensures
            r == (if self.is_zero_spec() {
                0
            } else if self.sgn() == Sign::Negative {
                -1
            } else {
                1
            }),
    {
        if self.is_zero() {
            0
        } else if self.sign == Sign::Negative {
            -1
        } else {
            1
        }
    }

    /// The absolute value (sign forced to `Positive`).
    pub fn abs(&self) -> (r: BigFloat)
        ensures
            r.cls() == self.cls(),
            r.sgn() == Sign::Positive,
            r.mant() == self.mant(),
            r.exp() == self.exp(),
            r.prec() == self.prec(),
    {
        proof {
            use_type_invariant(self);
        }
        BigFloat {
            class: self.class,
            sign: Sign::Positive,
            mantissa: self.mantissa.clone(),
            exponent: self.exponent,
            precision: self.precision,
        }
    }

    /// The additive inverse. Negating the canonical zero or NaN returns it
    /// unchanged.
    pub fn neg(&self) -> (r: BigFloat)
        ensures
            r.cls() == self.cls(),
            r.mant() == self.mant(),
            r.exp() == self.exp(),
            r.prec() == self.prec(),
            r.sgn() == (if self.cls() == FloatClass::Nan || self.is_zero_spec() {
                self.sgn()
            } else {
                flip(self.sgn())
            }),
    {
        proof {
            use_type_invariant(self);
        }
        if self.is_nan() {
            return self.clone();
        }
        if self.is_zero() {
            return self.clone();
        }
        let sign = match self.sign {
            Sign::Positive => Sign::Negative,
            Sign::Negative => Sign::Positive,
        };
        BigFloat {
            class: self.class,
            sign,
            mantissa: self.mantissa.clone(),
            exponent: self.exponent,
            precision: self.precision,
        }
    }

    /// Change the precision, rounding the mantissa with `mode` if narrowing.
    pub fn with_precision(self, prec: u32, mode: RoundingMode) -> (r: BigFloat)
        requires
            prec > 0,
        ensures
            r.cls() == self.cls(),
            r.sgn() == self.sgn(),
            r.prec() == prec,
            r.mant() == round_m(self.mant(), self.exp(), prec as nat, mode, self.sgn() == Sign::Negative),
            r.exp() == round_e(self.mant(), self.exp(), prec as nat, mode, self.sgn() == Sign::Negative),
    {
        self.round_to_precision(prec, mode)
    }

    /// Round the mantissa so that it has exactly `prec` significant bits:
    /// narrower mantissas are left-padded (value unchanged), wider ones lose
    /// their low bits by `mode`.
    pub fn round_to_precision(self, prec: u32, mode: RoundingMode) -> (r: BigFloat)
        requires
            prec > 0,
        ensures
            r.cls() == self.cls(),
            r.sgn() == self.sgn(),
            r.prec() == prec,
            r.mant() == round_m(self.mant(), self.exp(), prec as nat, mode, self.sgn() == Sign::Negative),
            r.exp() == round_e(self.mant(), self.exp(), prec as nat, mode, self.sgn() == Sign::Negative),
    {
        proof {
            use_type_invariant(&self);
        }
        let negative = match self.sign {
            Sign::Negative => true,
            Sign::Positive => false,
        };
        if !self.is_finite() || self.mantissa.is_zero() {
            return BigFloat {
                class: self.class,
                sign: self.sign,
                mantissa: self.mantissa,
                exponent: self.exponent,
                precision: prec,
            };
        }
        let (m, e) = round_to_precision_parts(&self.mantissa, self.exponent, negative, prec, mode);
        proof {
            lemma_round_m_bits(self.mantissa@, self.exponent as int, prec as nat, mode, negative);
        }
        BigFloat { class: self.class, sign: self.sign, mantissa: m, exponent: e, precision: prec }
    }
}

/// The opposite sign.
pub open spec fn flip(s: Sign) -> Sign {
    match s {
        Sign::Positive => Sign::Negative,
        Sign::Negative => Sign::Positive,
    }
}

/// Strip the trailing zero bits of `m` into the exponent.
fn absorb_trailing_zeros(m: &BigUint, e: i64) -> (r: (BigUint, i64))
    requires
        m@ > 0,
        mant_fits(m@),
    ensures
        r.0@ == strip_m(m@),
        r.1 == strip_e(m@, e as int),
{
    proof {
        lemma_strip(m@);
    }
    let tz = m.trailing_zeros();
    if tz > 0 {
        (m.shr_bits(tz), sat_add(e, tz as i64))
    } else {
        proof {
            lemma2_to64();
            assert(m@ / 1 == m@);
        }
        (m.clone(), e)
    }
}

/// Left-pad `(m, e)` to `prec` bits when `m` is narrower.
fn pad_parts(m: BigUint, e: i64, prec: u32) -> (r: (BigUint, i64))
    requires
        m@ > 0,
        mant_fits(m@),
    ensures
        r.0@ == pad_m(m@, prec as nat),
        r.1 == pad_e(m@, e as int, prec as nat),
{
    let cur_bits = m.bit_length();
    let target = prec as u64;
    if cur_bits < target {
        let shift = target - cur_bits;
        let padded = m.shl_bits(shift);
        (padded, sat_sub(e, shift as i64))
    } else {
        (m, e)
    }
}

/// Drop the `drop` low bits of the `prec`-plus-`drop`-bit mantissa `m`,
/// rounding by `mode`, and re-normalize to `prec` bits.
fn round_drop_low_bits(m: &BigUint, e: i64, negative: bool, drop: u64, prec: u32, mode: RoundingMode) -> (r: (
    BigUint,
    i64,
))
    requires
        drop > 0,
        prec > 0,
        nat_bit_length(m@) == prec + drop,
        mant_fits(m@),
    ensures
        r.0@ == drop_m(m@, drop as nat, prec as nat, mode, negative),
        r.1 == drop_e(m@, e as int, drop as nat, prec as nat, mode, negative),
{
    proof {
        lemma_bl_div_pow2(m@, drop as nat);
        lemma_pow2_pos(drop as nat);
        lemma_pow2_pos((drop - 1) as nat);
    }
    // Split mantissa = quotient * 2^drop + remainder; round bit = bit
    // (drop - 1), sticky = any lower bit.
    let round_bit = m.test_bit(drop - 1);
    let sticky = if drop >= 2 {
        m.trailing_zeros() < drop - 1
    } else {
        false
    };
    let mut quotient = m.shr_bits(drop);
    proof {
        lemma_round_bits(m@, drop as nat);
    }
    let increment = match mode {
        RoundingMode::ToZero => false,
        RoundingMode::AwayFromZero => round_bit || sticky,
        RoundingMode::ToInf => !negative && (round_bit || sticky),
        RoundingMode::ToNegInf => negative && (round_bit || sticky),
        RoundingMode::HalfAway => round_bit,
        RoundingMode::HalfToZero => round_bit && sticky,
        RoundingMode::HalfEven => {
            if !round_bit {
                false
            } else if sticky {
                true
            } else {
                // Exact half — round to even (LSB of quotient = 0).
                quotient.test_bit(0)
            }
        },
    };
    proof {
        lemma2_to64();
        assert(quotient@ / 1 == quotient@);
        assert(quotient@ == m@ / pow2(drop as nat));
        assert(nat_bit(quotient@, 0) == (quotient@ % 2 == 1));
        assert(sticky == (drop >= 2 && m@ > 0 && nat_trailing_zeros(m@) < drop - 1));
        assert(increment == round_up(
            mode,
            negative,
            m@ / pow2(drop as nat),
            m@ % pow2(drop as nat),
            pow2(drop as nat),
        ));
    }
    if increment {
        let one = BigUint::one();
        quotient = BigUint::add_ref(&quotient, &one);
    }
    let exponent = sat_add(e, drop as i64);
    let ghost q0 = m@ / pow2(drop as nat);
    if quotient.is_zero() {
        return (quotient, 0);
    }
    proof {
        if increment {
            lemma_increment_bits(q0, prec as nat);
            if nat_bit_length(quotient@) == prec + 1 {
                lemma_pow2_half_bits(prec as nat);
            }
        }
        lemma_bit_length_bound(quotient@);
    }
    let cur_bits = quotient.bit_length();
    let target = prec as u64;
    if cur_bits > target {
        // Carry overflowed by exactly one bit.
        let extra = cur_bits - target;
        (quotient.shr_bits(extra), sat_add(exponent, extra as i64))
    } else if cur_bits < target {
        let shift = target - cur_bits;
        (quotient.shl_bits(shift), sat_sub(exponent, shift as i64))
    } else {
        (quotient, exponent)
    }
}

/// Round bit and sticky bit of `m` below bit `drop` in terms of the
/// remainder `m % 2^drop`.
proof fn lemma_round_bits(m: nat, drop: nat)
    requires
        drop > 0,
    ensures
        nat_bit(m, (drop - 1) as nat) == (2 * (m % pow2(drop)) >= pow2(drop)),
        (nat_bit(m, (drop - 1) as nat) || (drop >= 2 && m > 0 && nat_trailing_zeros(m) < drop
            - 1)) == (m % pow2(drop) > 0),
        (nat_bit(m, (drop - 1) as nat) && (drop >= 2 && m > 0 && nat_trailing_zeros(m) < drop
            - 1)) == (2 * (m % pow2(drop)) > pow2(drop)),
{
    lemma_round_bits_impl(m, drop);
}

/// A positive multiple of `2^k` has at least `k` trailing zeros.
proof fn lemma_tz_ge(m: nat, k: nat)
    requires
        m > 0,
        m % pow2(k) == 0,
    ensures
        nat_trailing_zeros(m) >= k,
    decreases k,
{
    if k > 0 {
        vstd::arithmetic::power2::lemma_pow2_unfold(k);
        lemma_pow2_pos((k - 1) as nat);
        let p = pow2((k - 1) as nat);
        vstd::arithmetic::div_mod::lemma_fundamental_div_mod(m as int, (2 * p) as int);
        let q = m / (2 * p);
        assert(m == 2 * (p * q)) by (nonlinear_arith)
            requires
                m == (2 * p) * q + m % (2 * p),
                m % (2 * p) == 0,
        ;
        crate::limbs::lemma_div_add_multiple(0, 2, p * q);
        crate::limbs::lemma_div_add_multiple(0, p, q);
        if m / 2 == 0 {
            assert(m == 0);
        }
        lemma_tz_ge(m / 2, (k - 1) as nat);
    }
}

/// A positive number with at least `k` trailing zeros is a multiple of `2^k`.
proof fn lemma_tz_le(m: nat, k: nat)
    requires
        m > 0,
        nat_trailing_zeros(m) >= k,
    ensures
        m % pow2(k) == 0,
{
    lemma_strip(m);
    let t = nat_trailing_zeros(m);
    vstd::arithmetic::power2::lemma_pow2_adds(k, (t - k) as nat);
    lemma_pow2_pos(k);
    let c = strip_m(m) * pow2((t - k) as nat);
    assert(m == 0 + pow2(k) * c) by (nonlinear_arith)
        requires
            m == strip_m(m) * pow2(t),
            pow2(t) == pow2(k) * pow2((t - k) as nat),
            c == strip_m(m) * pow2((t - k) as nat),
    ;
    crate::limbs::lemma_div_add_multiple(0, pow2(k), c);
}

proof fn lemma_round_bits_impl(m: nat, drop: nat)
    requires
        drop > 0,
    ensures
        nat_bit(m, (drop - 1) as nat) == (2 * (m % pow2(drop)) >= pow2(drop)),
        (nat_bit(m, (drop - 1) as nat) || (drop >= 2 && m > 0 && nat_trailing_zeros(m) < drop
            - 1)) == (m % pow2(drop) > 0),
        (nat_bit(m, (drop - 1) as nat) && (drop >= 2 && m > 0 && nat_trailing_zeros(m) < drop
            - 1)) == (2 * (m % pow2(drop)) > pow2(drop)),
{
    let k = (drop - 1) as nat;
    vstd::arithmetic::power2::lemma_pow2_unfold(drop);
    lemma_pow2_pos(k);
    let p = pow2(k);
    let big = pow2(drop);
    vstd::arithmetic::div_mod::lemma_fundamental_div_mod(m as int, big as int);
    vstd::arithmetic::div_mod::lemma_mod_bound(m as int, big as int);
    let q = m / big;
    let r = m % big;
    assert(m == r + p * (2 * q)) by (nonlinear_arith)
        requires
            m == big * q + r,
            big == 2 * p,
    ;
    crate::limbs::lemma_div_add_multiple(r, p, 2 * q);
    crate::limbs::lemma_div_add_multiple(r / p, 2, q);
    vstd::arithmetic::div_mod::lemma_fundamental_div_mod(r as int, p as int);
    vstd::arithmetic::div_mod::lemma_mod_bound(r as int, p as int);
    assert(r / p < 2) by (nonlinear_arith)
        requires
            r == p * (r / p) + r % p,
            r < 2 * p,
            r % p >= 0,
            p > 0,
    ;
    let a = r / p;
    let b = r % p;
    assert(r == p * a + b);
    assert(b < p);
    if a == 1 {
        assert(2 * r >= big && b == r - p) by (nonlinear_arith)
            requires
                r == p * a + b,
                a == 1,
                big == 2 * p,
        ;
    } else {
        assert(a == 0);
        assert(2 * r < big && b == r) by (nonlinear_arith)
            requires
                r == p * a + b,
                a == 0,
                b < p,
                big == 2 * p,
        ;
    }
    assert(m % p == r % p) by {
        crate::limbs::lemma_div_add_multiple(r, p, 2 * q);
    }
    if m > 0 {
        if nat_trailing_zeros(m) < k {
            if m % p == 0 {
                lemma_tz_ge(m, k);
            }
        } else {
            lemma_tz_le(m, k);
        }
    } else {
        vstd::arithmetic::div_mod::lemma_basic_div(0, p as int);
        vstd::arithmetic::div_mod::lemma_basic_div(0, big as int);
    }
    if drop == 1 {
        lemma2_to64();
        assert(p == 1);
    }
}

/// Round a finite `(m, e)` to `prec` bits (the canonical zero stays zero).
pub(crate) fn round_to_precision_parts(m: &BigUint, e: i64, negative: bool, prec: u32, mode: RoundingMode) -> (r: (
    BigUint,
    i64,
))
    requires
        prec > 0,
        mant_fits(m@),
    ensures
        r.0@ == round_m(m@, e as int, prec as nat, mode, negative),
        r.1 == round_e(m@, e as int, prec as nat, mode, negative),
{
    if m.is_zero() {
        return (BigUint::zero(), 0);
    }
    let (m1, e1) = absorb_trailing_zeros(m, e);
    proof {
        lemma_strip(m@);
    }
    let cur_bits = m1.bit_length();
    let target = prec as u64;
    if cur_bits <= target {
        pad_parts(m1, e1, prec)
    } else {
        let drop = cur_bits - target;
        round_drop_low_bits(&m1, e1, negative, drop, prec, mode)
    }
}

} // verus!
