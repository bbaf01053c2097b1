//! Conversions between `BigFloat` and integers.

use vstd::prelude::*;
use vstd::arithmetic::power2::{pow2, lemma_pow2_pos, lemma_pow2_unfold, lemma2_to64};
use vstd::arithmetic::div_mod::{
    lemma_fundamental_div_mod, lemma_mod_bound, lemma_fundamental_div_mod_converse,
};
use vstd::std_specs::convert::FromSpecImpl;

use crate::uint::BigUint;
use crate::bigint::{BigInt, signed};
use crate::bits_spec::{nat_bit, nat_bit_length, nat_trailing_zeros};
use super::{BigFloat, FloatClass, RoundingMode, Sign, mant_fits};
use super::spec::{parts_m, parts_e};

verus! {

/// The number of fractional bits `-e` of an exponent `e < 0`.
pub open spec fn frac_bits(x: &BigFloat) -> nat {
    (-x.exp()) as nat
}

/// The magnitude of `x` truncated toward zero.
pub open spec fn trunc_mag(x: &BigFloat) -> nat {
    if x.exp() >= 0 {
        x.mant() * pow2(x.exp() as nat)
    } else {
        x.mant() / pow2(frac_bits(x))
    }
}

/// `x` truncated toward zero (zero for NaN and the infinities).
pub open spec fn trunc_val(x: &BigFloat) -> int {
    if x.cls() == FloatClass::Finite {
        signed(x.sgn(), trunc_mag(x))
    } else {
        0
    }
}

/// `x` rounded toward `-∞` (zero for NaN and the infinities).
pub open spec fn floor_val(x: &BigFloat) -> int {
    if x.cls() != FloatClass::Finite {
        0
    } else if x.exp() >= 0 {
        signed(x.sgn(), trunc_mag(x))
    } else {
        signed(x.sgn(), x.mant()) / (pow2(frac_bits(x)) as int)
    }
}

/// `x` rounded toward `+∞` (zero for NaN and the infinities).
pub open spec fn ceil_val(x: &BigFloat) -> int {
    if x.cls() != FloatClass::Finite {
        0
    } else if x.exp() >= 0 {
        signed(x.sgn(), trunc_mag(x))
    } else {
        -((-signed(x.sgn(), x.mant())) / (pow2(frac_bits(x)) as int))
    }
}

/// `x` rounded half away from zero (zero for NaN and the infinities).
pub open spec fn round_val(x: &BigFloat) -> int {
    if x.cls() != FloatClass::Finite {
        0
    } else if x.exp() >= 0 {
        signed(x.sgn(), trunc_mag(x))
    } else {
        signed(x.sgn(), (x.mant() + pow2((frac_bits(x) - 1) as nat)) / pow2(frac_bits(x)))
    }
}

/// `|e|` for a negative `i64`, computed without overflow.
fn neg_exponent(e: i64) -> (r: u64)
    requires
        e < 0,
    ensures
        r == -e,
{
    (0i128 - e as i128) as u64
}

/// Facts about the remainder below bit `k` of a positive mantissa.
proof fn lemma_frac_parts(m: nat, k: nat)
    requires
        k >= 1,
    ensures
        (nat_trailing_zeros(m) < k && m > 0) == (m % pow2(k) != 0),
        (nat_bit(m, (k - 1) as nat) && (m > 0 && nat_trailing_zeros(m) == k - 1)) == (2 * (m
            % pow2(k)) == pow2(k)),
        (nat_bit(m, (k - 1) as nat) && (m > 0 && nat_trailing_zeros(m) < k - 1)) == (2 * (m
            % pow2(k)) > pow2(k)),
{
    super::lemma_round_bits_impl(m, k);
    lemma_pow2_pos(k);
    if m > 0 {
        if nat_trailing_zeros(m) < k {
            if m % pow2(k) == 0 {
                super::lemma_tz_ge(m, k);
            }
        } else {
            super::lemma_tz_le(m, k);
        }
        if nat_bit(m, (k - 1) as nat) && nat_trailing_zeros(m) > k - 1 {
            // bit k-1 set means at most k-1 trailing zeros
            super::lemma_tz_le(m, k);
        }
    } else {
        lemma_pow2_pos((k - 1) as nat);
        vstd::arithmetic::div_mod::lemma_basic_div(0, pow2(k) as int);
        vstd::arithmetic::div_mod::lemma_basic_div(0, pow2((k - 1) as nat) as int);
    }
    if k == 1 {
        lemma2_to64();
    }
}

impl BigFloat {
    /// `true` if the value has a non-zero fractional part.
    fn has_fractional_part(&self) -> (r: bool)
        ensures
            r == (self.exp() < 0 && self.mant() % pow2(frac_bits(self)) != 0),
    {
        proof {
            use_type_invariant(self);
            self.lemma_fields();
        }
        if self.is_zero() || self.exponent >= 0 {
            proof {
                lemma_pow2_pos(frac_bits(self));
                vstd::arithmetic::div_mod::lemma_basic_div(0, pow2(frac_bits(self)) as int);
            }
            return false;
        }
        let shift = neg_exponent(self.exponent);
        proof {
            lemma_frac_parts(self.mant(), shift as nat);
        }
        self.mantissa.trailing_zeros() < shift
    }

    /// `true` if the fractional part is exactly one half.
    fn half_exactly(&self) -> (r: bool)
        ensures
            r == (self.exp() < 0 && 2 * (self.mant() % pow2(frac_bits(self))) == pow2(
                frac_bits(self),
            )),
    {
        proof {
            use_type_invariant(self);
            self.lemma_fields();
        }
        if self.is_zero() || self.exponent >= 0 {
            proof {
                lemma_pow2_pos(frac_bits(self));
                vstd::arithmetic::div_mod::lemma_basic_div(0, pow2(frac_bits(self)) as int);
            }
            return false;
        }
        let shift = neg_exponent(self.exponent);
        proof {
            lemma_frac_parts(self.mant(), shift as nat);
        }
        self.mantissa.test_bit(shift - 1) && self.mantissa.trailing_zeros() == shift - 1
    }

    /// `true` if the fractional part is strictly greater than one half.
    fn more_than_half(&self) -> (r: bool)
        ensures
            r == (self.exp() < 0 && 2 * (self.mant() % pow2(frac_bits(self))) > pow2(
                frac_bits(self),
            )),
    {
        proof {
            use_type_invariant(self);
            self.lemma_fields();
        }
        if self.is_zero() || self.exponent >= 0 {
            proof {
                lemma_pow2_pos(frac_bits(self));
                vstd::arithmetic::div_mod::lemma_basic_div(0, pow2(frac_bits(self)) as int);
            }
            return false;
        }
        let shift = neg_exponent(self.exponent);
        proof {
            lemma_frac_parts(self.mant(), shift as nat);
        }
        self.mantissa.test_bit(shift - 1) && self.mantissa.trailing_zeros() < shift - 1
    }

    /// Convert to `BigInt` by truncating toward zero. NaN and the infinities
    /// have no integer value and give zero.
    pub fn to_bigint_trunc(&self) -> (r: BigInt)
        ensures
            r@ == trunc_val(self),
    {
        proof {
            use_type_invariant(self);
            self.lemma_fields();
        }
        if !self.is_finite() {
            return BigInt::zero();
        }
        if self.is_zero() {
            proof {
                assert(0 * pow2(0) == 0) by (nonlinear_arith);
            }
            return BigInt::zero();
        }
        if self.exponent >= 0 {
            // No fractional bits: the value is mantissa * 2^exponent.
            let mag = self.mantissa.shl_bits(self.exponent as u64);
            return BigInt::from_parts(self.sign, mag);
        }
        // Shift right to drop the fractional part.
        let shift = neg_exponent(self.exponent);
        let mag = self.mantissa.shr_bits(shift);
        if mag.is_zero() {
            BigInt::zero()
        } else {
            BigInt::from_parts(self.sign, mag)
        }
    }

    /// Convert to `BigInt` rounding toward negative infinity.
    pub fn to_bigint_floor(&self) -> (r: BigInt)
        ensures
            r@ == floor_val(self),
    {
        proof {
            use_type_invariant(self);
            self.lemma_fields();
            lemma_floor_ceil(self);
        }
        let t = self.to_bigint_trunc();
        if self.sign == Sign::Negative && self.has_fractional_part() {
            BigInt::sub_ref(&t, &BigInt::one())
        } else {
            t
        }
    }

    /// Convert to `BigInt` rounding toward positive infinity.
    pub fn to_bigint_ceil(&self) -> (r: BigInt)
        ensures
            r@ == ceil_val(self),
    {
        proof {
            use_type_invariant(self);
            self.lemma_fields();
            lemma_floor_ceil(self);
        }
        let t = self.to_bigint_trunc();
        if self.sign == Sign::Positive && self.has_fractional_part() {
            BigInt::add_ref(&t, &BigInt::one())
        } else {
            t
        }
    }

    /// Convert to `BigInt` rounding half away from zero.
    pub fn to_bigint_round(&self) -> (r: BigInt)
        ensures
            r@ == round_val(self),
    {
        proof {
            use_type_invariant(self);
            self.lemma_fields();
            lemma_round_half_away(self);
            lemma_pow2_pos(frac_bits(self));
        }
        if !self.has_fractional_part() {
            return self.to_bigint_trunc();
        }
        // Fractional part >= 1/2: round away from zero.
        if self.half_exactly() || self.more_than_half() {
            let t = self.to_bigint_trunc();
            if self.sign == Sign::Positive {
                BigInt::add_ref(&t, &BigInt::one())
            } else {
                BigInt::sub_ref(&t, &BigInt::one())
            }
        } else {
            self.to_bigint_trunc()
        }
    }
}

/// Floor and ceiling from truncation and the fractional part.
pub proof fn lemma_floor_ceil(x: &BigFloat)
    ensures
        x.cls() == FloatClass::Finite && x.exp() < 0 ==> {
            let d = pow2(frac_bits(x));
            let frac = x.mant() % d != 0;
            &&& floor_val(x) == trunc_val(x) - (if x.sgn() == Sign::Negative && frac {
                1int
            } else {
                0int
            })
            &&& ceil_val(x) == trunc_val(x) + (if x.sgn() == Sign::Positive && frac {
                1int
            } else {
                0int
            })
        },
        x.cls() != FloatClass::Finite || x.exp() >= 0 ==> floor_val(x) == trunc_val(x)
            && ceil_val(x) == trunc_val(x),
{
    if x.cls() == FloatClass::Finite && x.exp() < 0 {
        let d = pow2(frac_bits(x));
        lemma_pow2_pos(frac_bits(x));
        let m = x.mant();
        lemma_fundamental_div_mod(m as int, d as int);
        lemma_mod_bound(m as int, d as int);
        let q = m / d;
        let r = m % d;
        // (-m) / d
        let qi = q as int;
        let di = d as int;
        let ri = r as int;
        if r != 0 {
            assert(-(m as int) == (-qi - 1) * di + (di - ri)) by (nonlinear_arith)
                requires
                    m as int == di * qi + ri,
            ;
            lemma_fundamental_div_mod_converse(-(m as int), di, -qi - 1, di - ri);
        } else {
            assert(-(m as int) == (-qi) * di + 0) by (nonlinear_arith)
                requires
                    m as int == di * qi + ri,
                    ri == 0,
            ;
            lemma_fundamental_div_mod_converse(-(m as int), di, -qi, 0);
        }
    }
}

/// Rounding half away from zero from truncation and the fractional part.
pub proof fn lemma_round_half_away(x: &BigFloat)
    ensures
        x.cls() == FloatClass::Finite && x.exp() < 0 ==> {
            let d = pow2(frac_bits(x));
            let up = 2 * (x.mant() % d) >= d;
            round_val(x) == trunc_val(x) + (if up {
                if x.sgn() == Sign::Positive {
                    1int
                } else {
                    -1int
                }
            } else {
                0int
            })
        },
        x.cls() != FloatClass::Finite || x.exp() >= 0 ==> round_val(x) == trunc_val(x),
{
    if x.cls() == FloatClass::Finite && x.exp() < 0 {
        let k = frac_bits(x);
        let d = pow2(k);
        lemma_pow2_pos(k);
        lemma_pow2_unfold(k);
        let h = pow2((k - 1) as nat);
        let m = x.mant();
        lemma_fundamental_div_mod(m as int, d as int);
        lemma_mod_bound(m as int, d as int);
        let q = m / d;
        let r = m % d;
        let qi = q as int;
        let di = d as int;
        let ri = r as int;
        let hi = h as int;
        assert(d == 2 * h);
        if 2 * r >= d {
            assert((m + h) as int == (qi + 1) * di + (ri + hi - di)) by (nonlinear_arith)
                requires
                    m as int == di * qi + ri,
                    hi == h as int,
            ;
            lemma_fundamental_div_mod_converse((m + h) as int, di, qi + 1, ri + hi - di);
        } else {
            assert((m + h) as int == qi * di + (ri + hi)) by (nonlinear_arith)
                requires
                    m as int == di * qi + ri,
                    hi == h as int,
            ;
            lemma_fundamental_div_mod_converse((m + h) as int, di, qi, ri + hi);
        }
    }
}

impl BigFloat {
    /// Encode the integer `n` at `prec` bits of precision, rounded by `mode`.
    pub fn from_i64(n: i64, prec: u32, mode: RoundingMode) -> (r: BigFloat)
        requires
            prec > 0,
        ensures
            r.cls() == FloatClass::Finite,
            r.prec() == prec,
            r.sgn() == (if n < 0 { Sign::Negative } else { Sign::Positive }),
            r.mant() == parts_m(
                (if n < 0 { -(n as int) } else { n as int }) as nat,
                0,
                prec as nat,
                mode,
                n < 0,
            ),
            r.exp() == parts_e(
                (if n < 0 { -(n as int) } else { n as int }) as nat,
                0,
                prec as nat,
                mode,
                n < 0,
            ),
    {
        if n == 0 {
            return Self::zero(prec);
        }
        let (sign, mag_u64) = if n < 0 {
            (Sign::Negative, (0i128 - n as i128) as u64)
        } else {
            (Sign::Positive, n as u64)
        };
        let mantissa = BigUint::from_u64(mag_u64);
        proof {
            lemma_small_fits(mag_u64 as nat);
        }
        Self::from_parts(sign, mantissa, 0, prec, mode)
    }

    /// Convert a `BigUint` at `prec` bits of precision, rounded by `mode`
    /// (exact when `prec >= n.bit_length()`).
    pub fn from_biguint(n: &BigUint, prec: u32, mode: RoundingMode) -> (r: BigFloat)
        requires
            prec > 0,
            mant_fits(n@),
        ensures
            r.cls() == FloatClass::Finite,
            r.prec() == prec,
            r.sgn() == Sign::Positive,
            r.mant() == parts_m(n@, 0, prec as nat, mode, false),
            r.exp() == parts_e(n@, 0, prec as nat, mode, false),
    {
        if n.is_zero() {
            return Self::zero(prec);
        }
        Self::from_parts(Sign::Positive, n.clone(), 0, prec, mode)
    }

    /// Convert a `BigInt` at `prec` bits of precision, rounded by `mode`:
    /// the magnitude is converted and the result negated for negative `n`.
    pub fn from_bigint(n: &BigInt, prec: u32, mode: RoundingMode) -> (r: BigFloat)
        requires
            prec > 0,
            mant_fits(n.mag_spec()),
        ensures
            r.cls() == FloatClass::Finite,
            r.prec() == prec,
            r.sgn() == (if n@ < 0 { Sign::Negative } else { Sign::Positive }),
            r.mant() == parts_m(n.mag_spec(), 0, prec as nat, mode, false),
            r.exp() == parts_e(n.mag_spec(), 0, prec as nat, mode, false),
    {
        let sign = n.sign();
        let mag = n.magnitude().clone();
        let f = Self::from_biguint(&mag, prec, mode);
        proof {
            super::spec::lemma_round_m_bits(
                super::spec::canon_m(mag@, prec as nat),
                super::spec::canon_e(mag@, 0, prec as nat),
                prec as nat,
                mode,
                false,
            );
            if mag@ > 0 {
                super::spec::lemma_strip(mag@);
                lemma_canon_pos(mag@, prec as nat);
            }
        }
        if sign == Sign::Negative && !f.is_zero() {
            f.neg()
        } else {
            f
        }
    }
}

/// The canonical mantissa of a positive number is positive.
proof fn lemma_canon_pos(m: nat, prec: nat)
    requires
        m > 0,
    ensures
        super::spec::canon_m(m, prec) > 0,
{
    super::spec::lemma_strip(m);
    let m1 = super::spec::strip_m(m);
    if nat_bit_length(m1) < prec {
        lemma_pow2_pos((prec - nat_bit_length(m1)) as nat);
        assert(m1 * pow2((prec - nat_bit_length(m1)) as nat) > 0) by (nonlinear_arith)
            requires
                m1 > 0,
                pow2((prec - nat_bit_length(m1)) as nat) > 0,
        ;
    }
}

/// A 64-bit mantissa fits.
proof fn lemma_small_fits(m: nat)
    requires
        m <= u64::MAX,
    ensures
        mant_fits(m),
{
    crate::bits_spec::lemma_bit_length_bound(m);
    if nat_bit_length(m) > 64 {
        vstd::arithmetic::power2::lemma2_to64();
        vstd::arithmetic::power2::lemma_pow2_strictly_increases(64, (nat_bit_length(m) - 1) as nat);
        assert(pow2(64) == 0x1_0000_0000_0000_0000nat);
    }
}

impl From<i64> for BigFloat {
    /// Encodes `n` at 64 bits of precision with banker's rounding.
    fn from(n: i64) -> (r: BigFloat)
        ensures
            r.cls() == FloatClass::Finite,
            r.prec() == 64,
            r.sgn() == (if n < 0 { Sign::Negative } else { Sign::Positive }),
    {
        BigFloat::from_i64(n, 64, RoundingMode::HalfEven)
    }
}

impl FromSpecImpl<i64> for BigFloat {
    open spec fn obeys_from_spec() -> bool {
        false
    }

    open spec fn from_spec(v: i64) -> BigFloat {
        arbitrary()
    }
}

} // verus!
