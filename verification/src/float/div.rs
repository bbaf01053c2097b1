//! Division for `BigFloat`: exact integer division of the scaled mantissas.
//!
//! `a / b = (m_a / m_b) * 2^(e_a - e_b)`; the numerator mantissa is first
//! shifted left by `target_prec + DIV_GUARD_BITS` bits (more when the
//! divisor's mantissa is the wider) so the integer quotient carries enough
//! bits for the final rounding to `target_prec`.

use vstd::prelude::*;
use vstd::arithmetic::power2::{pow2, lemma_pow2_pos};

use crate::error::OxiNumError;
use crate::bits_spec::nat_bit_length;
use super::{BigFloat, FloatClass, RoundingMode, Sign, mant_fits, sat_sub};
use super::spec::{sat, parts_m, parts_e, lemma_bl_mul_pow2};
use super::add::max_prec;

verus! {

/// Extra guard bits kept in the quotient so the final rounding has a round
/// bit and sticky bits.
pub const DIV_GUARD_BITS: u32 = 8;

/// Sign of a product or quotient.
pub open spec fn sign_xor(a: Sign, b: Sign) -> Sign {
    if a == b {
        Sign::Positive
    } else {
        Sign::Negative
    }
}

/// How far the dividend mantissa is shifted left before the integer
/// division: `max_prec + DIV_GUARD_BITS` bits, and as many more as the
/// divisor's mantissa is wider than the dividend's, so that the quotient
/// carries at least `max_prec + DIV_GUARD_BITS` bits.
pub open spec fn div_shift(a: &BigFloat, b: &BigFloat) -> nat {
    let ba = nat_bit_length(a.mant());
    let bb = nat_bit_length(b.mant());
    if bb > ba {
        (max_prec(a, b) + DIV_GUARD_BITS + bb - ba) as nat
    } else {
        (max_prec(a, b) + DIV_GUARD_BITS) as nat
    }
}

/// The integer quotient mantissa of a finite division: the aligned
/// dividend over the divisor, truncated.
pub open spec fn div_quotient(a: &BigFloat, b: &BigFloat) -> nat {
    (a.mant() * pow2(div_shift(a, b))) / b.mant()
}

/// The exponent of [`div_quotient`].
pub open spec fn div_exponent(a: &BigFloat, b: &BigFloat) -> int {
    sat(sat(a.exp() - b.exp()) - div_shift(a, b))
}

/// The precision is small enough for the guard bits to be added in `u32`.
pub open spec fn div_prec_ok(a: &BigFloat, b: &BigFloat) -> bool {
    max_prec(a, b) + DIV_GUARD_BITS <= u32::MAX
}

/// The contract of a division that reports division by zero.
pub open spec fn div_result(a: &BigFloat, b: &BigFloat, mode: RoundingMode, r: Result<BigFloat, OxiNumError>) -> bool {
    let nan = a.cls() == FloatClass::Nan || b.cls() == FloatClass::Nan || (a.cls()
        == FloatClass::Infinite && b.cls() == FloatClass::Infinite);
    &&& nan ==> (r matches Ok(x) && x.cls() == FloatClass::Nan && x.prec() == max_prec(a, b))
    &&& (!nan && a.cls() == FloatClass::Infinite) ==> (r matches Ok(x) && x.cls()
        == FloatClass::Infinite && x.sgn() == sign_xor(a.sgn(), b.sgn()) && x.prec() == max_prec(
        a,
        b,
    ))
    &&& (a.cls() == FloatClass::Finite && b.cls() == FloatClass::Infinite) ==> (r matches Ok(x)
        && x.is_zero_spec() && x.prec() == max_prec(a, b))
    &&& (a.cls() == FloatClass::Finite && b.cls() == FloatClass::Finite && b.mant() == 0) ==> r
        == Err::<BigFloat, OxiNumError>(OxiNumError::DivByZero)
    &&& (a.cls() == FloatClass::Finite && b.cls() == FloatClass::Finite && b.mant() > 0 && a.mant()
        == 0) ==> (r matches Ok(x) && x.is_zero_spec() && x.prec() == max_prec(a, b))
    &&& (a.cls() == FloatClass::Finite && b.cls() == FloatClass::Finite && b.mant() > 0 && a.mant()
        > 0) ==> (r matches Ok(x) && x.cls() == FloatClass::Finite && x.prec() == max_prec(a, b)
        && x.sgn() == sign_xor(a.sgn(), b.sgn()) && x.mant() == parts_m(
        div_quotient(a, b),
        div_exponent(a, b),
        max_prec(a, b),
        mode,
        sign_xor(a.sgn(), b.sgn()) == Sign::Negative,
    ) && x.exp() == parts_e(
        div_quotient(a, b),
        div_exponent(a, b),
        max_prec(a, b),
        mode,
        sign_xor(a.sgn(), b.sgn()) == Sign::Negative,
    ))
}

/// The sign of a product or quotient.
pub(crate) fn sign_of_quotient(a: Sign, b: Sign) -> (r: Sign)
    ensures
        r == sign_xor(a, b),
{
    if a == b {
        Sign::Positive
    } else {
        Sign::Negative
    }
}

/// The larger of two precisions.
pub(crate) fn max_precision(a: &BigFloat, b: &BigFloat) -> (r: u32)
    ensures
        r == max_prec(a, b),
        r > 0,
{
    proof {
        use_type_invariant(a);
        use_type_invariant(b);
        a.lemma_fields();
        b.lemma_fields();
    }
    if a.precision >= b.precision {
        a.precision
    } else {
        b.precision
    }
}

/// The IEEE 754 result of `a / b` when an operand is NaN or infinite (a
/// finite divisor of zero is left to the caller).
fn nonfinite_div(a: &BigFloat, b: &BigFloat) -> (r: Option<BigFloat>)
    ensures
        r is None <==> (a.cls() == FloatClass::Finite && b.cls() == FloatClass::Finite),
        r matches Some(x) ==> div_result(a, b, RoundingMode::HalfEven, Ok(x)),
{
    proof {
        a.lemma_fields();
        b.lemma_fields();
    }
    let prec = max_precision(a, b);
    if a.is_nan() || b.is_nan() || (a.is_infinite() && b.is_infinite()) {
        return Some(BigFloat::nan(prec));
    }
    if a.is_infinite() {
        let s = sign_of_quotient(a.sign, b.sign);
        return Some(
            match s {
                Sign::Negative => BigFloat::neg_infinity(prec),
                Sign::Positive => BigFloat::infinity(prec),
            },
        );
    }
    if b.is_infinite() {
        return Some(BigFloat::zero(prec));
    }
    None
}

impl BigFloat {
    /// `self / other` at the larger precision using banker's rounding.
    /// Dividing a finite value by zero is `Err(DivByZero)`.
    pub fn div_ref(&self, other: &BigFloat) -> (r: Result<BigFloat, OxiNumError>)
        requires
            div_prec_ok(self, other),
        ensures
            div_result(self, other, RoundingMode::HalfEven, r),
    {
        self.div_ref_with_mode(other, RoundingMode::HalfEven)
    }

    /// `self / other` at the larger precision with `mode`.
    pub fn div_ref_with_mode(&self, other: &BigFloat, mode: RoundingMode) -> (r: Result<
        BigFloat,
        OxiNumError,
    >)
        requires
            div_prec_ok(self, other),
        ensures
            div_result(self, other, mode, r),
    {
        // Non-finite inputs propagate per IEEE 754; finite / 0 stays an error.
        match nonfinite_div(self, other) {
            Some(result) => {
                return Ok(result);
            },
            None => {},
        }
        proof {
            use_type_invariant(self);
            use_type_invariant(other);
            self.lemma_fields();
            other.lemma_fields();
        }
        if other.is_zero() {
            return Err(OxiNumError::DivByZero);
        }
        let target_prec = max_precision(self, other);
        if self.is_zero() {
            // 0 / nonzero -> canonical zero at the target precision.
            return Ok(BigFloat::zero(target_prec));
        }
        let out_sign = sign_of_quotient(self.sign, other.sign);
        // Shift m_a so that the quotient carries at least `target_prec +
        // guard` bits, then floor-divide by m_b.
        let a_bits = self.mantissa.bit_length();
        let b_bits = other.mantissa.bit_length();
        let shift_bits = if b_bits > a_bits {
            target_prec as u64 + DIV_GUARD_BITS as u64 + (b_bits - a_bits)
        } else {
            target_prec as u64 + DIV_GUARD_BITS as u64
        };
        let scaled = self.mantissa.shl_bits(shift_bits);
        let (quotient, _) = scaled.div_rem(&other.mantissa);
        // value = quotient * 2^(e_a - e_b - shift_bits)
        let exp_after_div = sat_sub(sat_sub(self.exponent, other.exponent), shift_bits as i64);
        proof {
            lemma_quotient_fits(self.mant(), other.mant(), shift_bits as nat);
        }
        Ok(BigFloat::from_parts(out_sign, quotient, exp_after_div, target_prec, mode))
    }
}

/// The scaled quotient fits a mantissa.
proof fn lemma_quotient_fits(ma: nat, mb: nat, k: nat)
    requires
        ma > 0,
        mb > 0,
        nat_bit_length(ma) <= u32::MAX,
        k <= 0x4_0000_0000,
        nat_bit_length(mb) <= k,
    ensures
        mant_fits((ma * pow2(k)) / mb),
        (ma * pow2(k)) / mb > 0,
{
    crate::bits_spec::lemma_bit_length_bound(mb);
    if nat_bit_length(mb) < k {
        vstd::arithmetic::power2::lemma_pow2_strictly_increases(nat_bit_length(mb), k);
    }
    assert(ma * pow2(k) >= pow2(k)) by (nonlinear_arith)
        requires
            ma >= 1,
    ;
    vstd::arithmetic::div_mod::lemma_div_is_ordered(mb as int, (ma * pow2(k)) as int, mb as int);
    vstd::arithmetic::div_mod::lemma_div_by_self(mb as int);
    lemma_bl_mul_pow2(ma, k);
    crate::bits_spec::lemma_bit_length_bound(ma * pow2(k));
    lemma_pow2_pos(k);
    let q = (ma * pow2(k)) / mb;
    vstd::arithmetic::div_mod::lemma_div_is_ordered_by_denominator((ma * pow2(k)) as int, 1, mb as int);
    assert((ma * pow2(k)) / 1 == ma * pow2(k));
    crate::bits_spec::lemma_bit_length_bound(q);
    let b = nat_bit_length(ma * pow2(k));
    if nat_bit_length(q) > b && q > 0 {
        vstd::arithmetic::power2::lemma_pow2_strictly_increases(b, (nat_bit_length(q) - 1) as nat);
    }
}

/// The IEEE 754 quotient: like [`div_result`], except that a finite value
/// over zero is `±inf` (the sign of a quotient) and `0 / 0` is NaN.
pub open spec fn div_ieee_value(a: &BigFloat, b: &BigFloat, x: &BigFloat) -> bool {
    if a.cls() == FloatClass::Finite && b.cls() == FloatClass::Finite && b.mant() == 0 {
        &&& x.prec() == max_prec(a, b)
        &&& if a.mant() == 0 {
            x.cls() == FloatClass::Nan
        } else {
            x.cls() == FloatClass::Infinite && x.sgn() == sign_xor(a.sgn(), b.sgn())
        }
    } else {
        div_result(a, b, RoundingMode::HalfEven, Ok(*x))
    }
}

/// Division as the `/` operator does it: IEEE 754 for every operand,
/// rounding half to even at the larger precision.
pub(crate) fn div_ieee(a: &BigFloat, b: &BigFloat) -> (r: BigFloat)
    requires
        div_prec_ok(a, b),
    ensures
        div_ieee_value(a, b, &r),
{
    proof {
        use_type_invariant(a);
        use_type_invariant(b);
        a.lemma_fields();
        b.lemma_fields();
    }
    if a.is_finite() && b.is_zero() {
        let prec = max_precision(a, b);
        if a.is_zero() {
            return BigFloat::nan(prec);
        }
        return match sign_of_quotient(a.sign, b.sign) {
            Sign::Negative => BigFloat::neg_infinity(prec),
            Sign::Positive => BigFloat::infinity(prec),
        };
    }
    match a.div_ref(b) {
        Ok(x) => x,
        Err(_) => BigFloat::nan(max_precision(a, b)),
    }
}

} // verus!
