//! The floating-point remainder `a % b = a - trunc(a / b) · b` (truncated,
//! not floor-based), with the IEEE 754 rules `∞ % y = NaN`, `x % 0 = NaN`,
//! `x % ∞ = x` and NaN propagating.

use vstd::prelude::*;
use vstd::arithmetic::power2::{pow2, lemma_pow2_pos, lemma_pow2_adds};
use vstd::std_specs::ops::RemSpecImpl;
use core::ops::Rem;

use crate::uint::BigUint;
use crate::bits_spec::{nat_bit_length, lemma_bit_length_bound};
use super::{BigFloat, FloatClass, RoundingMode, Sign, sat_add};
use super::spec::{sat, parts_m, parts_e, round_m, round_e, lemma_round_m_bits};
use super::add::{max_prec, sub_result};
use super::div::{
    div_quotient, div_exponent, div_prec_ok, sign_xor, div_ieee, max_precision, sign_of_quotient,
};

verus! {

/// The mantissa of `±m·2^e` truncated toward zero and encoded at `prec`
/// bits with `mode` (an integral value is only re-rounded).
pub open spec fn trunc_m(negative: bool, m: nat, e: int, prec: nat, mode: RoundingMode) -> nat {
    if m == 0 {
        0
    } else if e >= 0 {
        round_m(m, e, prec, mode, negative)
    } else if -e >= nat_bit_length(m) {
        0
    } else {
        parts_m(m / pow2((-e) as nat), 0, prec, mode, negative)
    }
}

/// The exponent matching [`trunc_m`].
pub open spec fn trunc_e(negative: bool, m: nat, e: int, prec: nat, mode: RoundingMode) -> int {
    if m == 0 {
        0
    } else if e >= 0 {
        round_e(m, e, prec, mode, negative)
    } else if -e >= nat_bit_length(m) {
        0
    } else {
        parts_e(m / pow2((-e) as nat), 0, prec, mode, negative)
    }
}

/// The product of two finite values, exact then rounded half to even at
/// the larger precision: its mantissa.
pub open spec fn product_m(a: &BigFloat, b: &BigFloat) -> nat {
    parts_m(
        a.mant() * b.mant(),
        sat(a.exp() + b.exp()),
        max_prec(a, b),
        RoundingMode::HalfEven,
        sign_xor(a.sgn(), b.sgn()) == Sign::Negative,
    )
}

/// The exponent of [`product_m`].
pub open spec fn product_e(a: &BigFloat, b: &BigFloat) -> int {
    parts_e(
        a.mant() * b.mant(),
        sat(a.exp() + b.exp()),
        max_prec(a, b),
        RoundingMode::HalfEven,
        sign_xor(a.sgn(), b.sgn()) == Sign::Negative,
    )
}

/// The sign of the quotient `a / b` in a remainder.
pub open spec fn rem_q_negative(a: &BigFloat, b: &BigFloat) -> bool {
    sign_xor(a.sgn(), b.sgn()) == Sign::Negative
}

/// The quotient `a / b` rounded to the larger precision: mantissa.
pub open spec fn rem_q_m(a: &BigFloat, b: &BigFloat) -> nat {
    parts_m(
        div_quotient(a, b),
        div_exponent(a, b),
        max_prec(a, b),
        RoundingMode::HalfEven,
        rem_q_negative(a, b),
    )
}

/// The quotient `a / b` rounded to the larger precision: exponent.
pub open spec fn rem_q_e(a: &BigFloat, b: &BigFloat) -> int {
    parts_e(
        div_quotient(a, b),
        div_exponent(a, b),
        max_prec(a, b),
        RoundingMode::HalfEven,
        rem_q_negative(a, b),
    )
}

/// `trunc(a / b)`: mantissa.
pub open spec fn rem_t_m(a: &BigFloat, b: &BigFloat) -> nat {
    trunc_m(rem_q_negative(a, b), rem_q_m(a, b), rem_q_e(a, b), max_prec(a, b), RoundingMode::ToZero)
}

/// `trunc(a / b)`: exponent.
pub open spec fn rem_t_e(a: &BigFloat, b: &BigFloat) -> int {
    trunc_e(rem_q_negative(a, b), rem_q_m(a, b), rem_q_e(a, b), max_prec(a, b), RoundingMode::ToZero)
}

/// The sign of `trunc(a / b) · b` (positive when it is zero).
pub open spec fn rem_p_negative(a: &BigFloat, b: &BigFloat) -> bool {
    rem_t_m(a, b) > 0 && rem_q_negative(a, b) != (b.sgn() == Sign::Negative)
}

/// `trunc(a / b) · b`, rounded half to even: mantissa.
pub open spec fn rem_p_m(a: &BigFloat, b: &BigFloat) -> nat {
    parts_m(
        rem_t_m(a, b) * b.mant(),
        sat(rem_t_e(a, b) + b.exp()),
        max_prec(a, b),
        RoundingMode::HalfEven,
        rem_p_negative(a, b),
    )
}

/// `trunc(a / b) · b`, rounded half to even: exponent.
pub open spec fn rem_p_e(a: &BigFloat, b: &BigFloat) -> int {
    parts_e(
        rem_t_m(a, b) * b.mant(),
        sat(rem_t_e(a, b) + b.exp()),
        max_prec(a, b),
        RoundingMode::HalfEven,
        rem_p_negative(a, b),
    )
}

/// The remainder's intermediate values fit: the division's precision bound,
/// and an exponent gap of at most `2^62` between `a` and `trunc(a/b)·b` for
/// the final subtraction (a memory limit on the aligned mantissas).
pub open spec fn rem_ok(a: &BigFloat, b: &BigFloat) -> bool {
    &&& div_prec_ok(a, b)
    &&& (a.cls() == FloatClass::Finite && b.cls() == FloatClass::Finite && a.mant() > 0 && b.mant()
        > 0 && rem_p_m(a, b) > 0) ==> -0x4000_0000_0000_0000 <= a.exp() - rem_p_e(a, b)
        <= 0x4000_0000_0000_0000
}

/// The contract of `a % b`.
pub open spec fn rem_result(a: &BigFloat, b: &BigFloat, r: &BigFloat) -> bool {
    let nan = a.cls() == FloatClass::Nan || b.cls() == FloatClass::Nan || a.cls()
        == FloatClass::Infinite || (b.cls() == FloatClass::Finite && b.mant() == 0);
    &&& nan ==> r.cls() == FloatClass::Nan && r.prec() == max_prec(a, b)
    &&& (!nan && b.cls() == FloatClass::Infinite) ==> (r.cls() == a.cls() && r.sgn() == a.sgn()
        && r.mant() == a.mant() && r.exp() == a.exp() && r.prec() == a.prec())
    &&& (!nan && b.cls() == FloatClass::Finite && a.mant() == 0) ==> (r.is_zero_spec() && r.prec()
        == max_prec(a, b))
    &&& (!nan && b.cls() == FloatClass::Finite && a.mant() > 0) ==> exists|p: BigFloat|
        #![trigger sub_result(a, &p, RoundingMode::HalfEven, r)]
        p.cls() == FloatClass::Finite && p.prec() == max_prec(a, b) && p.mant() == rem_p_m(a, b)
            && p.exp() == rem_p_e(a, b) && p.sgn() == (if rem_p_negative(a, b) {
            Sign::Negative
        } else {
            Sign::Positive
        }) && sub_result(a, &p, RoundingMode::HalfEven, r)
}

/// A product has at most the bits of its factors together.
proof fn lemma_product_bits(x: nat, y: nat)
    ensures
        nat_bit_length(x * y) <= nat_bit_length(x) + nat_bit_length(y),
{
    let bx = nat_bit_length(x);
    let by = nat_bit_length(y);
    lemma_bit_length_bound(x);
    lemma_bit_length_bound(y);
    lemma_bit_length_bound(x * y);
    lemma_pow2_adds(bx, by);
    assert(x * y < pow2(bx + by)) by (nonlinear_arith)
        requires
            x < pow2(bx),
            y < pow2(by),
            pow2(bx + by) == pow2(bx) * pow2(by),
    ;
    if nat_bit_length(x * y) > bx + by {
        vstd::arithmetic::power2::lemma_pow2_strictly_increases(
            bx + by,
            (nat_bit_length(x * y) - 1) as nat,
        );
    }
}

/// The product of two finite values, rounded half to even at the larger
/// precision.
fn mul_finite(a: &BigFloat, b: &BigFloat) -> (r: BigFloat)
    requires
        a.cls() == FloatClass::Finite,
        b.cls() == FloatClass::Finite,
    ensures
        r.cls() == FloatClass::Finite,
        r.prec() == max_prec(a, b),
        a.mant() * b.mant() == 0 ==> r.is_zero_spec(),
        a.mant() * b.mant() > 0 ==> r.mant() == product_m(a, b) && r.exp() == product_e(a, b)
            && r.sgn() == sign_xor(a.sgn(), b.sgn()),
{
    proof {
        use_type_invariant(a);
        use_type_invariant(b);
        a.lemma_fields();
        b.lemma_fields();
        lemma_product_bits(a.mant(), b.mant());
    }
    let prec = max_precision(a, b);
    if a.is_zero() || b.is_zero() {
        proof {
            assert(a.mant() * b.mant() == 0) by (nonlinear_arith)
                requires
                    a.mant() == 0 || b.mant() == 0,
            ;
        }
        return BigFloat::zero(prec);
    }
    proof {
        assert(a.mant() * b.mant() > 0) by (nonlinear_arith)
            requires
                a.mant() > 0,
                b.mant() > 0,
        ;
    }
    let m = BigUint::mul_ref(&a.mantissa, &b.mantissa);
    let e = sat_add(a.exponent, b.exponent);
    let sign = sign_of_quotient(a.sign, b.sign);
    BigFloat::from_parts(sign, m, e, prec, RoundingMode::HalfEven)
}

impl BigFloat {
    /// Truncate toward zero to an integral value (drop the bits below the
    /// binary point), encoded at `prec` bits with `mode`.
    fn trunc_to_integer(&self, prec: u32, mode: RoundingMode) -> (r: BigFloat)
        requires
            prec > 0,
        ensures
            r.prec() == prec,
            self.cls() != FloatClass::Finite ==> r.cls() == self.cls(),
            self.cls() == FloatClass::Finite ==> r.cls() == FloatClass::Finite && r.mant() == trunc_m(
                self.sgn() == Sign::Negative,
                self.mant(),
                self.exp(),
                prec as nat,
                mode,
            ) && r.exp() == trunc_e(
                self.sgn() == Sign::Negative,
                self.mant(),
                self.exp(),
                prec as nat,
                mode,
            ) && r.sgn() == (if r.mant() == 0 {
                Sign::Positive
            } else {
                self.sgn()
            }),
    {
        proof {
            use_type_invariant(self);
            self.lemma_fields();
        }
        if self.is_zero() {
            return BigFloat::zero(prec);
        }
        // The value is m · 2^exp; with exp >= 0 it is already an integer.
        if self.exponent >= 0 {
            let r = self.clone().with_precision(prec, mode);
            proof {
                use_type_invariant(&r);
                r.lemma_fields();
                if self.cls() == FloatClass::Finite {
                    lemma_round_m_bits(
                        self.mant(),
                        self.exp(),
                        prec as nat,
                        mode,
                        self.sgn() == Sign::Negative,
                    );
                }
            }
            return r;
        }
        // exp < 0: the fractional part is the low -exp bits of the mantissa.
        let frac_bits = (0i128 - self.exponent as i128) as u64;
        let mant_bits = self.mantissa.bit_length();
        if frac_bits >= mant_bits {
            // Entirely fractional: truncates to zero.
            return BigFloat::zero(prec);
        }
        let int_mantissa = self.mantissa.shr_bits(frac_bits);
        proof {
            lemma_pow2_pos(frac_bits as nat);
            lemma_bit_length_bound(self.mant());
            lemma_bit_length_bound(int_mantissa@);
            vstd::arithmetic::div_mod::lemma_div_is_ordered_by_denominator(
                self.mant() as int,
                1,
                pow2(frac_bits as nat) as int,
            );
            assert(self.mant() / 1 == self.mant());
            if nat_bit_length(int_mantissa@) > nat_bit_length(self.mant()) {
                vstd::arithmetic::power2::lemma_pow2_strictly_increases(
                    nat_bit_length(self.mant()),
                    (nat_bit_length(int_mantissa@) - 1) as nat,
                );
            }
        }
        let r = BigFloat::from_parts(self.sign, int_mantissa, 0, prec, mode);
        proof {
            use_type_invariant(&r);
            r.lemma_fields();
        }
        r
    }
}

/// `a % b`: the truncated remainder `a - trunc(a / b) · b`, with the
/// quotient and the product rounded half to even at the larger precision.
pub(crate) fn rem_core(a: &BigFloat, b: &BigFloat) -> (r: BigFloat)
    requires
        rem_ok(a, b),
    ensures
        rem_result(a, b, &r),
{
    proof {
        use_type_invariant(a);
        use_type_invariant(b);
        a.lemma_fields();
        b.lemma_fields();
    }
    let prec = max_precision(a, b);
    // IEEE 754 non-finite table for the remainder.
    if a.is_nan() || b.is_nan() || a.is_infinite() || b.is_zero() {
        return BigFloat::nan(prec);
    }
    // finite % inf = the finite value.
    if b.is_infinite() {
        return a.clone();
    }
    if a.is_zero() {
        return BigFloat::zero(prec);
    }
    let q = div_ieee(a, b);
    // Truncate toward zero: drop the fractional part.
    let q_trunc = q.trunc_to_integer(prec, RoundingMode::ToZero);
    let p = mul_finite(&q_trunc, b);
    proof {
        use_type_invariant(&q);
        q.lemma_fields();
        use_type_invariant(&q_trunc);
        q_trunc.lemma_fields();
        use_type_invariant(&p);
        p.lemma_fields();
        assert(q.mant() == rem_q_m(a, b));
        assert(q_trunc.mant() == rem_t_m(a, b));
        if q_trunc.mant() > 0 {
            assert(q_trunc.mant() * b.mant() > 0) by (nonlinear_arith)
                requires
                    q_trunc.mant() > 0,
                    b.mant() > 0,
            ;
        } else {
            assert(q_trunc.mant() * b.mant() == 0);
            assert(rem_p_m(a, b) == 0);
        }
    }
    let r = a.sub_ref(&p);
    proof {
        assert(sub_result(a, &p, RoundingMode::HalfEven, &r));
    }
    r
}

impl<'a, 'b> Rem<&'b BigFloat> for &'a BigFloat {
    type Output = BigFloat;

    fn rem(self, rhs: &'b BigFloat) -> (r: BigFloat)
        ensures
            rem_result(self, rhs, &r),
    {
        rem_core(self, rhs)
    }
}

impl<'a, 'b> RemSpecImpl<&'b BigFloat> for &'a BigFloat {
    open spec fn obeys_rem_spec() -> bool {
        false
    }

    open spec fn rem_req(self, rhs: &'b BigFloat) -> bool {
        rem_ok(self, rhs)
    }

    open spec fn rem_spec(self, rhs: &'b BigFloat) -> BigFloat {
        arbitrary()
    }
}

impl Rem<BigFloat> for BigFloat {
    type Output = BigFloat;

    fn rem(self, rhs: BigFloat) -> (r: BigFloat)
        ensures
            rem_result(&self, &rhs, &r),
    {
        rem_core(&self, &rhs)
    }
}

impl RemSpecImpl<BigFloat> for BigFloat {
    open spec fn obeys_rem_spec() -> bool {
        false
    }

    open spec fn rem_req(self, rhs: BigFloat) -> bool {
        rem_ok(&self, &rhs)
    }

    open spec fn rem_spec(self, rhs: BigFloat) -> BigFloat {
        arbitrary()
    }
}

impl<'b> Rem<&'b BigFloat> for BigFloat {
    type Output = BigFloat;

    fn rem(self, rhs: &'b BigFloat) -> (r: BigFloat)
        ensures
            rem_result(&self, rhs, &r),
    {
        rem_core(&self, rhs)
    }
}

impl<'b> RemSpecImpl<&'b BigFloat> for BigFloat {
    open spec fn obeys_rem_spec() -> bool {
        false
    }

    open spec fn rem_req(self, rhs: &'b BigFloat) -> bool {
        rem_ok(&self, rhs)
    }

    open spec fn rem_spec(self, rhs: &'b BigFloat) -> BigFloat {
        arbitrary()
    }
}

impl<'a> Rem<BigFloat> for &'a BigFloat {
    type Output = BigFloat;

    fn rem(self, rhs: BigFloat) -> (r: BigFloat)
        ensures
            rem_result(self, &rhs, &r),
    {
        rem_core(self, &rhs)
    }
}

impl<'a> RemSpecImpl<BigFloat> for &'a BigFloat {
    open spec fn obeys_rem_spec() -> bool {
        false
    }

    open spec fn rem_req(self, rhs: BigFloat) -> bool {
        rem_ok(self, &rhs)
    }

    open spec fn rem_spec(self, rhs: BigFloat) -> BigFloat {
        arbitrary()
    }
}

impl BigFloat {
    /// `self %= rhs` (the compound assignment `%=`).
    pub fn rem_assign(&mut self, rhs: &BigFloat)
        requires
            rem_ok(old(self), rhs),
        ensures
            rem_result(old(self), rhs, final(self)),
    {
        *self = rem_core(self, rhs);
    }
}

} // verus!
