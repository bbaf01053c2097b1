//! Addition, subtraction and negation for `BigFloat`.
//!
//! Exact-shift alignment: the higher-exponent mantissa is shifted left so
//! both operands share the smaller exponent, the magnitudes are added or
//! subtracted exactly, and the result is rounded to the larger of the two
//! precisions.

use vstd::prelude::*;
use vstd::arithmetic::power2::pow2;

use crate::uint::BigUint;
use crate::bits_spec::nat_bit_length;
use super::{BigFloat, FloatClass, RoundingMode, Sign, flip, mant_fits};
use super::spec::{
    min_int, scaled, parts_m, parts_e, round_m, round_e, lemma_bl_mul_pow2, lemma_scaled_at_min,
};

verus! {

/// The larger of two precisions.
pub open spec fn max_prec(a: &BigFloat, b: &BigFloat) -> nat {
    if a.prec() >= b.prec() {
        a.prec()
    } else {
        b.prec()
    }
}

/// The exponents of two non-zero finite operands are close enough for the
/// aligned mantissas to fit in memory (a gap beyond this would also
/// overflow the `i64` exponent difference).
pub open spec fn gap_ok(a: &BigFloat, b: &BigFloat) -> bool {
    (a.cls() == FloatClass::Finite && b.cls() == FloatClass::Finite && a.mant() > 0 && b.mant()
        > 0) ==> -0x4000_0000_0000_0000 <= a.exp() - b.exp() <= 0x4000_0000_0000_0000
}

/// Whether the IEEE rules give NaN for `a + b`.
pub open spec fn add_is_nan(a: &BigFloat, b: &BigFloat) -> bool {
    a.cls() == FloatClass::Nan || b.cls() == FloatClass::Nan || (a.cls() == FloatClass::Infinite
        && b.cls() == FloatClass::Infinite && a.sgn() != b.sgn())
}

/// The magnitude of the exact sum of two non-zero finite values, in units
/// of `2^min(ea, eb)`.
pub open spec fn sum_mag(a: &BigFloat, b: &BigFloat) -> nat {
    let lo = min_int(a.exp(), b.exp());
    let la = scaled(a.mant(), a.exp(), lo);
    let lb = scaled(b.mant(), b.exp(), lo);
    if a.sgn() == b.sgn() {
        la + lb
    } else if la >= lb {
        (la - lb) as nat
    } else {
        (lb - la) as nat
    }
}

/// The sign of the exact sum of two non-zero finite values (before the
/// zero result is made positive).
pub open spec fn sum_sign(a: &BigFloat, b: &BigFloat) -> Sign {
    let lo = min_int(a.exp(), b.exp());
    if a.sgn() == b.sgn() || scaled(a.mant(), a.exp(), lo) >= scaled(b.mant(), b.exp(), lo) {
        a.sgn()
    } else {
        b.sgn()
    }
}

/// The finite result of `a + b` rounded to `prec` bits by `mode`:
/// `(sign, mantissa, exponent)`.
pub open spec fn finite_sum(a: &BigFloat, b: &BigFloat, prec: nat, mode: RoundingMode) -> (
    Sign,
    nat,
    int,
) {
    if a.mant() == 0 {
        (
            b.sgn(),
            round_m(b.mant(), b.exp(), prec, mode, b.sgn() == Sign::Negative),
            round_e(b.mant(), b.exp(), prec, mode, b.sgn() == Sign::Negative),
        )
    } else if b.mant() == 0 {
        (
            a.sgn(),
            round_m(a.mant(), a.exp(), prec, mode, a.sgn() == Sign::Negative),
            round_e(a.mant(), a.exp(), prec, mode, a.sgn() == Sign::Negative),
        )
    } else {
        let lo = min_int(a.exp(), b.exp());
        let m = sum_mag(a, b);
        let s = sum_sign(a, b);
        (
            if m == 0 {
                Sign::Positive
            } else {
                s
            },
            parts_m(m, lo, prec, mode, s == Sign::Negative),
            parts_e(m, lo, prec, mode, s == Sign::Negative),
        )
    }
}

/// The contract of `a + b` at rounding mode `mode`.
pub open spec fn add_result(a: &BigFloat, b: &BigFloat, mode: RoundingMode, r: &BigFloat) -> bool {
    &&& r.prec() == max_prec(a, b)
    &&& add_is_nan(a, b) ==> r.cls() == FloatClass::Nan
    &&& (!add_is_nan(a, b) && a.cls() == FloatClass::Infinite) ==> (r.cls()
        == FloatClass::Infinite && r.sgn() == a.sgn())
    &&& (!add_is_nan(a, b) && a.cls() == FloatClass::Finite && b.cls() == FloatClass::Infinite)
        ==> (r.cls() == FloatClass::Infinite && r.sgn() == b.sgn())
    &&& (a.cls() == FloatClass::Finite && b.cls() == FloatClass::Finite) ==> (r.cls()
        == FloatClass::Finite && (r.sgn(), r.mant(), r.exp()) == finite_sum(a, b, r.prec(), mode))
}

/// The larger of two precisions.
fn max_precision(a: &BigFloat, b: &BigFloat) -> (r: u32)
    ensures
        r == max_prec(a, b),
        r > 0,
{
    proof {
        use_type_invariant(a);
        use_type_invariant(b);
        a.lemma_fields();
        b.lemma_fields();
    }
    if a.precision >= b.precision {
        a.precision
    } else {
        b.precision
    }
}

/// The IEEE 754 result of `a + b` when an operand is NaN or infinite.
fn nonfinite_add(a: &BigFloat, b: &BigFloat) -> (r: Option<BigFloat>)
    ensures
        r is None <==> (a.cls() == FloatClass::Finite && b.cls() == FloatClass::Finite),
        r matches Some(x) ==> add_result(a, b, RoundingMode::HalfEven, &x),
{
    let prec = max_precision(a, b);
    if a.is_nan() || b.is_nan() {
        return Some(BigFloat::nan(prec));
    }
    if a.is_infinite() && b.is_infinite() {
        if a.sign == b.sign {
            proof {
                a.lemma_fields();
                b.lemma_fields();
            }
            return Some(
                if a.sign == Sign::Negative {
                    BigFloat::neg_infinity(prec)
                } else {
                    BigFloat::infinity(prec)
                },
            );
        } else {
            proof {
                a.lemma_fields();
                b.lemma_fields();
            }
            return Some(BigFloat::nan(prec));
        }
    }
    if a.is_infinite() {
        proof {
            a.lemma_fields();
        }
        return Some(
            if a.sign == Sign::Negative {
                BigFloat::neg_infinity(prec)
            } else {
                BigFloat::infinity(prec)
            },
        );
    }
    if b.is_infinite() {
        proof {
            b.lemma_fields();
        }
        return Some(
            if b.sign == Sign::Negative {
                BigFloat::neg_infinity(prec)
            } else {
                BigFloat::infinity(prec)
            },
        );
    }
    None
}

/// Align two non-zero finite values to the smaller exponent: returns
/// `(common_exp, lhs_mantissa, rhs_mantissa)` with both values exact.
fn align_to_common_exp(a: &BigFloat, b: &BigFloat) -> (r: (i64, BigUint, BigUint))
    requires
        a.cls() == FloatClass::Finite,
        b.cls() == FloatClass::Finite,
        a.mant() > 0,
        b.mant() > 0,
        gap_ok(a, b),
    ensures
        r.0 == min_int(a.exp(), b.exp()),
        r.1@ == scaled(a.mant(), a.exp(), r.0 as int),
        r.2@ == scaled(b.mant(), b.exp(), r.0 as int),
{
    proof {
        a.lemma_fields();
        b.lemma_fields();
        vstd::arithmetic::power2::lemma2_to64();
    }
    if a.exponent == b.exponent {
        proof {
            lemma_scaled_at_min(a.mant(), a.exp(), b.mant(), b.exp());
            assert(a.mant() * pow2(0) == a.mant());
        }
        (a.exponent, a.mantissa.clone(), b.mantissa.clone())
    } else if a.exponent > b.exponent {
        let shift = (a.exponent - b.exponent) as u64;
        let lhs = a.mantissa.shl_bits(shift);
        proof {
            lemma_scaled_at_min(a.mant(), a.exp(), b.mant(), b.exp());
        }
        (b.exponent, lhs, b.mantissa.clone())
    } else {
        let shift = (b.exponent - a.exponent) as u64;
        let rhs = b.mantissa.shl_bits(shift);
        proof {
            lemma_scaled_at_min(b.mant(), b.exp(), a.mant(), a.exp());
        }
        (a.exponent, a.mantissa.clone(), rhs)
    }
}

/// Aligned magnitudes fit a mantissa.
proof fn lemma_aligned_fits(m: nat, k: nat, p: nat)
    requires
        m > 0,
        nat_bit_length(m) <= p,
        p <= u32::MAX,
        k <= 0x4000_0000_0000_0000,
    ensures
        nat_bit_length(m * pow2(k)) <= 0x4000_0001_0000_0000,
{
    lemma_bl_mul_pow2(m, k);
}

impl BigFloat {
    /// `self + other`, rounded to the larger precision with banker's rounding.
    pub fn add_ref(&self, other: &BigFloat) -> (r: BigFloat)
        requires
            gap_ok(self, other),
        ensures
            add_result(self, other, RoundingMode::HalfEven, &r),
    {
        self.add_ref_with_mode(other, RoundingMode::HalfEven)
    }

    /// `self + other`, rounded to the larger precision with `mode`.
    pub fn add_ref_with_mode(&self, other: &BigFloat, mode: RoundingMode) -> (r: BigFloat)
        requires
            gap_ok(self, other),
        ensures
            add_result(self, other, mode, &r),
    {
        // Non-finite fast-path: propagate NaN/Inf per IEEE 754.
        match nonfinite_add(self, other) {
            Some(result) => {
                return result;
            },
            None => {},
        }
        proof {
            use_type_invariant(self);
            use_type_invariant(other);
            self.lemma_fields();
            other.lemma_fields();
        }
        let target_prec = max_precision(self, other);
        if self.is_zero() {
            return other.clone().round_to_precision(target_prec, mode);
        }
        if other.is_zero() {
            return self.clone().round_to_precision(target_prec, mode);
        }
        // Step 1: align to the smaller exponent.
        let (common_exp, lhs_mag, rhs_mag) = align_to_common_exp(self, other);
        // Step 2: sign-aware add/sub of magnitudes.
        let (out_sign, out_mag) = if self.sign == other.sign {
            (self.sign, BigUint::add_ref(&lhs_mag, &rhs_mag))
        } else {
            if !lhs_mag.lt(&rhs_mag) {
                // |self| >= |other| -> sign of self.
                let diff = match lhs_mag.checked_sub(&rhs_mag) {
                    Some(d) => d,
                    None => BigUint::zero(),
                };
                (self.sign, diff)
            } else {
                let diff = match rhs_mag.checked_sub(&lhs_mag) {
                    Some(d) => d,
                    None => BigUint::zero(),
                };
                (other.sign, diff)
            }
        };
        proof {
            let lo = common_exp as int;
            if self.exp() >= other.exp() {
                lemma_aligned_fits(self.mant(), (self.exp() - lo) as nat, self.prec());
                lemma_scaled_at_min(self.mant(), self.exp(), other.mant(), other.exp());
                assert(nat_bit_length(rhs_mag@) <= u32::MAX);
            } else {
                lemma_aligned_fits(other.mant(), (other.exp() - lo) as nat, other.prec());
                lemma_scaled_at_min(other.mant(), other.exp(), self.mant(), self.exp());
                assert(min_int(other.exp(), self.exp()) == lo);
                assert(nat_bit_length(lhs_mag@) <= u32::MAX);
            }
            lemma_sum_fits(lhs_mag@, rhs_mag@);
        }
        // Step 3: land back at the canonical form at the target precision.
        BigFloat::from_parts(out_sign, out_mag, common_exp, target_prec, mode)
    }

    /// `self - other` at the larger precision, banker's rounding.
    pub fn sub_ref(&self, other: &BigFloat) -> (r: BigFloat)
        requires
            gap_ok(self, other),
        ensures
            sub_result(self, other, RoundingMode::HalfEven, &r),
    {
        self.sub_ref_with_mode(other, RoundingMode::HalfEven)
    }

    /// `self - other` at the larger precision with `mode`: the sum of `self`
    /// and the negation of `other`.
    pub fn sub_ref_with_mode(&self, other: &BigFloat, mode: RoundingMode) -> (r: BigFloat)
        requires
            gap_ok(self, other),
        ensures
            sub_result(self, other, mode, &r),
    {
        let n = other.neg();
        let r = self.add_ref_with_mode(&n, mode);
        proof {
            assert(is_negation(other, &n));
            assert(add_result(self, &n, mode, &r));
        }
        r
    }
}

/// The contract of `a - b`: `a + (-b)`, with `-b` as `neg` gives it.
pub open spec fn sub_result(a: &BigFloat, b: &BigFloat, mode: RoundingMode, r: &BigFloat) -> bool {
    exists|nb: BigFloat|
        #![trigger add_result(a, &nb, mode, r)]
        is_negation(b, &nb) && add_result(a, &nb, mode, r)
}

/// `nb` is `b` negated as `neg` does it.
pub open spec fn is_negation(b: &BigFloat, nb: &BigFloat) -> bool {
    &&& nb.cls() == b.cls()
    &&& nb.mant() == b.mant()
    &&& nb.exp() == b.exp()
    &&& nb.prec() == b.prec()
    &&& nb.sgn() == (if b.cls() == FloatClass::Nan || b.is_zero_spec() {
        b.sgn()
    } else {
        flip(b.sgn())
    })
}

/// A sum or difference of two aligned magnitudes fits a mantissa.
proof fn lemma_sum_fits(x: nat, y: nat)
    requires
        nat_bit_length(x) <= 0x4000_0001_0000_0000,
        nat_bit_length(y) <= 0x4000_0001_0000_0000,
    ensures
        mant_fits(x + y),
        x >= y ==> mant_fits((x - y) as nat),
        y >= x ==> mant_fits((y - x) as nat),
{
    crate::bits_spec::lemma_bit_length_bound(x);
    crate::bits_spec::lemma_bit_length_bound(y);
    let k = 0x4000_0001_0000_0000nat;
    let bx = nat_bit_length(x);
    let by = nat_bit_length(y);
    if bx < k {
        vstd::arithmetic::power2::lemma_pow2_strictly_increases(bx, k);
    }
    if by < k {
        vstd::arithmetic::power2::lemma_pow2_strictly_increases(by, k);
    }
    vstd::arithmetic::power2::lemma_pow2_unfold(k + 1);
    lemma_bl_at_most(x + y, k + 1);
    lemma_bl_at_most(x, k + 1);
    lemma_bl_at_most(y, k + 1);
    if x >= y {
        lemma_bl_at_most((x - y) as nat, k + 1);
    } else {
        lemma_bl_at_most((y - x) as nat, k + 1);
    }
}

/// A value below `2^k` has at most `k` bits.
proof fn lemma_bl_at_most(v: nat, k: nat)
    requires
        v < pow2(k),
    ensures
        nat_bit_length(v) <= k,
{
    crate::bits_spec::lemma_bit_length_bound(v);
    if v > 0 && nat_bit_length(v) > k {
        if k < (nat_bit_length(v) - 1) as nat {
            vstd::arithmetic::power2::lemma_pow2_strictly_increases(k, (nat_bit_length(v) - 1) as nat);
        }
    }
}

} // verus!
