//! The arithmetic operators `+`, `-`, `/` and unary `-` on `BigFloat`, by
//! reference and by value, and the compound assignments as methods. They round half to even at the larger operand precision and
//! follow IEEE 754 for NaN, the infinities and division by zero.

use vstd::prelude::*;
use vstd::std_specs::ops::{AddSpecImpl, SubSpecImpl, DivSpecImpl, NegSpecImpl};
use core::ops::{Add, Sub, Div, Neg};

use super::{BigFloat, RoundingMode};
use super::add::{gap_ok, add_result, sub_result, is_negation};
use super::div::{div_prec_ok, div_ieee_value, div_ieee};

verus! {

impl<'a, 'b> Add<&'b BigFloat> for &'a BigFloat {
    type Output = BigFloat;

    fn add(self, rhs: &'b BigFloat) -> (r: BigFloat)
        ensures
            add_result(self, rhs, RoundingMode::HalfEven, &r),
    {
        self.add_ref(rhs)
    }
}

impl<'a, 'b> AddSpecImpl<&'b BigFloat> for &'a BigFloat {
    open spec fn obeys_add_spec() -> bool {
        false
    }

    open spec fn add_req(self, rhs: &'b BigFloat) -> bool {
        gap_ok(self, rhs)
    }

    open spec fn add_spec(self, rhs: &'b BigFloat) -> BigFloat {
        arbitrary()
    }
}

impl Add<BigFloat> for BigFloat {
    type Output = BigFloat;

    fn add(self, rhs: BigFloat) -> (r: BigFloat)
        ensures
            add_result(&self, &rhs, RoundingMode::HalfEven, &r),
    {
        self.add_ref(&rhs)
    }
}

impl AddSpecImpl<BigFloat> for BigFloat {
    open spec fn obeys_add_spec() -> bool {
        false
    }

    open spec fn add_req(self, rhs: BigFloat) -> bool {
        gap_ok(&self, &rhs)
    }

    open spec fn add_spec(self, rhs: BigFloat) -> BigFloat {
        arbitrary()
    }
}

impl<'a, 'b> Sub<&'b BigFloat> for &'a BigFloat {
    type Output = BigFloat;

    fn sub(self, rhs: &'b BigFloat) -> (r: BigFloat)
        ensures
            sub_result(self, rhs, RoundingMode::HalfEven, &r),
    {
        self.sub_ref(rhs)
    }
}

impl<'a, 'b> SubSpecImpl<&'b BigFloat> for &'a BigFloat {
    open spec fn obeys_sub_spec() -> bool {
        false
    }

    open spec fn sub_req(self, rhs: &'b BigFloat) -> bool {
        gap_ok(self, rhs)
    }

    open spec fn sub_spec(self, rhs: &'b BigFloat) -> BigFloat {
        arbitrary()
    }
}

impl Sub<BigFloat> for BigFloat {
    type Output = BigFloat;

    fn sub(self, rhs: BigFloat) -> (r: BigFloat)
        ensures
            sub_result(&self, &rhs, RoundingMode::HalfEven, &r),
    {
        self.sub_ref(&rhs)
    }
}

impl SubSpecImpl<BigFloat> for BigFloat {
    open spec fn obeys_sub_spec() -> bool {
        false
    }

    open spec fn sub_req(self, rhs: BigFloat) -> bool {
        gap_ok(&self, &rhs)
    }

    open spec fn sub_spec(self, rhs: BigFloat) -> BigFloat {
        arbitrary()
    }
}

impl<'a, 'b> Div<&'b BigFloat> for &'a BigFloat {
    type Output = BigFloat;

    fn div(self, rhs: &'b BigFloat) -> (r: BigFloat)
        ensures
            div_ieee_value(self, rhs, &r),
    {
        div_ieee(self, rhs)
    }
}

impl<'a, 'b> DivSpecImpl<&'b BigFloat> for &'a BigFloat {
    open spec fn obeys_div_spec() -> bool {
        false
    }

    open spec fn div_req(self, rhs: &'b BigFloat) -> bool {
        div_prec_ok(self, rhs)
    }

    open spec fn div_spec(self, rhs: &'b BigFloat) -> BigFloat {
        arbitrary()
    }
}

impl Div<BigFloat> for BigFloat {
    type Output = BigFloat;

    fn div(self, rhs: BigFloat) -> (r: BigFloat)
        ensures
            div_ieee_value(&self, &rhs, &r),
    {
        div_ieee(&self, &rhs)
    }
}

impl DivSpecImpl<BigFloat> for BigFloat {
    open spec fn obeys_div_spec() -> bool {
        false
    }

    open spec fn div_req(self, rhs: BigFloat) -> bool {
        div_prec_ok(&self, &rhs)
    }

    open spec fn div_spec(self, rhs: BigFloat) -> BigFloat {
        arbitrary()
    }
}

impl<'b> Add<&'b BigFloat> for BigFloat {
    type Output = BigFloat;

    fn add(self, rhs: &'b BigFloat) -> (r: BigFloat)
        ensures
            add_result(&self, rhs, RoundingMode::HalfEven, &r),
    {
        (&self).add_ref(rhs)
    }
}

impl<'b> AddSpecImpl<&'b BigFloat> for BigFloat {
    open spec fn obeys_add_spec() -> bool {
        false
    }

    open spec fn add_req(self, rhs: &'b BigFloat) -> bool {
        gap_ok(&self, rhs)
    }

    open spec fn add_spec(self, rhs: &'b BigFloat) -> BigFloat {
        arbitrary()
    }
}

impl<'a> Add<BigFloat> for &'a BigFloat {
    type Output = BigFloat;

    fn add(self, rhs: BigFloat) -> (r: BigFloat)
        ensures
            add_result(self, &rhs, RoundingMode::HalfEven, &r),
    {
        self.add_ref(&rhs)
    }
}

impl<'a> AddSpecImpl<BigFloat> for &'a BigFloat {
    open spec fn obeys_add_spec() -> bool {
        false
    }

    open spec fn add_req(self, rhs: BigFloat) -> bool {
        gap_ok(self, &rhs)
    }

    open spec fn add_spec(self, rhs: BigFloat) -> BigFloat {
        arbitrary()
    }
}

impl<'b> Sub<&'b BigFloat> for BigFloat {
    type Output = BigFloat;

    fn sub(self, rhs: &'b BigFloat) -> (r: BigFloat)
        ensures
            sub_result(&self, rhs, RoundingMode::HalfEven, &r),
    {
        (&self).sub_ref(rhs)
    }
}

impl<'b> SubSpecImpl<&'b BigFloat> for BigFloat {
    open spec fn obeys_sub_spec() -> bool {
        false
    }

    open spec fn sub_req(self, rhs: &'b BigFloat) -> bool {
        gap_ok(&self, rhs)
    }

    open spec fn sub_spec(self, rhs: &'b BigFloat) -> BigFloat {
        arbitrary()
    }
}

impl<'a> Sub<BigFloat> for &'a BigFloat {
    type Output = BigFloat;

    fn sub(self, rhs: BigFloat) -> (r: BigFloat)
        ensures
            sub_result(self, &rhs, RoundingMode::HalfEven, &r),
    {
        self.sub_ref(&rhs)
    }
}

impl<'a> SubSpecImpl<BigFloat> for &'a BigFloat {
    open spec fn obeys_sub_spec() -> bool {
        false
    }

    open spec fn sub_req(self, rhs: BigFloat) -> bool {
        gap_ok(self, &rhs)
    }

    open spec fn sub_spec(self, rhs: BigFloat) -> BigFloat {
        arbitrary()
    }
}

impl<'b> Div<&'b BigFloat> for BigFloat {
    type Output = BigFloat;

    fn div(self, rhs: &'b BigFloat) -> (r: BigFloat)
        ensures
            div_ieee_value(&self, rhs, &r),
    {
        div_ieee(&self, rhs)
    }
}

impl<'b> DivSpecImpl<&'b BigFloat> for BigFloat {
    open spec fn obeys_div_spec() -> bool {
        false
    }

    open spec fn div_req(self, rhs: &'b BigFloat) -> bool {
        div_prec_ok(&self, rhs)
    }

    open spec fn div_spec(self, rhs: &'b BigFloat) -> BigFloat {
        arbitrary()
    }
}

impl<'a> Div<BigFloat> for &'a BigFloat {
    type Output = BigFloat;

    fn div(self, rhs: BigFloat) -> (r: BigFloat)
        ensures
            div_ieee_value(self, &rhs, &r),
    {
        div_ieee(self, &rhs)
    }
}

impl<'a> DivSpecImpl<BigFloat> for &'a BigFloat {
    open spec fn obeys_div_spec() -> bool {
        false
    }

    open spec fn div_req(self, rhs: BigFloat) -> bool {
        div_prec_ok(self, &rhs)
    }

    open spec fn div_spec(self, rhs: BigFloat) -> BigFloat {
        arbitrary()
    }
}

impl Neg for BigFloat {
    type Output = BigFloat;

    fn neg(self) -> (r: BigFloat)
        ensures
            is_negation(&self, &r),
    {
        BigFloat::neg(&self)
    }
}

impl NegSpecImpl for BigFloat {
    open spec fn obeys_neg_spec() -> bool {
        false
    }

    open spec fn neg_req(self) -> bool {
        true
    }

    open spec fn neg_spec(self) -> BigFloat {
        arbitrary()
    }
}

impl<'a> Neg for &'a BigFloat {
    type Output = BigFloat;

    fn neg(self) -> (r: BigFloat)
        ensures
            is_negation(self, &r),
    {
        BigFloat::neg(self)
    }
}

impl<'a> NegSpecImpl for &'a BigFloat {
    open spec fn obeys_neg_spec() -> bool {
        false
    }

    open spec fn neg_req(self) -> bool {
        true
    }

    open spec fn neg_spec(self) -> BigFloat {
        arbitrary()
    }
}

impl BigFloat {
    /// `self += rhs` (the compound assignment `+=`, rounding half to even).
    pub fn add_assign(&mut self, rhs: &BigFloat)
        requires
            gap_ok(old(self), rhs),
        ensures
            add_result(old(self), rhs, RoundingMode::HalfEven, final(self)),
    {
        *self = self.add_ref(rhs);
    }

    /// `self -= rhs` (the compound assignment `-=`, rounding half to even).
    pub fn sub_assign(&mut self, rhs: &BigFloat)
        requires
            gap_ok(old(self), rhs),
        ensures
            sub_result(old(self), rhs, RoundingMode::HalfEven, final(self)),
    {
        *self = self.sub_ref(rhs);
    }

    /// `self /= rhs` (the compound assignment `/=`, IEEE 754 for every
    /// operand).
    pub fn div_assign(&mut self, rhs: &BigFloat)
        requires
            div_prec_ok(old(self), rhs),
        ensures
            div_ieee_value(old(self), rhs, final(self)),
    {
        *self = div_ieee(self, rhs);
    }
}

} // verus!
