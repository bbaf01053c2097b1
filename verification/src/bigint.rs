//! `BigInt` — signed arbitrary-precision integer: a sign and a `BigUint`
//! magnitude, with a single (positive) zero.

use vstd::prelude::*;
use core::ops::{Add, Mul, Neg, Sub};
use vstd::std_specs::ops::{AddSpecImpl, MulSpecImpl, NegSpecImpl, SubSpecImpl};
use vstd::std_specs::cmp::PartialEqSpecImpl;
use vstd::std_specs::convert::FromSpecImpl;

use crate::uint::BigUint;
use crate::float::Sign;

verus! {

/// Signed arbitrary-precision integer.
#[derive(Debug)]
pub struct BigInt {
    sign: Sign,
    magnitude: BigUint,
}

impl View for BigInt {
    type V = int;

    closed spec fn view(&self) -> int {
        if self.sign == Sign::Negative {
            -(self.magnitude@ as int)
        } else {
            self.magnitude@ as int
        }
    }
}

/// The integer `±m`.
pub open spec fn signed(s: Sign, m: nat) -> int {
    if s == Sign::Negative {
        -(m as int)
    } else {
        m as int
    }
}

impl BigInt {
    #[verifier::type_invariant]
    closed spec fn inv(&self) -> bool {
        self.magnitude@ == 0 ==> self.sign == Sign::Positive
    }

    /// The sign (`Positive` for zero).
    pub closed spec fn sign_spec(&self) -> Sign {
        self.sign
    }

    /// The magnitude's value.
    pub closed spec fn mag_spec(&self) -> nat {
        self.magnitude@
    }

    /// Zero.
    pub fn zero() -> (r: BigInt)
        ensures
            r@ == 0,
            r.sign_spec() == Sign::Positive,
    {
        BigInt { sign: Sign::Positive, magnitude: BigUint::zero() }
    }

    /// One.
    pub fn one() -> (r: BigInt)
        ensures
            r@ == 1,
    {
        BigInt { sign: Sign::Positive, magnitude: BigUint::one() }
    }

    /// `±magnitude`; a zero magnitude gives the (positive) zero.
    pub fn from_parts(sign: Sign, magnitude: BigUint) -> (r: BigInt)
        ensures
            r@ == signed(sign, magnitude@),
            r.mag_spec() == magnitude@,
            r.sign_spec() == (if magnitude@ == 0 { Sign::Positive } else { sign }),
    {
        if magnitude.is_zero() {
            BigInt { sign: Sign::Positive, magnitude }
        } else {
            BigInt { sign, magnitude }
        }
    }

    /// From a primitive `i64`.
    pub fn from_i64(n: i64) -> (r: BigInt)
        ensures
            r@ == n,
    {
        if n < 0 {
            let mag = (0i128 - n as i128) as u64;
            BigInt::from_parts(Sign::Negative, BigUint::from_u64(mag))
        } else {
            BigInt::from_parts(Sign::Positive, BigUint::from_u64(n as u64))
        }
    }

    /// The sign (`Positive` for zero).
    pub fn sign(&self) -> (r: Sign)
        ensures
            r == self.sign_spec(),
            r == (if self@ < 0 { Sign::Negative } else { Sign::Positive }),
    {
        proof {
            use_type_invariant(self);
        }
        self.sign
    }

    /// The magnitude `|self|`.
    pub fn magnitude(&self) -> (r: &BigUint)
        ensures
            r@ == self.mag_spec(),
            r@ == (if self@ < 0 { -self@ } else { self@ }),
    {
        proof {
            use_type_invariant(self);
        }
        &self.magnitude
    }

    /// Returns `true` for zero.
    pub fn is_zero(&self) -> (r: bool)
        ensures
            r == (self@ == 0),
    {
        self.magnitude.is_zero()
    }

    /// Value equality.
    pub fn equals(&self, other: &BigInt) -> (r: bool)
        ensures
            r == (self@ == other@),
    {
        proof {
            use_type_invariant(self);
            use_type_invariant(other);
        }
        self.sign == other.sign && self.magnitude.equals(&other.magnitude)
    }

    /// The negation.
    pub fn neg_ref(&self) -> (r: BigInt)
        ensures
            r@ == -self@,
    {
        let s = match self.sign {
            Sign::Positive => Sign::Negative,
            Sign::Negative => Sign::Positive,
        };
        BigInt::from_parts(s, self.magnitude.clone())
    }

    /// The sum.
    pub fn add_ref(a: &BigInt, b: &BigInt) -> (r: BigInt)
        ensures
            r@ == a@ + b@,
    {
        if a.sign == b.sign {
            BigInt::from_parts(a.sign, BigUint::add_ref(&a.magnitude, &b.magnitude))
        } else if !a.magnitude.lt(&b.magnitude) {
            let d = match a.magnitude.checked_sub(&b.magnitude) {
                Some(d) => d,
                None => BigUint::zero(),
            };
            BigInt::from_parts(a.sign, d)
        } else {
            let d = match b.magnitude.checked_sub(&a.magnitude) {
                Some(d) => d,
                None => BigUint::zero(),
            };
            BigInt::from_parts(b.sign, d)
        }
    }

    /// The difference.
    pub fn sub_ref(a: &BigInt, b: &BigInt) -> (r: BigInt)
        ensures
            r@ == a@ - b@,
    {
        let nb = b.neg_ref();
        BigInt::add_ref(a, &nb)
    }

    /// The product.
    pub fn mul_ref(a: &BigInt, b: &BigInt) -> (r: BigInt)
        ensures
            r@ == a@ * b@,
    {
        let s = if a.sign == b.sign {
            Sign::Positive
        } else {
            Sign::Negative
        };
        let m = BigUint::mul_ref(&a.magnitude, &b.magnitude);
        proof {
            let x = a.magnitude@ as int;
            let y = b.magnitude@ as int;
            assert((-x) * (-y) == x * y) by (nonlinear_arith);
            assert((-x) * y == -(x * y)) by (nonlinear_arith);
            assert(x * (-y) == -(x * y)) by (nonlinear_arith);
        }
        BigInt::from_parts(s, m)
    }
}

impl Clone for BigInt {
    fn clone(&self) -> (r: BigInt)
        ensures
            r@ == self@,
    {
        proof {
            use_type_invariant(self);
        }
        BigInt { sign: self.sign, magnitude: self.magnitude.clone() }
    }
}

impl PartialEq for BigInt {
    fn eq(&self, other: &BigInt) -> (r: bool) {
        self.equals(other)
    }
}

impl PartialEqSpecImpl for BigInt {
    open spec fn obeys_eq_spec() -> bool {
        true
    }

    open spec fn eq_spec(&self, other: &BigInt) -> bool {
        self@ == other@
    }
}

impl Eq for BigInt {
}

impl From<i64> for BigInt {
    fn from(n: i64) -> (r: BigInt)
        ensures
            r@ == n,
    {
        BigInt::from_i64(n)
    }
}

impl FromSpecImpl<i64> for BigInt {
    open spec fn obeys_from_spec() -> bool {
        false
    }

    open spec fn from_spec(v: i64) -> BigInt {
        arbitrary()
    }
}

impl<'a, 'b> Add<&'b BigInt> for &'a BigInt {
    type Output = BigInt;

    fn add(self, rhs: &'b BigInt) -> (r: BigInt)
        ensures
            r@ == self@ + rhs@,
    {
        BigInt::add_ref(self, rhs)
    }
}

impl<'a, 'b> AddSpecImpl<&'b BigInt> for &'a BigInt {
    open spec fn obeys_add_spec() -> bool {
        false
    }

    open spec fn add_req(self, rhs: &'b BigInt) -> bool {
        true
    }

    open spec fn add_spec(self, rhs: &'b BigInt) -> BigInt {
        arbitrary()
    }
}

impl<'a, 'b> Sub<&'b BigInt> for &'a BigInt {
    type Output = BigInt;

    fn sub(self, rhs: &'b BigInt) -> (r: BigInt)
        ensures
            r@ == self@ - rhs@,
    {
        BigInt::sub_ref(self, rhs)
    }
}

impl<'a, 'b> SubSpecImpl<&'b BigInt> for &'a BigInt {
    open spec fn obeys_sub_spec() -> bool {
        false
    }

    open spec fn sub_req(self, rhs: &'b BigInt) -> bool {
        true
    }

    open spec fn sub_spec(self, rhs: &'b BigInt) -> BigInt {
        arbitrary()
    }
}

impl<'a, 'b> Mul<&'b BigInt> for &'a BigInt {
    type Output = BigInt;

    fn mul(self, rhs: &'b BigInt) -> (r: BigInt)
        ensures
            r@ == self@ * rhs@,
    {
        BigInt::mul_ref(self, rhs)
    }
}

impl<'a, 'b> MulSpecImpl<&'b BigInt> for &'a BigInt {
    open spec fn obeys_mul_spec() -> bool {
        false
    }

    open spec fn mul_req(self, rhs: &'b BigInt) -> bool {
        true
    }

    open spec fn mul_spec(self, rhs: &'b BigInt) -> BigInt {
        arbitrary()
    }
}

impl Neg for BigInt {
    type Output = BigInt;

    fn neg(self) -> (r: BigInt)
        ensures
            r@ == -self@,
    {
        self.neg_ref()
    }
}

impl NegSpecImpl for BigInt {
    open spec fn obeys_neg_spec() -> bool {
        false
    }

    open spec fn neg_req(self) -> bool {
        true
    }

    open spec fn neg_spec(self) -> BigInt {
        arbitrary()
    }
}

} // verus!
