//! Equality and ordering of `BigFloat`, NaN-aware as in IEEE 754.

use vstd::prelude::*;
use core::cmp::Ordering;
use vstd::std_specs::cmp::{PartialEqSpecImpl, PartialOrdSpecImpl};

use crate::bits_spec::nat_bit_length;
use super::{BigFloat, FloatClass, Sign};
use super::spec::{
    finite_lt, mag_lt, mag_eq, sat, lemma_top_orders, lemma_scaled_at_min, signed_scaled, scaled,
    min_int,
};

verus! {

/// Position of the top bit of a non-zero finite value: `exponent +
/// bit_length - 1`, saturating.
fn top_bit(x: &BigFloat) -> (r: i64)
    requires
        x.cls() == FloatClass::Finite,
        x.mant() > 0,
    ensures
        r == sat(x.exp() + nat_bit_length(x.mant()) - 1),
{
    proof {
        use_type_invariant(x);
        x.lemma_fields();
    }
    let bits = x.mantissa.bit_length();
    super::sat_add(x.exponent, bits as i64 - 1)
}

/// The non-negative gap `a - b` between two exponents.
fn exponent_gap(a: i64, b: i64) -> (r: u64)
    requires
        b <= a,
        a - b <= u32::MAX + 1,
    ensures
        r == a - b,
{
    (a - b) as u64
}

/// Compare the magnitudes of two non-zero, normalized finite values: by top
/// bit position first, then by the mantissas at a common exponent.
pub(crate) fn cmp_magnitudes(a: &BigFloat, b: &BigFloat) -> (r: Ordering)
    requires
        a.cls() == FloatClass::Finite,
        b.cls() == FloatClass::Finite,
        a.mant() > 0,
        b.mant() > 0,
    ensures
        (r == Ordering::Less) == mag_lt(a.mant(), a.exp(), b.mant(), b.exp()),
        (r == Ordering::Equal) == mag_eq(a.mant(), a.exp(), b.mant(), b.exp()),
        (r == Ordering::Greater) == mag_lt(b.mant(), b.exp(), a.mant(), a.exp()),
{
    proof {
        use_type_invariant(a);
        use_type_invariant(b);
        a.lemma_fields();
        b.lemma_fields();
    }
    let top_a = top_bit(a);
    let top_b = top_bit(b);
    if top_a < top_b {
        proof {
            lemma_top_orders(a.mant(), a.exp(), b.mant(), b.exp());
        }
        return Ordering::Less;
    }
    if top_a > top_b {
        proof {
            lemma_top_orders(b.mant(), b.exp(), a.mant(), a.exp());
        }
        return Ordering::Greater;
    }
    // Same magnitude order — align to the smaller exponent.
    if a.exponent >= b.exponent {
        let shift = exponent_gap(a.exponent, b.exponent);
        let lhs = a.mantissa.shl_bits(shift);
        proof {
            lemma_scaled_at_min(a.mant(), a.exp(), b.mant(), b.exp());
        }
        lhs.cmp(&b.mantissa)
    } else {
        let shift = exponent_gap(b.exponent, a.exponent);
        let rhs = b.mantissa.shl_bits(shift);
        proof {
            lemma_scaled_at_min(b.mant(), b.exp(), a.mant(), a.exp());
        }
        a.mantissa.cmp(&rhs)
    }
}

/// `a < b` on the values of two finite `BigFloat`s.
pub open spec fn value_lt(a: &BigFloat, b: &BigFloat) -> bool {
    finite_lt(
        a.sgn() == Sign::Negative,
        a.mant(),
        a.exp(),
        b.sgn() == Sign::Negative,
        b.mant(),
        b.exp(),
    )
}

/// `a == b` on the values of two finite `BigFloat`s.
pub open spec fn value_eq(a: &BigFloat, b: &BigFloat) -> bool {
    signed_scaled(a.sgn() == Sign::Negative, a.mant(), a.exp(), min_int(a.exp(), b.exp()))
        == signed_scaled(b.sgn() == Sign::Negative, b.mant(), b.exp(), min_int(a.exp(), b.exp()))
}

/// The order of two finite values.
pub open spec fn finite_order(a: &BigFloat, b: &BigFloat) -> Ordering {
    if value_lt(a, b) {
        Ordering::Less
    } else if value_eq(a, b) {
        Ordering::Equal
    } else {
        Ordering::Greater
    }
}

/// Rank in the total order: `−∞`, finite, `+∞`, NaN.
pub open spec fn rank_spec(x: &BigFloat) -> nat {
    match x.cls() {
        FloatClass::Infinite => if x.sgn() == Sign::Negative {
            0
        } else {
            2
        },
        FloatClass::Finite => 1,
        FloatClass::Nan => 3,
    }
}

/// The IEEE partial order (`None` when a NaN is involved).
pub open spec fn partial_order(a: &BigFloat, b: &BigFloat) -> Option<Ordering> {
    if a.cls() == FloatClass::Nan || b.cls() == FloatClass::Nan {
        None
    } else if a.cls() == FloatClass::Finite && b.cls() == FloatClass::Finite {
        Some(finite_order(a, b))
    } else if rank_spec(a) < rank_spec(b) {
        Some(Ordering::Less)
    } else if rank_spec(a) == rank_spec(b) {
        Some(Ordering::Equal)
    } else {
        Some(Ordering::Greater)
    }
}

/// The total order used for sorting.
pub open spec fn total_order(a: &BigFloat, b: &BigFloat) -> Ordering {
    if rank_spec(a) < rank_spec(b) {
        Ordering::Less
    } else if rank_spec(a) > rank_spec(b) {
        Ordering::Greater
    } else if a.cls() == FloatClass::Finite {
        finite_order(a, b)
    } else {
        Ordering::Equal
    }
}

/// Field-wise equality: NaN equals nothing, infinities by sign, the zeros
/// are equal whatever their precision, other finite values by
/// `(sign, mantissa, exponent)`.
pub open spec fn fields_eq(a: &BigFloat, b: &BigFloat) -> bool {
    match (a.cls(), b.cls()) {
        (FloatClass::Nan, _) => false,
        (_, FloatClass::Nan) => false,
        (FloatClass::Infinite, FloatClass::Infinite) => a.sgn() == b.sgn(),
        (FloatClass::Infinite, _) => false,
        (_, FloatClass::Infinite) => false,
        _ => if a.mant() == 0 && b.mant() == 0 {
            true
        } else if (a.mant() == 0) != (b.mant() == 0) {
            false
        } else {
            a.sgn() == b.sgn() && a.exp() == b.exp() && a.mant() == b.mant()
        },
    }
}

proof fn lemma_scaled_zero(e: int, lo: int)
    ensures
        scaled(0, e, lo) == 0,
{
    assert(0 * vstd::arithmetic::power2::pow2((e - lo) as nat) == 0) by (nonlinear_arith);
}

proof fn lemma_scaled_pos(m: nat, e: int, lo: int)
    requires
        m > 0,
        e >= lo,
    ensures
        scaled(m, e, lo) > 0,
{
    super::spec::lemma_scaled_bounds(m, e, lo);
    vstd::arithmetic::power2::lemma_pow2_pos((e - lo + nat_bit_length(m) - 1) as nat);
}

impl BigFloat {
    /// Compare the values of two finite `BigFloat`s.
    pub(crate) fn cmp_finite(&self, other: &BigFloat) -> (r: Ordering)
        requires
            self.cls() == FloatClass::Finite,
            other.cls() == FloatClass::Finite,
        ensures
            r == finite_order(self, other),
    {
        proof {
            use_type_invariant(self);
            use_type_invariant(other);
            self.lemma_fields();
            other.lemma_fields();
            let lo = min_int(self.exp(), other.exp());
            if self.mant() == 0 {
                lemma_scaled_zero(self.exp(), lo);
            } else {
                lemma_scaled_pos(self.mant(), self.exp(), lo);
            }
            if other.mant() == 0 {
                lemma_scaled_zero(other.exp(), lo);
            } else {
                lemma_scaled_pos(other.mant(), other.exp(), lo);
            }
        }
        let a_zero = self.is_zero();
        let b_zero = other.is_zero();
        if a_zero && b_zero {
            return Ordering::Equal;
        }
        if a_zero {
            return if other.sign == Sign::Negative {
                Ordering::Greater
            } else {
                Ordering::Less
            };
        }
        if b_zero {
            return if self.sign == Sign::Negative {
                Ordering::Less
            } else {
                Ordering::Greater
            };
        }
        match (self.sign, other.sign) {
            (Sign::Positive, Sign::Negative) => Ordering::Greater,
            (Sign::Negative, Sign::Positive) => Ordering::Less,
            (Sign::Positive, Sign::Positive) => cmp_magnitudes(self, other),
            (Sign::Negative, Sign::Negative) => cmp_magnitudes(other, self),
        }
    }

    /// IEEE 754-style total order, suitable for sorting:
    /// `−Inf` < negative finite < zero < positive finite < `+Inf` < `NaN`.
    pub fn total_cmp(&self, other: &BigFloat) -> (r: Ordering)
        ensures
            r == total_order(self, other),
    {
        let ra = rank(self);
        let rb = rank(other);
        if ra < rb {
            return Ordering::Less;
        }
        if ra > rb {
            return Ordering::Greater;
        }
        match self.class {
            FloatClass::Finite => {
                proof {
                    self.lemma_fields();
                    other.lemma_fields();
                }
                self.cmp_finite(other)
            },
            _ => Ordering::Equal,
        }
    }
}

/// Rank in the total order: `−∞` 0, finite 1, `+∞` 2, NaN 3.
fn rank(x: &BigFloat) -> (r: u8)
    ensures
        r == rank_spec(x),
{
    proof {
        x.lemma_fields();
    }
    match x.class {
        FloatClass::Infinite => if x.sign == Sign::Negative {
            0
        } else {
            2
        },
        FloatClass::Finite => 1,
        FloatClass::Nan => 3,
    }
}

impl PartialEq for BigFloat {
    fn eq(&self, other: &BigFloat) -> (r: bool) {
        proof {
            use_type_invariant(self);
            use_type_invariant(other);
            self.lemma_fields();
            other.lemma_fields();
        }
        match (self.class, other.class) {
            (FloatClass::Nan, _) | (_, FloatClass::Nan) => false,
            (FloatClass::Infinite, FloatClass::Infinite) => self.sign == other.sign,
            (FloatClass::Infinite, _) | (_, FloatClass::Infinite) => false,
            (FloatClass::Finite, FloatClass::Finite) => {
                if self.is_zero() && other.is_zero() {
                    return true;
                }
                if self.is_zero() != other.is_zero() {
                    return false;
                }
                self.sign == other.sign && self.exponent == other.exponent
                    && self.mantissa.equals(&other.mantissa)
            },
        }
    }
}

impl PartialEqSpecImpl for BigFloat {
    open spec fn obeys_eq_spec() -> bool {
        true
    }

    open spec fn eq_spec(&self, other: &BigFloat) -> bool {
        fields_eq(self, other)
    }
}

impl PartialOrd for BigFloat {
    fn partial_cmp(&self, other: &BigFloat) -> (r: Option<Ordering>) {
        proof {
            self.lemma_fields();
            other.lemma_fields();
        }
        match (self.class, other.class) {
            (FloatClass::Nan, _) | (_, FloatClass::Nan) => None,
            (FloatClass::Infinite, FloatClass::Infinite) => Some(
                match (self.sign, other.sign) {
                    (Sign::Positive, Sign::Positive) | (Sign::Negative, Sign::Negative) => {
                        Ordering::Equal
                    },
                    (Sign::Negative, Sign::Positive) => Ordering::Less,
                    (Sign::Positive, Sign::Negative) => Ordering::Greater,
                },
            ),
            (FloatClass::Infinite, FloatClass::Finite) => Some(
                if self.sign == Sign::Negative {
                    Ordering::Less
                } else {
                    Ordering::Greater
                },
            ),
            (FloatClass::Finite, FloatClass::Infinite) => Some(
                if other.sign == Sign::Negative {
                    Ordering::Greater
                } else {
                    Ordering::Less
                },
            ),
            (FloatClass::Finite, FloatClass::Finite) => Some(self.cmp_finite(other)),
        }
    }
}

impl PartialOrdSpecImpl for BigFloat {
    open spec fn obeys_partial_cmp_spec() -> bool {
        true
    }

    open spec fn partial_cmp_spec(&self, other: &BigFloat) -> Option<Ordering> {
        partial_order(self, other)
    }
}

} // verus!
