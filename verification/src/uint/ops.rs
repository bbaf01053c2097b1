//! Comparison traits and operator overloads for `BigUint`.

use vstd::prelude::*;
use core::cmp::Ordering;
use core::ops::{Add, BitAnd, BitOr, BitXor, Shl, ShlAssign, Shr, ShrAssign};
use vstd::std_specs::cmp::{PartialEqSpecImpl, PartialOrdSpecImpl};
use vstd::std_specs::ops::{
    AddSpecImpl, BitAndSpecImpl, BitOrSpecImpl, BitXorSpecImpl, ShlSpecImpl, ShrSpecImpl,
};
use vstd::arithmetic::power2::pow2;

use crate::bits_spec::nat_bit;
use super::BigUint;

verus! {

impl PartialEq for BigUint {
    fn eq(&self, other: &BigUint) -> (r: bool) {
        self.equals(other)
    }
}

impl PartialEqSpecImpl for BigUint {
    open spec fn obeys_eq_spec() -> bool {
        true
    }

    open spec fn eq_spec(&self, other: &BigUint) -> bool {
        self@ == other@
    }
}

impl Eq for BigUint {
}

impl PartialOrd for BigUint {
    fn partial_cmp(&self, other: &BigUint) -> (r: Option<Ordering>) {
        Some(self.cmp(other))
    }
}

impl PartialOrdSpecImpl for BigUint {
    open spec fn obeys_partial_cmp_spec() -> bool {
        true
    }

    open spec fn partial_cmp_spec(&self, other: &BigUint) -> Option<Ordering> {
        if self@ < other@ {
            Some(Ordering::Less)
        } else if self@ == other@ {
            Some(Ordering::Equal)
        } else {
            Some(Ordering::Greater)
        }
    }
}

impl Default for BigUint {
    fn default() -> (r: BigUint)
        ensures
            r@ == 0,
    {
        BigUint::zero()
    }
}

impl<'a, 'b> BitAnd<&'b BigUint> for &'a BigUint {
    type Output = BigUint;

    fn bitand(self, rhs: &'b BigUint) -> (r: BigUint)
        ensures
            forall|i: nat| nat_bit(r@, i) == (nat_bit(self@, i) && nat_bit(rhs@, i)),
    {
        self.bitand_ref(rhs)
    }
}

impl<'a, 'b> BitAndSpecImpl<&'b BigUint> for &'a BigUint {
    open spec fn obeys_bitand_spec() -> bool {
        false
    }

    open spec fn bitand_req(self, rhs: &'b BigUint) -> bool {
        true
    }

    open spec fn bitand_spec(self, rhs: &'b BigUint) -> BigUint {
        arbitrary()
    }
}

impl BitAnd<BigUint> for BigUint {
    type Output = BigUint;

    fn bitand(self, rhs: BigUint) -> (r: BigUint)
        ensures
            forall|i: nat| nat_bit(r@, i) == (nat_bit(self@, i) && nat_bit(rhs@, i)),
    {
        (&self).bitand_ref(&rhs)
    }
}

impl BitAndSpecImpl<BigUint> for BigUint {
    open spec fn obeys_bitand_spec() -> bool {
        false
    }

    open spec fn bitand_req(self, rhs: BigUint) -> bool {
        true
    }

    open spec fn bitand_spec(self, rhs: BigUint) -> BigUint {
        arbitrary()
    }
}

impl<'b> BitAnd<&'b BigUint> for BigUint {
    type Output = BigUint;

    fn bitand(self, rhs: &'b BigUint) -> (r: BigUint)
        ensures
            forall|i: nat| nat_bit(r@, i) == (nat_bit(self@, i) && nat_bit(rhs@, i)),
    {
        (&self).bitand_ref(rhs)
    }
}

impl<'b> BitAndSpecImpl<&'b BigUint> for BigUint {
    open spec fn obeys_bitand_spec() -> bool {
        false
    }

    open spec fn bitand_req(self, rhs: &'b BigUint) -> bool {
        true
    }

    open spec fn bitand_spec(self, rhs: &'b BigUint) -> BigUint {
        arbitrary()
    }
}

impl<'a> BitAnd<BigUint> for &'a BigUint {
    type Output = BigUint;

    fn bitand(self, rhs: BigUint) -> (r: BigUint)
        ensures
            forall|i: nat| nat_bit(r@, i) == (nat_bit(self@, i) && nat_bit(rhs@, i)),
    {
        self.bitand_ref(&rhs)
    }
}

impl<'a> BitAndSpecImpl<BigUint> for &'a BigUint {
    open spec fn obeys_bitand_spec() -> bool {
        false
    }

    open spec fn bitand_req(self, rhs: BigUint) -> bool {
        true
    }

    open spec fn bitand_spec(self, rhs: BigUint) -> BigUint {
        arbitrary()
    }
}

impl<'a, 'b> BitOr<&'b BigUint> for &'a BigUint {
    type Output = BigUint;

    fn bitor(self, rhs: &'b BigUint) -> (r: BigUint)
        ensures
            forall|i: nat| nat_bit(r@, i) == (nat_bit(self@, i) || nat_bit(rhs@, i)),
    {
        self.bitor_ref(rhs)
    }
}

impl<'a, 'b> BitOrSpecImpl<&'b BigUint> for &'a BigUint {
    open spec fn obeys_bitor_spec() -> bool {
        false
    }

    open spec fn bitor_req(self, rhs: &'b BigUint) -> bool {
        true
    }

    open spec fn bitor_spec(self, rhs: &'b BigUint) -> BigUint {
        arbitrary()
    }
}

impl BitOr<BigUint> for BigUint {
    type Output = BigUint;

    fn bitor(self, rhs: BigUint) -> (r: BigUint)
        ensures
            forall|i: nat| nat_bit(r@, i) == (nat_bit(self@, i) || nat_bit(rhs@, i)),
    {
        (&self).bitor_ref(&rhs)
    }
}

impl BitOrSpecImpl<BigUint> for BigUint {
    open spec fn obeys_bitor_spec() -> bool {
        false
    }

    open spec fn bitor_req(self, rhs: BigUint) -> bool {
        true
    }

    open spec fn bitor_spec(self, rhs: BigUint) -> BigUint {
        arbitrary()
    }
}

impl<'b> BitOr<&'b BigUint> for BigUint {
    type Output = BigUint;

    fn bitor(self, rhs: &'b BigUint) -> (r: BigUint)
        ensures
            forall|i: nat| nat_bit(r@, i) == (nat_bit(self@, i) || nat_bit(rhs@, i)),
    {
        (&self).bitor_ref(rhs)
    }
}

impl<'b> BitOrSpecImpl<&'b BigUint> for BigUint {
    open spec fn obeys_bitor_spec() -> bool {
        false
    }

    open spec fn bitor_req(self, rhs: &'b BigUint) -> bool {
        true
    }

    open spec fn bitor_spec(self, rhs: &'b BigUint) -> BigUint {
        arbitrary()
    }
}

impl<'a> BitOr<BigUint> for &'a BigUint {
    type Output = BigUint;

    fn bitor(self, rhs: BigUint) -> (r: BigUint)
        ensures
            forall|i: nat| nat_bit(r@, i) == (nat_bit(self@, i) || nat_bit(rhs@, i)),
    {
        self.bitor_ref(&rhs)
    }
}

impl<'a> BitOrSpecImpl<BigUint> for &'a BigUint {
    open spec fn obeys_bitor_spec() -> bool {
        false
    }

    open spec fn bitor_req(self, rhs: BigUint) -> bool {
        true
    }

    open spec fn bitor_spec(self, rhs: BigUint) -> BigUint {
        arbitrary()
    }
}

impl<'a, 'b> BitXor<&'b BigUint> for &'a BigUint {
    type Output = BigUint;

    fn bitxor(self, rhs: &'b BigUint) -> (r: BigUint)
        ensures
            forall|i: nat| nat_bit(r@, i) == (nat_bit(self@, i) != nat_bit(rhs@, i)),
    {
        self.bitxor_ref(rhs)
    }
}

impl<'a, 'b> BitXorSpecImpl<&'b BigUint> for &'a BigUint {
    open spec fn obeys_bitxor_spec() -> bool {
        false
    }

    open spec fn bitxor_req(self, rhs: &'b BigUint) -> bool {
        true
    }

    open spec fn bitxor_spec(self, rhs: &'b BigUint) -> BigUint {
        arbitrary()
    }
}

impl BitXor<BigUint> for BigUint {
    type Output = BigUint;

    fn bitxor(self, rhs: BigUint) -> (r: BigUint)
        ensures
            forall|i: nat| nat_bit(r@, i) == (nat_bit(self@, i) != nat_bit(rhs@, i)),
    {
        (&self).bitxor_ref(&rhs)
    }
}

impl BitXorSpecImpl<BigUint> for BigUint {
    open spec fn obeys_bitxor_spec() -> bool {
        false
    }

    open spec fn bitxor_req(self, rhs: BigUint) -> bool {
        true
    }

    open spec fn bitxor_spec(self, rhs: BigUint) -> BigUint {
        arbitrary()
    }
}

impl<'b> BitXor<&'b BigUint> for BigUint {
    type Output = BigUint;

    fn bitxor(self, rhs: &'b BigUint) -> (r: BigUint)
        ensures
            forall|i: nat| nat_bit(r@, i) == (nat_bit(self@, i) != nat_bit(rhs@, i)),
    {
        (&self).bitxor_ref(rhs)
    }
}

impl<'b> BitXorSpecImpl<&'b BigUint> for BigUint {
    open spec fn obeys_bitxor_spec() -> bool {
        false
    }

    open spec fn bitxor_req(self, rhs: &'b BigUint) -> bool {
        true
    }

    open spec fn bitxor_spec(self, rhs: &'b BigUint) -> BigUint {
        arbitrary()
    }
}

impl<'a> BitXor<BigUint> for &'a BigUint {
    type Output = BigUint;

    fn bitxor(self, rhs: BigUint) -> (r: BigUint)
        ensures
            forall|i: nat| nat_bit(r@, i) == (nat_bit(self@, i) != nat_bit(rhs@, i)),
    {
        self.bitxor_ref(&rhs)
    }
}

impl<'a> BitXorSpecImpl<BigUint> for &'a BigUint {
    open spec fn obeys_bitxor_spec() -> bool {
        false
    }

    open spec fn bitxor_req(self, rhs: BigUint) -> bool {
        true
    }

    open spec fn bitxor_spec(self, rhs: BigUint) -> BigUint {
        arbitrary()
    }
}

impl<'a, 'b> Add<&'b BigUint> for &'a BigUint {
    type Output = BigUint;

    fn add(self, rhs: &'b BigUint) -> (r: BigUint)
        ensures
            r@ == self@ + rhs@,
    {
        BigUint::add_ref(self, rhs)
    }
}

impl<'a, 'b> AddSpecImpl<&'b BigUint> for &'a BigUint {
    open spec fn obeys_add_spec() -> bool {
        false
    }

    open spec fn add_req(self, rhs: &'b BigUint) -> bool {
        true
    }

    open spec fn add_spec(self, rhs: &'b BigUint) -> BigUint {
        arbitrary()
    }
}

impl Shl<u64> for BigUint {
    type Output = BigUint;

    fn shl(self, rhs: u64) -> (r: BigUint)
        ensures
            r@ == self@ * pow2(rhs as nat),
    {
        (&self).shl_bits(rhs)
    }
}

impl ShlSpecImpl<u64> for BigUint {
    open spec fn obeys_shl_spec() -> bool {
        false
    }

    open spec fn shl_req(self, rhs: u64) -> bool {
        true
    }

    open spec fn shl_spec(self, rhs: u64) -> BigUint {
        arbitrary()
    }
}

impl Shr<u64> for BigUint {
    type Output = BigUint;

    fn shr(self, rhs: u64) -> (r: BigUint)
        ensures
            r@ == self@ / pow2(rhs as nat),
    {
        (&self).shr_bits(rhs)
    }
}

impl ShrSpecImpl<u64> for BigUint {
    open spec fn obeys_shr_spec() -> bool {
        false
    }

    open spec fn shr_req(self, rhs: u64) -> bool {
        true
    }

    open spec fn shr_spec(self, rhs: u64) -> BigUint {
        arbitrary()
    }
}

impl<'a> Shl<u64> for &'a BigUint {
    type Output = BigUint;

    fn shl(self, rhs: u64) -> (r: BigUint)
        ensures
            r@ == self@ * pow2(rhs as nat),
    {
        self.shl_bits(rhs)
    }
}

impl<'a> ShlSpecImpl<u64> for &'a BigUint {
    open spec fn obeys_shl_spec() -> bool {
        false
    }

    open spec fn shl_req(self, rhs: u64) -> bool {
        true
    }

    open spec fn shl_spec(self, rhs: u64) -> BigUint {
        arbitrary()
    }
}

impl<'a> Shr<u64> for &'a BigUint {
    type Output = BigUint;

    fn shr(self, rhs: u64) -> (r: BigUint)
        ensures
            r@ == self@ / pow2(rhs as nat),
    {
        self.shr_bits(rhs)
    }
}

impl<'a> ShrSpecImpl<u64> for &'a BigUint {
    open spec fn obeys_shr_spec() -> bool {
        false
    }

    open spec fn shr_req(self, rhs: u64) -> bool {
        true
    }

    open spec fn shr_spec(self, rhs: u64) -> BigUint {
        arbitrary()
    }
}

impl ShlAssign<u64> for BigUint {
    fn shl_assign(&mut self, n: u64)
        ensures
            final(self)@ == old(self)@ * pow2(n as nat),
    {
        *self = self.shl_bits(n);
    }
}

impl ShrAssign<u64> for BigUint {
    fn shr_assign(&mut self, n: u64)
        ensures
            final(self)@ == old(self)@ / pow2(n as nat),
    {
        *self = self.shr_bits(n);
    }
}

} // verus!
