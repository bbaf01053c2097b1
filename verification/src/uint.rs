//! `BigUint` — little-endian `Vec<u64>`-limb arbitrary-precision unsigned
//! integer.
//!
//! Invariant (a type invariant, so it holds of every value):
//!
//! - `limbs` is little-endian: `limbs[0]` is the least-significant limb.
//! - No trailing-zero limbs: the last limb, if any, is non-zero.
//! - Canonical zero: `limbs` is empty.
//!
//! The mathematical model of a `BigUint` is its value, a `nat` (`x@`).

use vstd::prelude::*;
use vstd::arithmetic::power2::*;
use core::cmp::Ordering;

mod arith;
mod shift;
pub mod bits;
pub mod bytes;
pub mod logic;
pub mod div;
mod ops;

use crate::limbs::{
    canonical, lemma_base_is_pow2, lemma_canonical_unique, lemma_limb_pow_mono,
    lemma_limb_pow_succ, lemma_longer_is_larger, lemma_val_bound, lemma_val_drop_last_zero,
    lemma_val_lower, lemma_val_push, lemma_val_split, limb_pow, limbs_val,
};

verus! {

/// Threshold (in limbs) above which Karatsuba multiplication pays off.
pub const KARATSUBA_THRESHOLD: usize = 32;

/// Native arbitrary-precision unsigned integer.
///
/// Stored as a little-endian `Vec<u64>` with no trailing-zero limbs.
#[derive(Hash, Debug)]
pub struct BigUint {
    limbs: Vec<u64>,
}

impl View for BigUint {
    type V = nat;

    closed spec fn view(&self) -> nat {
        limbs_val(self.limbs@)
    }
}

impl BigUint {
    #[verifier::type_invariant]
    closed spec fn inv(&self) -> bool {
        canonical(self.limbs@)
    }

    /// The limbs, least significant first (the canonical representation).
    pub closed spec fn limbs_seq(&self) -> Seq<u64> {
        self.limbs@
    }

    /// Construct a zero `BigUint`.
    pub fn zero() -> (r: BigUint)
        ensures
            r@ == 0,
            r.limbs_seq().len() == 0,
    {
        BigUint { limbs: Vec::new() }
    }

    /// Construct a `BigUint` equal to `1`.
    pub fn one() -> (r: BigUint)
        ensures
            r@ == 1,
    {
        let mut v: Vec<u64> = Vec::new();
        v.push(1);
        proof {
            lemma_val_push(Seq::<u64>::empty(), 1);
            assert(Seq::<u64>::empty().push(1) =~= v@);
            lemma_base_is_pow2();
        }
        BigUint { limbs: v }
    }

    /// Construct from a primitive `u64`.
    pub fn from_u64(value: u64) -> (r: BigUint)
        ensures
            r@ == value,
    {
        if value == 0 {
            Self::zero()
        } else {
            let mut v: Vec<u64> = Vec::new();
            v.push(value);
            proof {
                lemma_val_push(Seq::<u64>::empty(), value);
                assert(Seq::<u64>::empty().push(value) =~= v@);
                lemma_base_is_pow2();
            }
            BigUint { limbs: v }
        }
    }

    /// Construct from a primitive `u128`.
    pub fn from_u128(value: u128) -> (r: BigUint)
        ensures
            r@ == value,
    {
        let lo = value as u64;
        let hi = (value >> 64u32) as u64;
        assert(value == lo as u128 + (hi as u128) * 0x1_0000_0000_0000_0000u128) by (bit_vector)
            requires
                lo == value as u64,
                hi == (value >> 64u32) as u64,
        ;
        if hi == 0 {
            Self::from_u64(lo)
        } else {
            let mut v: Vec<u64> = Vec::new();
            v.push(lo);
            v.push(hi);
            proof {
                let e = Seq::<u64>::empty();
                lemma_val_push(e, lo);
                lemma_val_push(e.push(lo), hi);
                assert(e.push(lo).push(hi) =~= v@);
                lemma_base_is_pow2();
            }
            BigUint { limbs: v }
        }
    }

    /// Construct from a slice of little-endian limbs, stripping trailing
    /// zero limbs.
    pub fn from_le_limbs(limbs: &[u64]) -> (r: BigUint)
        ensures
            r@ == limbs_val(limbs@),
            r.limbs_seq() == limbs@.take(r.limbs_seq().len() as int),
    {
        let mut v: Vec<u64> = Vec::new();
        let mut i: usize = 0;
        while i < limbs.len()
            invariant
                i <= limbs.len(),
                v@ =~= limbs@.take(i as int),
            decreases limbs.len() - i,
        {
            v.push(limbs[i]);
            i += 1;
        }
        assert(limbs@.take(limbs.len() as int) =~= limbs@);
        normalize(&mut v);
        BigUint { limbs: v }
    }

    /// Returns the raw little-endian limbs (no trailing zeros).
    pub fn as_limbs(&self) -> (r: &[u64])
        ensures
            r@ == self.limbs_seq(),
            limbs_val(r@) == self@,
            canonical(r@),
    {
        proof {
            use_type_invariant(self);
        }
        self.limbs.as_slice()
    }

    /// Returns `true` if this value is zero.
    pub fn is_zero(&self) -> (r: bool)
        ensures
            r == (self@ == 0),
    {
        proof {
            use_type_invariant(self);
            if self.limbs.len() > 0 {
                lemma_val_lower(self.limbs@);
                lemma_limb_pow_succ((self.limbs.len() - 1) as nat);
            }
        }
        self.limbs.len() == 0
    }

    /// Returns `true` if this value is one.
    pub fn is_one(&self) -> (r: bool)
        ensures
            r == (self@ == 1),
    {
        proof {
            use_type_invariant(self);
            lemma_base_is_pow2();
            if self.limbs.len() == 1 {
                assert(self.limbs@.skip(1) =~= Seq::<u64>::empty());
                assert(limbs_val(Seq::<u64>::empty()) == 0);
                assert(self@ == self.limbs@[0]);
            } else if self.limbs.len() > 1 {
                lemma_val_lower(self.limbs@);
                lemma_limb_pow_mono(1, (self.limbs.len() - 1) as nat);
            }
        }
        self.limbs.len() == 1 && self.limbs[0] == 1
    }

    /// Try to convert to a `u64`, returning `None` on overflow.
    pub fn to_u64(&self) -> (r: Option<u64>)
        ensures
            r == (if self@ <= u64::MAX {
                Some(self@ as u64)
            } else {
                None::<u64>
            }),
    {
        proof {
            use_type_invariant(self);
            lemma_base_is_pow2();
            if self.limbs.len() == 1 {
                assert(self.limbs@.skip(1) =~= Seq::<u64>::empty());
                assert(limbs_val(Seq::<u64>::empty()) == 0);
                assert(self@ == self.limbs@[0]);
            } else if self.limbs.len() > 1 {
                lemma_val_lower(self.limbs@);
                lemma_limb_pow_mono(1, (self.limbs.len() - 1) as nat);
            }
        }
        if self.limbs.len() == 0 {
            Some(0)
        } else if self.limbs.len() == 1 {
            Some(self.limbs[0])
        } else {
            None
        }
    }

    /// Three-way comparison of the values.
    pub fn cmp(&self, other: &BigUint) -> (r: Ordering)
        ensures
            (r == Ordering::Less) == (self@ < other@),
            (r == Ordering::Equal) == (self@ == other@),
            (r == Ordering::Greater) == (self@ > other@),
    {
        proof {
            use_type_invariant(self);
            use_type_invariant(other);
        }
        let n = self.limbs.len();
        let m = other.limbs.len();
        if n < m {
            proof {
                lemma_longer_is_larger(other.limbs@, self.limbs@);
            }
            return Ordering::Less;
        }
        if n > m {
            proof {
                lemma_longer_is_larger(self.limbs@, other.limbs@);
            }
            return Ordering::Greater;
        }
        let mut i: usize = n;
        while i > 0
            invariant
                i <= n,
                n == self.limbs.len(),
                n == other.limbs.len(),
                forall|j: int| i <= j < n ==> self.limbs@[j] == other.limbs@[j],
            decreases i,
        {
            let a = self.limbs[i - 1];
            let b = other.limbs[i - 1];
            if a < b {
                proof {
                    lemma_val_first_difference(self.limbs@, other.limbs@, i - 1);
                }
                return Ordering::Less;
            }
            if a > b {
                proof {
                    lemma_val_first_difference(other.limbs@, self.limbs@, i - 1);
                }
                return Ordering::Greater;
            }
            i -= 1;
        }
        assert(self.limbs@ =~= other.limbs@);
        Ordering::Equal
    }

    /// Value equality, decided limb by limb.
    pub fn equals(&self, other: &BigUint) -> (r: bool)
        ensures
            r == (self@ == other@),
    {
        proof {
            use_type_invariant(self);
            use_type_invariant(other);
        }
        if self.limbs.len() != other.limbs.len() {
            proof {
                if self.limbs@ == other.limbs@ {
                    assert(self.limbs@.len() == other.limbs@.len());
                }
                if self@ == other@ {
                    lemma_canonical_unique(self.limbs@, other.limbs@);
                }
            }
            return false;
        }
        let mut i: usize = 0;
        while i < self.limbs.len()
            invariant
                i <= self.limbs.len(),
                self.limbs.len() == other.limbs.len(),
                forall|j: int| 0 <= j < i ==> self.limbs@[j] == other.limbs@[j],
                canonical(self.limbs@),
                canonical(other.limbs@),
            decreases self.limbs.len() - i,
        {
            if self.limbs[i] != other.limbs[i] {
                proof {
                    if self@ == other@ {
                        lemma_canonical_unique(self.limbs@, other.limbs@);
                    }
                }
                return false;
            }
            i += 1;
        }
        assert(self.limbs@ =~= other.limbs@);
        true
    }
}

/// Where two same-length sequences first differ from the top, the one with
/// the smaller limb is the smaller number.
pub proof fn lemma_val_first_difference(s: Seq<u64>, t: Seq<u64>, ki: int)
    requires
        s.len() == t.len(),
        0 <= ki < s.len(),
        s[ki] < t[ki],
        forall|j: int| ki < j < s.len() ==> s[j] == t[j],
    ensures
        limbs_val(s) < limbs_val(t),
{
    let k = ki as nat;
    let k1 = (k + 1) as nat;
    lemma_val_split(s, k1);
    lemma_val_split(t, k1);
    assert(s.skip(k1 as int) =~= t.skip(k1 as int));
    assert(s.take(k1 as int) =~= s.take(k as int).push(s[k as int]));
    assert(t.take(k1 as int) =~= t.take(k as int).push(t[k as int]));
    lemma_val_push(s.take(k as int), s[k as int]);
    lemma_val_push(t.take(k as int), t[k as int]);
    lemma_val_bound(s.take(k as int));
    let p = limb_pow(k);
    let a = limbs_val(s.take(k as int));
    assert(a + s[k as int] * p < t[k as int] * p) by (nonlinear_arith)
        requires
            a < p,
            s[k as int] < t[k as int],
    ;
}

/// Strip trailing-zero limbs. The canonical zero is an empty `Vec`.
pub fn normalize(limbs: &mut Vec<u64>)
    ensures
        canonical(final(limbs)@),
        limbs_val(final(limbs)@) == limbs_val(old(limbs)@),
        final(limbs)@ == old(limbs)@.take(final(limbs)@.len() as int),
        forall|j: int| final(limbs)@.len() <= j < old(limbs)@.len() ==> old(limbs)@[j] == 0,
{
    assert(old(limbs)@.take(old(limbs)@.len() as int) =~= old(limbs)@);
    while limbs.len() > 0 && limbs[limbs.len() - 1] == 0
        invariant
            limbs.len() <= old(limbs).len(),
            limbs_val(limbs@) == limbs_val(old(limbs)@),
            limbs@ == old(limbs)@.take(limbs@.len() as int),
            forall|j: int| limbs@.len() <= j < old(limbs)@.len() ==> old(limbs)@[j] == 0,
        decreases limbs.len(),
    {
        proof {
            lemma_val_drop_last_zero(limbs@);
        }
        let ghost before = limbs@;
        limbs.pop();
        assert(limbs@ =~= old(limbs)@.take(limbs@.len() as int)) by {
            assert(limbs@ =~= before.drop_last());
        }
    }
}

impl Clone for BigUint {
    fn clone(&self) -> (r: BigUint)
        ensures
            r@ == self@,
            r.limbs_seq() == self.limbs_seq(),
    {
        proof {
            use_type_invariant(self);
        }
        let v = self.limbs.clone();
        assert(v@ =~= self.limbs@);
        BigUint { limbs: v }
    }
}

} // verus!
