//! The term factors of the binary-splitting series for `exp`, `sin` and
//! `cos` at a rational argument `p/q`, and the extraction of that exact
//! rational from a `BigFloat`.
//!
//! * `exp(p/q) = Σ_{k≥0} (p/q)^k / k!` — term `k ≥ 1`: `(p, q·k, 1, 1)`.
//! * `sin(p/q) = Σ_{k≥0} (−1)^k (p/q)^(2k+1) / (2k+1)!` — term `k ≥ 1`:
//!   `(−p², q²·(2k)·(2k+1), 1, 1)`.
//! * `cos(p/q) = Σ_{k≥0} (−1)^k (p/q)^(2k) / (2k)!` — term `k ≥ 1`:
//!   `(−p², q²·(2k−1)·(2k), 1, 1)`.

use vstd::prelude::*;
use vstd::arithmetic::power2::pow2;

use crate::uint::BigUint;
use crate::bigint::{BigInt, signed};
use super::{BigFloat, Sign};
use super::decimal::{pos_part, neg_part};

verus! {

/// The series of `exp(p/q)`.
pub struct ExpSeries {
    pub p: BigInt,
    pub q: BigInt,
}

/// The series of `sin(p/q)`, with `p²` and `q²` precomputed.
pub struct SinSeries {
    pub p: BigInt,
    pub q: BigInt,
    pub p2: BigInt,
    pub q2: BigInt,
}

/// The series of `cos(p/q)`, with `p²` and `q²` precomputed.
pub struct CosSeries {
    pub p2: BigInt,
    pub q2: BigInt,
}

/// The four factors `(p_k, q_k, b_k, a_k)` of a term, as integers.
pub open spec fn factors(t: (BigInt, BigInt, BigInt, BigInt)) -> (int, int, int, int) {
    (t.0@, t.1@, t.2@, t.3@)
}

impl ExpSeries {
    /// Term `k`: `(1, 1, 1, 1)` for `k = 0`, else `(p, q·k, 1, 1)` (with `k`
    /// taken as an `i64`).
    pub fn term(&self, k: u64) -> (r: (BigInt, BigInt, BigInt, BigInt))
        ensures
            factors(r) == (if k == 0 {
                (1int, 1int, 1int, 1int)
            } else {
                (self.p@, self.q@ * (k as i64), 1int, 1int)
            }),
    {
        if k == 0 {
            return (BigInt::one(), BigInt::one(), BigInt::one(), BigInt::one());
        }
        let qk = BigInt::mul_ref(&self.q, &BigInt::from_i64(k as i64));
        (self.p.clone(), qk, BigInt::one(), BigInt::one())
    }
}

impl SinSeries {
    /// Term `k`: `(p, q, 1, 1)` for `k = 0`, else `(−p², q²·(2k)·(2k+1), 1, 1)`
    /// (with `2k` and `2k+1` taken as `i64`).
    pub fn term(&self, k: u64) -> (r: (BigInt, BigInt, BigInt, BigInt))
        requires
            2 * k + 1 <= u64::MAX,
        ensures
            factors(r) == (if k == 0 {
                (self.p@, self.q@, 1int, 1int)
            } else {
                (-self.p2@, self.q2@ * ((2 * k) as i64) * ((2 * k + 1) as i64), 1int, 1int)
            }),
    {
        if k == 0 {
            return (self.p.clone(), self.q.clone(), BigInt::one(), BigInt::one());
        }
        // Negate p² for the alternating sign.
        let neg_p2 = self.p2.neg_ref();
        let denom_k = BigInt::mul_ref(
            &BigInt::mul_ref(&self.q2, &BigInt::from_i64((2 * k) as i64)),
            &BigInt::from_i64((2 * k + 1) as i64),
        );
        (neg_p2, denom_k, BigInt::one(), BigInt::one())
    }
}

impl CosSeries {
    /// Term `k`: `(1, 1, 1, 1)` for `k = 0`, else `(−p², q²·(2k−1)·(2k), 1, 1)`
    /// (with `2k−1` and `2k` taken as `i64`).
    pub fn term(&self, k: u64) -> (r: (BigInt, BigInt, BigInt, BigInt))
        requires
            2 * k <= u64::MAX,
        ensures
            factors(r) == (if k == 0 {
                (1int, 1int, 1int, 1int)
            } else {
                (-self.p2@, self.q2@ * ((2 * k - 1) as i64) * ((2 * k) as i64), 1int, 1int)
            }),
    {
        if k == 0 {
            return (BigInt::one(), BigInt::one(), BigInt::one(), BigInt::one());
        }
        let neg_p2 = self.p2.neg_ref();
        let denom_k = BigInt::mul_ref(
            &BigInt::mul_ref(&self.q2, &BigInt::from_i64((2 * k - 1) as i64)),
            &BigInt::from_i64((2 * k) as i64),
        );
        (neg_p2, denom_k, BigInt::one(), BigInt::one())
    }
}

/// The exact rational `p/q` of `y = ±m·2^e`: `p = ±m·2^max(e,0)` and
/// `q = 2^max(-e,0)`.
pub fn split_arg(y: &BigFloat) -> (r: (BigInt, BigInt))
    requires
        y.exp() > i64::MIN,
    ensures
        r.0@ == signed(y.sgn(), y.mant() * pow2(pos_part(y.exp()))),
        r.1@ == pow2(neg_part(y.exp())) as int,
{
    proof {
        y.lemma_fields();
    }
    let m = y.mantissa().clone();
    let sign = y.sign();
    let e = y.exponent();
    if e >= 0 {
        let shifted = m.shl_bits(e as u64);
        let p = BigInt::from_parts(sign, shifted);
        let q = BigInt::one();
        proof {
            vstd::arithmetic::power2::lemma2_to64();
            assert(pos_part(e as int) == e as nat);
            assert(shifted@ == y.mant() * pow2(pos_part(y.exp())));
        }
        (p, q)
    } else {
        let p = BigInt::from_parts(sign, m);
        let neg_e = (-e) as u64;
        let q_mag = BigUint::one().shl_bits(neg_e);
        let q = BigInt::from_parts(Sign::Positive, q_mag);
        proof {
            vstd::arithmetic::power2::lemma2_to64();
            assert(pos_part(e as int) == 0);
            assert(y.mant() * pow2(0) == y.mant());
        }
        (p, q)
    }
}

} // verus!
