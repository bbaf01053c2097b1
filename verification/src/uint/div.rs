//! Quotient and remainder of `BigUint` by schoolbook binary long division.

use vstd::prelude::*;
use vstd::arithmetic::power2::{pow2, lemma_pow2_unfold, lemma_pow2_pos, lemma2_to64};
use vstd::arithmetic::div_mod::{
    lemma_div_denominator, lemma_fundamental_div_mod, lemma_mod_bound, lemma_basic_div,
    lemma_fundamental_div_mod_converse,
};

use crate::limbs::lemma_val_bound;
use crate::bits_spec::nat_bit;
use super::bits::{lemma_val_bit, lemma_u64_bit};
use super::BigUint;

verus! {

/// `x / 2^i == 2 (x / 2^(i+1)) + bit_i(x)`.
pub proof fn lemma_div_pow2_step(x: nat, i: nat)
    ensures
        x / pow2(i) == 2 * (x / pow2(i + 1)) + (if nat_bit(x, i) { 1nat } else { 0nat }),
{
    lemma_pow2_pos(i);
    lemma_pow2_unfold(i + 1);
    lemma_div_denominator(x as int, pow2(i) as int, 2);
    assert(pow2(i) * 2 == pow2(i + 1)) by (nonlinear_arith)
        requires
            pow2(i + 1) == 2 * pow2(i),
    ;
    let y = x / pow2(i);
    lemma_fundamental_div_mod(y as int, 2);
    lemma_mod_bound(y as int, 2);
}

/// One long-division step: from `P = q d + r` to `2P + c`.
proof fn lemma_div_step(p: nat, d: nat, c: nat)
    requires
        d > 0,
        c <= 1,
    ensures
        (2 * p + c) / d == 2 * (p / d) + (if 2 * (p % d) + c >= d { 1nat } else { 0nat }),
        (2 * p + c) % d == 2 * (p % d) + c - (if 2 * (p % d) + c >= d { d } else { 0 }),
{
    lemma_fundamental_div_mod(p as int, d as int);
    lemma_mod_bound(p as int, d as int);
    let q = p / d;
    let r = p % d;
    let ex: nat = if 2 * r + c >= d { 1 } else { 0 };
    let q2 = 2 * q + ex;
    let r2 = 2 * r + c - ex * d;
    assert(2 * p + c == q2 * d + r2) by (nonlinear_arith)
        requires
            p == d * q + r,
            q2 == 2 * q + ex,
            r2 == 2 * r + c - ex * d,
    ;
    lemma_fundamental_div_mod_converse((2 * p + c) as int, d as int, q2 as int, r2 as int);
}

impl BigUint {
    /// Quotient and remainder: `(self / d, self % d)`.
    pub fn div_rem(&self, d: &BigUint) -> (r: (BigUint, BigUint))
        requires
            d@ > 0,
        ensures
            r.0@ == self@ / d@,
            r.1@ == self@ % d@,
    {
        proof {
            use_type_invariant(self);
        }
        let len = self.limbs.len();
        let one = BigUint::one();
        let mut q = BigUint::zero();
        let mut rem = BigUint::zero();
        proof {
            lemma_val_bound(self.limbs@);
            lemma_pow2_pos(64 * len as nat);
            lemma_basic_div(self@ as int, pow2(64 * len as nat) as int);
            lemma_basic_div(0, d@ as int);
        }
        let mut k: usize = len;
        while k > 0
            invariant
                k <= len,
                len == self.limbs.len(),
                d@ > 0,
                one@ == 1,
                q@ == (self@ / pow2(64 * k as nat)) / d@,
                rem@ == (self@ / pow2(64 * k as nat)) % d@,
            decreases k,
        {
            let limb = self.limbs[k - 1];
            let mut b: u64 = 64;
            proof {
                assert(64 * (k - 1) as nat + 64 == 64 * k as nat);
            }
            while b > 0
                invariant
                    0 < k <= len,
                    len == self.limbs.len(),
                    limb == self.limbs@[k - 1],
                    b <= 64,
                    d@ > 0,
                    one@ == 1,
                    q@ == (self@ / pow2(64 * (k - 1) as nat + b as nat)) / d@,
                    rem@ == (self@ / pow2(64 * (k - 1) as nat + b as nat)) % d@,
                decreases b,
            {
                let i = b - 1;
                let bit = (limb >> i) & 1 == 1;
                let ghost pos: nat = 64 * (k - 1) as nat + i as nat;
                let ghost p = self@ / pow2(pos + 1);
                proof {
                    lemma_val_bit(self.limbs@, k - 1, i as nat);
                    lemma_u64_bit(limb, i);
                    lemma_div_pow2_step(self@, pos);
                    lemma_div_step(p, d@, if bit { 1nat } else { 0nat });
                    lemma_pow2_unfold(1);
                    lemma2_to64();
                }
                // rem = 2 rem + bit
                let mut r2 = rem.shl_bits(1);
                if bit {
                    r2 = BigUint::add_ref(&r2, &one);
                }
                let mut q2 = q.shl_bits(1);
                if !r2.lt(d) {
                    r2 = match r2.checked_sub(d) {
                        Some(x) => x,
                        None => r2,
                    };
                    q2 = BigUint::add_ref(&q2, &one);
                }
                rem = r2;
                q = q2;
                b = i;
            }
            k -= 1;
        }
        proof {
            lemma2_to64();
            assert(64 * 0nat == 0);
        }
        (q, rem)
    }
}

} // verus!
