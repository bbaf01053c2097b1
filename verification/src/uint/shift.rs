//! Logical shifts of `BigUint` by a bit count.

use vstd::prelude::*;
use vstd::arithmetic::power2::{pow2, lemma_pow2_adds, lemma_pow2_pos, lemma2_to64};
use vstd::arithmetic::div_mod::{lemma_fundamental_div_mod, lemma_basic_div};
use vstd::bits::{lemma_u64_shl_is_mul, lemma_u64_pow2_no_overflow, lemma_u64_shr_is_div};

use crate::limbs::{
    base, lemma_base_is_pow2, lemma_div_add_multiple, lemma_div_low_part, lemma_limb_pow_adds,
    lemma_limb_pow_mono, lemma_limb_pow_succ, lemma_val_bound, lemma_val_push, lemma_val_split,
    lemma_val_zeros, limb_pow, limbs_val,
};
use super::{BigUint, normalize};

verus! {

/// Shifting one limb left by `0 < b < 64` bits: the low word absorbs the
/// incoming carry and the high `b` bits become the outgoing carry.
proof fn lemma_shl_limb_bits(x: u64, c: u64, b: u64)
    by (bit_vector)
    requires
        0 < b < 64,
        c < (1u64 << b),
    ensures
        x * (1u64 << b) + c == ((x << b) | c) + (x >> ((64 - b) as u64)) * 0x1_0000_0000_0000_0000,
        (x >> ((64 - b) as u64)) < (1u64 << b),
{
}

/// One output limb of a right shift by `0 < b < 64` bits: the two parts
/// occupy disjoint bits.
proof fn lemma_shr_limb_bits(cur: u64, next: u64, b: u64)
    by (bit_vector)
    requires
        0 < b < 64,
    ensures
        ((cur >> b) | (next << ((64 - b) as u64))) == (cur >> b) + ((next & (((1u64 << b) - 1u64) as u64))
            << ((64 - b) as u64)),
        (next & (((1u64 << b) - 1u64) as u64)) < (1u64 << b),
{
}

/// The value of one output limb of a right shift.
proof fn lemma_shr_limb_value(cur: u64, next: u64, b: u64)
    requires
        0 < b < 64,
    ensures
        ((cur >> b) | (next << ((64 - b) as u64))) == (cur as nat) / pow2(b as nat) + ((next as nat)
            % pow2(b as nat)) * pow2((64 - b) as nat),
{
    lemma_shr_limb_bits(cur, next, b);
    lemma_u64_shr_is_div(cur, b);
    lemma_one_shl(b);
    let y = next & (((1u64 << b) - 1u64) as u64);
    vstd::bits::lemma_low_bits_mask_values();
    assert(vstd::bits::low_bits_mask(b as nat) == pow2(b as nat) - 1) by {
        reveal(vstd::bits::low_bits_mask);
    }
    vstd::bits::lemma_u64_low_bits_mask_is_mod(next, b as nat);
    assert(y == (next as nat) % pow2(b as nat));
    lemma_pow2_split_limb(b as nat);
    lemma_pow2_pos((64 - b) as nat);
    let p = pow2(b as nat);
    let q = pow2((64 - b) as nat);
    assert(y * q <= u64::MAX) by (nonlinear_arith)
        requires
            y < p,
            p * q == 0x1_0000_0000_0000_0000nat,
            q > 0,
    ;
    lemma_u64_shl_is_mul(y, (64 - b) as u64);
}

/// `1 << b == 2^b` for `b < 64`.
proof fn lemma_one_shl(b: u64)
    requires
        b < 64,
    ensures
        (1u64 << b) == pow2(b as nat),
{
    lemma_u64_pow2_no_overflow(b as nat);
    lemma_u64_shl_is_mul(1, b);
}

/// `2^b * 2^(64-b) == 2^64`.
proof fn lemma_pow2_split_limb(b: nat)
    requires
        b <= 64,
    ensures
        pow2(b) * pow2((64 - b) as nat) == base(),
{
    lemma_pow2_adds(b, (64 - b) as nat);
    lemma_base_is_pow2();
}

/// `2^n == 2^(64 (n / 64)) * 2^(n % 64)`.
proof fn lemma_pow2_limb_decompose(n: nat)
    ensures
        pow2(n) == limb_pow(n / 64) * pow2(n % 64),
{
    lemma_pow2_adds(64 * (n / 64), n % 64);
    assert(64 * (n / 64) + n % 64 == n);
}

/// The quotient of `r + B t` by `p` (with `B == p q`), spelled in limb terms.
proof fn lemma_shr_combine(r: nat, t: nat, p: nat, q: nat)
    requires
        p > 0,
        q > 0,
    ensures
        (r + (p * q) * t) / p == r / p + (t % p) * q + (p * q) * (t / p),
{
    lemma_fundamental_div_mod(t as int, p as int);
    let x = q * (t % p) + (p * q) * (t / p);
    assert((p * q) * t == p * x) by (nonlinear_arith)
        requires
            t == p * (t / p) + t % p,
            x == q * (t % p) + (p * q) * (t / p),
    ;
    lemma_div_add_multiple(r, p, x);
}

impl BigUint {
    /// Logical shift-left by `n` bits, returning a new `BigUint`.
    pub fn shl_bits(&self, n: u64) -> (r: BigUint)
        ensures
            r@ == self@ * pow2(n as nat),
    {
        proof {
            use_type_invariant(self);
        }
        if self.is_zero() || n == 0 {
            proof {
                lemma2_to64();
                let p = pow2(n as nat);
                if n == 0 {
                    assert(self@ * p == self@) by (nonlinear_arith)
                        requires
                            p == 1,
                    ;
                } else {
                    assert(self@ * p == self@) by (nonlinear_arith)
                        requires
                            self@ == 0,
                    ;
                }
            }
            return self.clone();
        }
        let limb_offset = n / 64;
        let bit_offset = n % 64;
        let len = self.limbs.len();
        let mut out: Vec<u64> = Vec::new();
        let mut z: u64 = 0;
        while z < limb_offset
            invariant
                out@.len() == z,
                z <= limb_offset,
                forall|k: int| 0 <= k < out@.len() ==> out@[k] == 0,
            decreases limb_offset - z,
        {
            out.push(0);
            z += 1;
        }
        proof {
            assert(out@ =~= Seq::new(limb_offset as nat, |k: int| 0u64));
            lemma_val_zeros(limb_offset as nat);
            lemma_pow2_limb_decompose(n as nat);
            assert(self.limbs@.take(0) =~= Seq::<u64>::empty());
            assert(limbs_val(Seq::<u64>::empty()) == 0);
        }
        if bit_offset == 0 {
            let mut i: usize = 0;
            while i < len
                invariant
                    len == self.limbs.len(),
                    i <= len,
                    out@.len() == limb_offset + i,
                    limbs_val(out@) == limb_pow(limb_offset as nat) * limbs_val(
                        self.limbs@.take(i as int),
                    ),
                decreases len - i,
            {
                let x = self.limbs[i];
                proof {
                    lemma_val_push(out@, x);
                    assert(self.limbs@.take(i + 1) =~= self.limbs@.take(i as int).push(x));
                    lemma_val_push(self.limbs@.take(i as int), x);
                    lemma_limb_pow_adds(limb_offset as nat, i as nat);
                    let po = limb_pow(limb_offset as nat);
                    let pi = limb_pow(i as nat);
                    let v = limbs_val(self.limbs@.take(i as int));
                    assert(po * (v + x * pi) == po * v + x * (po * pi)) by (nonlinear_arith);
                }
                out.push(x);
                i += 1;
            }
            proof {
                assert(self.limbs@.take(len as int) =~= self.limbs@);
                lemma2_to64();
                lemma_mul_one_right(limb_pow(limb_offset as nat));
                assert(self@ * (limb_pow(limb_offset as nat) * 1) == limb_pow(limb_offset as nat)
                    * self@) by (nonlinear_arith);
            }
        } else {
            let mut carry: u64 = 0;
            let mut i: usize = 0;
            proof {
                lemma_one_shl(bit_offset);
                lemma_pow2_pos(bit_offset as nat);
            }
            while i < len
                invariant
                    len == self.limbs.len(),
                    0 < bit_offset < 64,
                    (1u64 << bit_offset) == pow2(bit_offset as nat),
                    i <= len,
                    out@.len() == limb_offset + i,
                    carry < (1u64 << bit_offset),
                    limbs_val(out@) + carry * limb_pow((limb_offset + i) as nat) == pow2(
                        bit_offset as nat,
                    ) * limb_pow(limb_offset as nat) * limbs_val(self.limbs@.take(i as int)),
                decreases len - i,
            {
                let x = self.limbs[i];
                let lo = (x << bit_offset) | carry;
                let next_carry = x >> (64 - bit_offset);
                proof {
                    lemma_shl_limb_bits(x, carry, bit_offset);
                    lemma_base_is_pow2();
                    let k = (limb_offset + i) as nat;
                    lemma_val_push(out@, lo);
                    lemma_limb_pow_succ(k);
                    assert(self.limbs@.take(i + 1) =~= self.limbs@.take(i as int).push(x));
                    lemma_val_push(self.limbs@.take(i as int), x);
                    lemma_limb_pow_adds(limb_offset as nat, i as nat);
                    let p = pow2(bit_offset as nat);
                    let po = limb_pow(limb_offset as nat);
                    let pi = limb_pow(i as nat);
                    let pk = limb_pow(k);
                    let v = limbs_val(self.limbs@.take(i as int));
                    assert(lo * pk + next_carry * (base() * pk) == (x * p + carry) * pk)
                        by (nonlinear_arith)
                        requires
                            x * p + carry == lo + next_carry * base(),
                    ;
                    assert(p * po * (v + x * pi) == p * po * v + (x * p) * pk) by (nonlinear_arith)
                        requires
                            pk == po * pi,
                    ;
                    assert((x * p + carry) * pk == (x * p) * pk + carry * pk) by (nonlinear_arith);
                }
                out.push(lo);
                carry = next_carry;
                i += 1;
            }
            proof {
                assert(self.limbs@.take(len as int) =~= self.limbs@);
            }
            if carry != 0 {
                proof {
                    lemma_val_push(out@, carry);
                }
                out.push(carry);
            }
            proof {
                let p = pow2(bit_offset as nat);
                let po = limb_pow(limb_offset as nat);
                assert(self@ * (po * p) == p * po * self@) by (nonlinear_arith);
            }
        }
        normalize(&mut out);
        BigUint { limbs: out }
    }

    /// Logical shift-right by `n` bits, returning a new `BigUint`.
    pub fn shr_bits(&self, n: u64) -> (r: BigUint)
        ensures
            r@ == self@ / pow2(n as nat),
    {
        proof {
            use_type_invariant(self);
            lemma_pow2_pos(n as nat);
        }
        if self.is_zero() || n == 0 {
            proof {
                lemma2_to64();
                if self@ == 0 {
                    lemma_basic_div(0, pow2(n as nat) as int);
                } else {
                    assert(self@ / 1 == self@);
                }
            }
            return self.clone();
        }
        let bit_offset = n % 64;
        let len = self.limbs.len();
        proof {
            lemma_pow2_limb_decompose(n as nat);
            lemma_pow2_pos(bit_offset as nat);
        }
        if n / 64 >= len as u64 {
            let ghost limb_offset = n / 64;
            proof {
                lemma_val_bound(self.limbs@);
                lemma_limb_pow_mono(len as nat, limb_offset as nat);
                assert(limb_pow(limb_offset as nat) <= pow2(n as nat)) by (nonlinear_arith)
                    requires
                        pow2(n as nat) == limb_pow(limb_offset as nat) * pow2(bit_offset as nat),
                        pow2(bit_offset as nat) >= 1,
                ;
                lemma_basic_div(self@ as int, pow2(n as nat) as int);
            }
            return BigUint::zero();
        }
        let limb_offset = (n / 64) as usize;
        let rem_len = len - limb_offset;
        let mut out: Vec<u64> = Vec::with_capacity(rem_len);
        let ghost t0 = limbs_val(self.limbs@.skip(limb_offset as int));
        proof {
            lemma_val_split(self.limbs@, limb_offset as nat);
            lemma_val_bound(self.limbs@.take(limb_offset as int));
            lemma_div_low_part(
                limbs_val(self.limbs@.take(limb_offset as int)),
                limb_pow(limb_offset as nat),
                t0,
                pow2(bit_offset as nat),
            );
            assert(self.limbs@.skip(limb_offset as int).skip(0) =~= self.limbs@.skip(
                limb_offset as int,
            ));
            lemma_base_is_pow2();
        }
        if bit_offset == 0 {
            let mut i: usize = 0;
            while i < rem_len
                invariant
                    len == self.limbs.len(),
                    rem_len == len - limb_offset,
                    i <= rem_len,
                    out@ =~= self.limbs@.subrange(limb_offset as int, (limb_offset + i) as int),
                decreases rem_len - i,
            {
                out.push(self.limbs[limb_offset + i]);
                i += 1;
            }
            proof {
                assert(out@ =~= self.limbs@.skip(limb_offset as int));
                lemma2_to64();
                assert(t0 / 1 == t0);
            }
        } else {
            let mut i: usize = 0;
            proof {
                lemma_one_shl(bit_offset);
                lemma_one_shl((64 - bit_offset) as u64);
                lemma_pow2_split_limb(bit_offset as nat);
                lemma_pow2_pos((64 - bit_offset) as nat);
                lemma_limb_pow_succ(0);
                assert(limbs_val(Seq::<u64>::empty()) == 0);
                let tp = t0 / pow2(bit_offset as nat);
                assert(1 * tp == tp);
            }
            while i < rem_len
                invariant
                    len == self.limbs.len(),
                    rem_len == len - limb_offset,
                    0 < bit_offset < 64,
                    (1u64 << bit_offset) == pow2(bit_offset as nat),
                    (1u64 << ((64 - bit_offset) as u64)) == pow2((64 - bit_offset) as nat),
                    pow2(bit_offset as nat) * pow2((64 - bit_offset) as nat) == base(),
                    pow2(bit_offset as nat) > 0,
                    pow2((64 - bit_offset) as nat) > 0,
                    i <= rem_len,
                    out@.len() == i,
                    t0 == limbs_val(self.limbs@.skip(limb_offset as int)),
                    limbs_val(out@) + limb_pow(i as nat) * (limbs_val(
                        self.limbs@.skip((limb_offset + i) as int),
                    ) / pow2(bit_offset as nat)) == t0 / pow2(bit_offset as nat),
                decreases rem_len - i,
            {
                let cur = self.limbs[limb_offset + i];
                let next = if i + 1 < rem_len {
                    self.limbs[limb_offset + i + 1]
                } else {
                    0
                };
                let lo = (cur >> bit_offset) | (next << (64 - bit_offset));
                proof {
                    let p = pow2(bit_offset as nat);
                    let q = pow2((64 - bit_offset) as nat);
                    let si = self.limbs@.skip((limb_offset + i) as int);
                    let sj = self.limbs@.skip((limb_offset + i + 1) as int);
                    assert(si.skip(1) =~= sj);
                    assert(si[0] == cur);
                    let ti = limbs_val(si);
                    let tj = limbs_val(sj);
                    assert(ti == cur + base() * tj);
                    lemma_shr_limb_value(cur, next, bit_offset);
                    assert(lo == (cur as nat) / p + ((next as nat) % p) * q);
                    // the low bits of the remaining tail are those of `next`
                    assert(tj % p == (next as nat) % p) by {
                        if i + 1 < rem_len {
                            let sk = self.limbs@.skip((limb_offset + i + 2) as int);
                            assert(sj.skip(1) =~= sk);
                            assert(sj[0] == next);
                            assert(tj == next + base() * limbs_val(sk));
                            assert(base() * limbs_val(sk) == p * (q * limbs_val(sk)))
                                by (nonlinear_arith)
                                requires
                                    base() == p * q,
                            ;
                            lemma_div_add_multiple(next as nat, p, q * limbs_val(sk));
                        } else {
                            assert(sj =~= Seq::<u64>::empty());
                            lemma_basic_div(0, p as int);
                        }
                    }
                    lemma_shr_combine(cur as nat, tj, p, q);
                    assert(ti / p == lo + base() * (tj / p));
                    lemma_val_push(out@, lo);
                    lemma_limb_pow_succ(i as nat);
                    let pi = limb_pow(i as nat);
                    let w = tj / p;
                    let bb = base();
                    assert(pi * (lo + bb * w) == lo * pi + (bb * pi) * w) by (nonlinear_arith);
                }
                out.push(lo);
                i += 1;
            }
            proof {
                assert(self.limbs@.skip((limb_offset + rem_len) as int) =~= Seq::<u64>::empty());
                assert(limbs_val(Seq::<u64>::empty()) == 0);
                lemma_basic_div(0, pow2(bit_offset as nat) as int);
                assert(limb_pow(rem_len as nat) * 0 == 0);
            }
        }
        normalize(&mut out);
        BigUint { limbs: out }
    }
}

proof fn lemma_mul_one_right(x: nat)
    ensures
        x * 1 == x,
{
}

} // verus!
