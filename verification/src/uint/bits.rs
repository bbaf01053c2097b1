//! Bit-level queries and updates of `BigUint`: bit length, trailing zeros,
//! population count, and testing, setting and clearing single bits.

use vstd::prelude::*;
use vstd::arithmetic::power2::{
    pow2, lemma_pow2_adds, lemma_pow2_pos, lemma_pow2_strictly_increases, lemma2_to64,
};
use vstd::arithmetic::div_mod::{lemma_fundamental_div_mod, lemma_basic_div};
use vstd::bits::{lemma_u64_shr_is_div, lemma_u64_pow2_no_overflow, lemma_u64_shl_is_mul};
use vstd::std_specs::bits::{
    u64_leading_zeros, axiom_u64_leading_zeros, u64_trailing_zeros, axiom_u64_trailing_zeros,
};

use crate::limbs::{
    base, canonical, lemma_base_is_pow2, lemma_div_add_multiple, lemma_div_low_part,
    lemma_limb_pow_succ, lemma_val_bound, lemma_val_push, lemma_val_push_zero, lemma_val_split,
    lemma_val_update, lemma_val_zeros, limb_pow, limbs_val,
};
use crate::bits_spec::{
    nat_bit, nat_bit_length, nat_count_ones, nat_trailing_zeros, lemma_bit_length_char,
    lemma_bit_length_bound, lemma_count_ones_split, lemma_trailing_zeros_char,
};
use super::{BigUint, normalize};

verus! {

/// The bit length of `x` fits in a `u64` (the counters below are `u64`).
pub open spec fn bit_length_fits(x: nat) -> bool {
    nat_bit_length(x) <= u64::MAX
}

/// A number below `2^k` has at most `k` ones.
proof fn lemma_count_ones_below(v: nat, k: nat)
    requires
        v < pow2(k),
    ensures
        nat_count_ones(v) <= k,
    decreases k,
{
    if v > 0 {
        if k == 0 {
            assert(pow2(0) == 1) by {
                lemma2_to64();
            }
        } else {
            vstd::arithmetic::power2::lemma_pow2_unfold(k);
            lemma_count_ones_below(v / 2, (k - 1) as nat);
        }
    }
}

/// Population count of one limb, one bit at a time.
fn limb_count_ones(x: u64) -> (r: u32)
    ensures
        r as nat == nat_count_ones(x as nat),
{
    proof {
        lemma2_to64();
        vstd::arithmetic::power2::lemma2_to64_rest();
        lemma_count_ones_below(x as nat, 64);
    }
    let mut v: u64 = x;
    let mut c: u32 = 0;
    while v > 0
        invariant
            c as nat + nat_count_ones(v as nat) == nat_count_ones(x as nat),
            nat_count_ones(x as nat) <= 64,
        decreases v,
    {
        c = c + (v % 2) as u32;
        v = v / 2;
    }
    c
}

/// Limb `k` viewed inside the whole number.
pub proof fn lemma_val_limb(s: Seq<u64>, k: int)
    requires
        0 <= k < s.len(),
    ensures
        limbs_val(s) == limbs_val(s.take(k)) + limb_pow(k as nat) * (s[k] + base() * limbs_val(
            s.skip(k + 1),
        )),
        limbs_val(s.take(k)) < limb_pow(k as nat),
{
    lemma_val_split(s, k as nat);
    lemma_val_bound(s.take(k));
    let t = s.skip(k);
    assert(t.skip(1) =~= s.skip(k + 1));
    assert(t[0] == s[k]);
}

/// `2^(64 k + b) == 2^(64 k) * 2^b`.
proof fn lemma_pow2_limb_bit(k: nat, b: nat)
    ensures
        pow2(64 * k + b) == limb_pow(k) * pow2(b),
        pow2(64 * k + b) > 0,
{
    lemma_pow2_adds(64 * k, b);
    lemma_pow2_pos(64 * k + b);
}

/// Bit `64 k + b` of the number is bit `b` of limb `k`.
pub proof fn lemma_val_bit(s: Seq<u64>, k: int, b: nat)
    requires
        0 <= k < s.len(),
        b < 64,
    ensures
        nat_bit(limbs_val(s), 64 * (k as nat) + b) == nat_bit(s[k] as nat, b),
{
    lemma_val_limb(s, k);
    lemma_pow2_limb_bit(k as nat, b);
    lemma_limb_pow_succ(k as nat);
    let a = limbs_val(s.take(k));
    let d = limb_pow(k as nat);
    let r = limbs_val(s.skip(k + 1));
    let x = (s[k] + base() * r) as nat;
    lemma_pow2_pos(b);
    lemma_div_low_part(a, d, x, pow2(b));
    // x / 2^b == s[k] / 2^b + 2^(64 - b) r, and 2^(64-b) is even
    let q = pow2((64 - b) as nat);
    lemma_pow2_adds(b, (64 - b) as nat);
    lemma_base_is_pow2();
    assert(base() * r == pow2(b) * (q * r)) by (nonlinear_arith)
        requires
            base() == pow2(b) * q,
    ;
    lemma_div_add_multiple(s[k] as nat, pow2(b), q * r);
    lemma_pow2_adds(1, (63 - b) as nat);
    lemma2_to64();
    let h = pow2((63 - b) as nat);
    assert(q * r == 2 * (h * r)) by (nonlinear_arith)
        requires
            q == 2 * h,
    ;
    lemma_div_add_multiple((s[k] as nat) / pow2(b), 2, h * r);
}

/// Bits at or above `64 len` are clear.
pub proof fn lemma_val_bit_high(s: Seq<u64>, i: nat)
    requires
        i >= 64 * s.len(),
    ensures
        !nat_bit(limbs_val(s), i),
{
    lemma_val_bound(s);
    if i > 64 * s.len() {
        lemma_pow2_strictly_increases(64 * s.len(), i);
    }
    lemma_basic_div(limbs_val(s) as int, pow2(i) as int);
}

/// Testing a machine bit.
pub proof fn lemma_u64_bit(x: u64, b: u64)
    requires
        b < 64,
    ensures
        (((x >> b) & 1u64) == 1u64) == nat_bit(x as nat, b as nat),
        (((x >> b) & 1u64) == 0u64) == !nat_bit(x as nat, b as nat),
{
    lemma_u64_shr_is_div(x, b);
    let y = x >> b;
    assert((y & 1u64 == 1u64) == (y % 2 == 1)) by (bit_vector);
    assert((y & 1u64 == 0u64) == (y % 2 == 0)) by (bit_vector);
}

/// The bit-length of a limb from its leading-zero count.
proof fn lemma_top_limb_bits(top: u64)
    requires
        top != 0,
    ensures
        u64_leading_zeros(top) < 64,
        pow2((63 - u64_leading_zeros(top)) as nat) <= top,
        top < pow2((64 - u64_leading_zeros(top)) as nat),
{
    axiom_u64_leading_zeros(top);
    let lz = u64_leading_zeros(top);
    let t = (64 - lz) as u64;
    lemma_u64_shr_is_div(top, (t - 1) as u64);
    let y = top >> ((t - 1) as u64);
    assert(y & 1u64 != 0u64 ==> y >= 1) by (bit_vector);
    lemma_pow2_pos((t - 1) as nat);
    lemma_fundamental_div_mod(top as int, pow2((t - 1) as nat) as int);
    assert(top >= pow2((t - 1) as nat)) by (nonlinear_arith)
        requires
            top == pow2((t - 1) as nat) * (top as nat / pow2((t - 1) as nat)) + top as nat % pow2(
                (t - 1) as nat,
            ),
            top as nat / pow2((t - 1) as nat) >= 1,
            top as nat % pow2((t - 1) as nat) >= 0,
            pow2((t - 1) as nat) > 0,
    ;
    if t < 64 {
        lemma_u64_shr_is_div(top, t);
        lemma_pow2_pos(t as nat);
        lemma_fundamental_div_mod(top as int, pow2(t as nat) as int);
    } else {
        lemma2_to64();
    }
}

/// The low bits of a limb below its trailing-zero count are clear.
proof fn lemma_low_bits_clear(x: u64, t: u64)
    by (bit_vector)
    requires
        t < 64,
        x << ((64 - t) as u64) == 0,
    ensures
        x & (((1u64 << t) - 1u64) as u64) == 0,
{
}

/// A limb `x != 0` is `2^t` times an odd number, `t` its trailing zeros.
proof fn lemma_limb_trailing(x: u64)
    requires
        x != 0,
    ensures
        u64_trailing_zeros(x) < 64,
        (x as nat) % pow2(u64_trailing_zeros(x) as nat) == 0,
        ((x as nat) / pow2(u64_trailing_zeros(x) as nat)) % 2 == 1,
{
    axiom_u64_trailing_zeros(x);
    let t = u64_trailing_zeros(x) as u64;
    lemma_u64_bit(x, t);
    lemma_low_bits_clear(x, t);
    vstd::bits::lemma_low_bits_mask_values();
    lemma_u64_pow2_no_overflow(t as nat);
    lemma_u64_shl_is_mul(1, t);
    assert(vstd::bits::low_bits_mask(t as nat) == pow2(t as nat) - 1) by {
        reveal(vstd::bits::low_bits_mask);
    }
    vstd::bits::lemma_u64_low_bits_mask_is_mod(x, t as nat);
}

/// The count of ones never exceeds the bit length.
proof fn lemma_count_le_bit_length(v: nat)
    ensures
        nat_count_ones(v) <= nat_bit_length(v),
    decreases v,
{
    if v > 0 {
        lemma_count_le_bit_length(v / 2);
    }
}

/// A value at least `2^k` has more than `k` bits.
proof fn lemma_bit_length_above(v: nat, k: nat)
    requires
        pow2(k) <= v,
    ensures
        k < nat_bit_length(v),
{
    lemma_bit_length_bound(v);
    if nat_bit_length(v) <= k {
        if nat_bit_length(v) < k {
            lemma_pow2_strictly_increases(nat_bit_length(v), k);
        }
    }
}

impl BigUint {
    /// Returns the number of significant bits (`0` for zero).
    pub fn bit_length(&self) -> (r: u64)
        requires
            bit_length_fits(self@),
        ensures
            r == nat_bit_length(self@),
    {
        proof {
            use_type_invariant(self);
        }
        let len = self.limbs.len();
        if len == 0 {
            return 0;
        }
        let top = self.limbs[len - 1];
        let lz = top.leading_zeros();
        proof {
            let s = self.limbs@;
            let k = (len - 1) as nat;
            lemma_top_limb_bits(top);
            let t = (64 - lz) as nat;
            lemma_val_limb(s, k as int);
            assert(s.skip((k + 1) as int) =~= Seq::<u64>::empty());
            assert(limbs_val(Seq::<u64>::empty()) == 0);
            let a = limbs_val(s.take(k as int));
            let d = limb_pow(k);
            lemma_pow2_limb_bit(k, t);
            lemma_pow2_limb_bit(k, (t - 1) as nat);
            assert(d * pow2((t - 1) as nat) <= a + d * top) by (nonlinear_arith)
                requires
                    pow2((t - 1) as nat) <= top,
                    a >= 0,
                    d >= 0,
            ;
            assert(a + d * top < d * pow2(t)) by (nonlinear_arith)
                requires
                    top + 1 <= pow2(t),
                    a < d,
            ;
            assert(64 * k + t - 1 == 64 * k + (t - 1) as nat);
            lemma_bit_length_char(self@, 64 * k + t);
        }
        let n_limbs = len as u64;
        (n_limbs - 1) * 64 + (64 - lz as u64)
    }

    /// Returns the number of trailing zero bits (`0` for zero).
    pub fn trailing_zeros(&self) -> (r: u64)
        requires
            bit_length_fits(self@),
        ensures
            r == nat_trailing_zeros(self@),
    {
        proof {
            use_type_invariant(self);
        }
        let len = self.limbs.len();
        let mut i: usize = 0;
        while i < len
            invariant
                len == self.limbs.len(),
                i <= len,
                forall|j: int| 0 <= j < i ==> self.limbs@[j] == 0,
                bit_length_fits(self@),
                canonical(self.limbs@),
            decreases len - i,
        {
            let limb = self.limbs[i];
            if limb != 0 {
                let tz = limb.trailing_zeros();
                proof {
                    let s = self.limbs@;
                    let k = i as nat;
                    let t = tz as nat;
                    lemma_limb_trailing(limb);
                    lemma_val_limb(s, i as int);
                    assert(s.take(i as int) =~= Seq::new(k, |j: int| 0u64));
                    lemma_val_zeros(k);
                    let r = limbs_val(s.skip(i + 1));
                    let m = (limb as nat) / pow2(t);
                    lemma_pow2_pos(t);
                    lemma_fundamental_div_mod(limb as int, pow2(t) as int);
                    let q = pow2((64 - t) as nat);
                    lemma_pow2_adds(t, (64 - t) as nat);
                    lemma_base_is_pow2();
                    lemma_pow2_limb_bit(k, t);
                    let x = m + q * r;
                    assert(self@ == pow2(64 * k + t) * x) by (nonlinear_arith)
                        requires
                            self@ == 0 + limb_pow(k) * (limb + base() * r),
                            limb == pow2(t) * m,
                            base() == pow2(t) * q,
                            pow2(64 * k + t) == limb_pow(k) * pow2(t),
                            x == m + q * r,
                    ;
                    lemma_pow2_adds(1, (63 - t) as nat);
                    lemma2_to64();
                    let h = pow2((63 - t) as nat);
                    assert(q * r == 2 * (h * r)) by (nonlinear_arith)
                        requires
                            q == 2 * h,
                    ;
                    lemma_div_add_multiple(m, 2, h * r);
                    lemma_div_add_multiple(0, pow2(64 * k + t), x);
                    lemma_trailing_zeros_char(self@, 64 * k + t);
                    assert(pow2(64 * k + t) <= self@) by (nonlinear_arith)
                        requires
                            self@ == pow2(64 * k + t) * x,
                            x >= 1,
                    ;
                    lemma_bit_length_above(self@, 64 * k + t);
                }
                return (i as u64) * 64 + (tz as u64);
            }
            i += 1;
        }
        proof {
            if len > 0 {
                assert(self.limbs@.last() == self.limbs@[len - 1]);
            }
        }
        0
    }

    /// Returns the total count of set bits (population count).
    pub fn count_ones(&self) -> (r: u64)
        requires
            bit_length_fits(self@),
        ensures
            r == nat_count_ones(self@),
    {
        proof {
            use_type_invariant(self);
            lemma_count_le_bit_length(self@);
            assert(self.limbs@.take(0) =~= Seq::<u64>::empty());
            assert(limbs_val(Seq::<u64>::empty()) == 0);
        }
        let len = self.limbs.len();
        let mut total: u64 = 0;
        let mut i: usize = 0;
        while i < len
            invariant
                len == self.limbs.len(),
                i <= len,
                total == nat_count_ones(limbs_val(self.limbs@.take(i as int))),
                nat_count_ones(self@) <= u64::MAX,
            decreases len - i,
        {
            let limb = self.limbs[i];
            let c = limb_count_ones(limb);
            proof {
                let s = self.limbs@;
                assert(s.take(i + 1) =~= s.take(i as int).push(limb));
                lemma_val_push(s.take(i as int), limb);
                lemma_val_bound(s.take(i as int));
                lemma_count_ones_split(limbs_val(s.take(i as int)), limb as nat, 64 * (i as nat));
                assert(limb * limb_pow(i as nat) == pow2(64 * (i as nat)) * limb) by (nonlinear_arith)
                    requires
                        limb_pow(i as nat) == pow2(64 * (i as nat)),
                ;
                lemma_val_split(s, (i + 1) as nat);
                lemma_val_bound(s.take(i + 1));
                lemma_count_ones_split(
                    limbs_val(s.take(i + 1)),
                    limbs_val(s.skip(i + 1)),
                    64 * ((i + 1) as nat),
                );
            }
            total = total + c as u64;
            i += 1;
        }
        proof {
            assert(self.limbs@.take(len as int) =~= self.limbs@);
        }
        total
    }

    /// Returns the value of bit `index` (LSB-indexed).
    pub fn test_bit(&self, index: u64) -> (r: bool)
        ensures
            r == nat_bit(self@, index as nat),
    {
        proof {
            use_type_invariant(self);
        }
        let limb_idx = index / 64;
        let bit_idx = index % 64;
        if limb_idx >= self.limbs.len() as u64 {
            proof {
                lemma_val_bit_high(self.limbs@, index as nat);
            }
            return false;
        }
        let k = limb_idx as usize;
        proof {
            lemma_val_bit(self.limbs@, k as int, bit_idx as nat);
            lemma_u64_bit(self.limbs@[k as int], bit_idx);
        }
        (self.limbs[k] >> bit_idx) & 1 == 1
    }

    /// Sets bit `index` (LSB-indexed) to 1.
    pub fn set_bit(&mut self, index: u64)
        ensures
            final(self)@ == (if nat_bit(old(self)@, index as nat) {
                old(self)@
            } else {
                old(self)@ + pow2(index as nat)
            }),
    {
        proof {
            use_type_invariant(&*self);
        }
        let mut v: Vec<u64> = Vec::new();
        core::mem::swap(&mut v, &mut self.limbs);
        let limb_idx = index / 64;
        let bit_idx = index % 64;
        let ghost v0 = v@;
        while (v.len() as u64) <= limb_idx
            invariant
                limbs_val(v@) == limbs_val(v0),
                v@.len() >= v0.len(),
                forall|j: int| v0.len() <= j < v@.len() ==> v@[j] == 0,
                forall|j: int| 0 <= j < v0.len() ==> v@[j] == v0[j],
            decreases limb_idx + 1 - v.len(),
        {
            proof {
                lemma_val_push_zero(v@);
            }
            v.push(0);
        }
        let k = limb_idx as usize;
        let x = v[k];
        let mask = 1u64 << bit_idx;
        let nx = x | mask;
        proof {
            lemma_val_bit(v@, k as int, bit_idx as nat);
            lemma_u64_bit(x, bit_idx);
            assert(((x >> bit_idx) & 1u64) == 1u64 ==> x | (1u64 << bit_idx) == x) by (bit_vector)
                requires
                    bit_idx < 64,
            ;
            assert(((x >> bit_idx) & 1u64) == 0u64 ==> x | (1u64 << bit_idx) == x + (1u64
                << bit_idx)) by (bit_vector)
                requires
                    bit_idx < 64,
            ;
            lemma_u64_pow2_no_overflow(bit_idx as nat);
            lemma_u64_shl_is_mul(1, bit_idx);
            lemma_val_update(v@, k as int, nx);
            lemma_pow2_limb_bit(k as nat, bit_idx as nat);
            assert(64 * (k as nat) + bit_idx as nat == index);
            let p = limb_pow(k as nat);
            assert(mask * p == pow2(index as nat)) by (nonlinear_arith)
                requires
                    mask == pow2(bit_idx as nat),
                    pow2(index as nat) == p * pow2(bit_idx as nat),
            ;
            if !nat_bit(limbs_val(v@), index as nat) {
                assert(nx * p == x * p + mask * p) by (nonlinear_arith)
                    requires
                        nx == x + mask,
                ;
            }
        }
        v.set(k, nx);
        proof {
            assert(v@[k as int] != 0) by {
                assert(x | (1u64 << bit_idx) != 0) by (bit_vector)
                    requires
                        bit_idx < 64,
                ;
            }
        }
        normalize(&mut v);
        self.limbs = v;
    }

    /// Clears bit `index` (LSB-indexed).
    pub fn clear_bit(&mut self, index: u64)
        ensures
            final(self)@ == (if nat_bit(old(self)@, index as nat) {
                (old(self)@ - pow2(index as nat)) as nat
            } else {
                old(self)@
            }),
    {
        proof {
            use_type_invariant(&*self);
        }
        let limb_idx = index / 64;
        let bit_idx = index % 64;
        if limb_idx >= self.limbs.len() as u64 {
            proof {
                lemma_val_bit_high(self.limbs@, index as nat);
            }
            return;
        }
        let mut v: Vec<u64> = Vec::new();
        core::mem::swap(&mut v, &mut self.limbs);
        let k = limb_idx as usize;
        let x = v[k];
        let mask = 1u64 << bit_idx;
        let nx = x & !mask;
        proof {
            lemma_val_bit(v@, k as int, bit_idx as nat);
            lemma_u64_bit(x, bit_idx);
            assert(((x >> bit_idx) & 1u64) == 0u64 ==> x & !(1u64 << bit_idx) == x) by (bit_vector)
                requires
                    bit_idx < 64,
            ;
            assert(((x >> bit_idx) & 1u64) == 1u64 ==> x & !(1u64 << bit_idx) == x - (1u64
                << bit_idx)) by (bit_vector)
                requires
                    bit_idx < 64,
            ;
            lemma_u64_pow2_no_overflow(bit_idx as nat);
            lemma_u64_shl_is_mul(1, bit_idx);
            lemma_val_update(v@, k as int, nx);
            lemma_pow2_limb_bit(k as nat, bit_idx as nat);
            assert(64 * (k as nat) + bit_idx as nat == index);
            let p = limb_pow(k as nat);
            assert(mask * p == pow2(index as nat)) by (nonlinear_arith)
                requires
                    mask == pow2(bit_idx as nat),
                    pow2(index as nat) == p * pow2(bit_idx as nat),
            ;
            if nat_bit(limbs_val(v@), index as nat) {
                assert(x * p == nx * p + mask * p) by (nonlinear_arith)
                    requires
                        x == nx + mask,
                ;
            }
        }
        v.set(k, nx);
        normalize(&mut v);
        self.limbs = v;
    }
}

} // verus!
