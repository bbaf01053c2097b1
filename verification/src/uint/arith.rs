//! Addition, subtraction, multiplication and powers of `BigUint`.

use vstd::prelude::*;
use vstd::arithmetic::power::{pow, lemma_pow0, lemma_pow1, lemma_pow_adds, lemma_pow_multiplies};
use vstd::arithmetic::mul::{lemma_mul_is_associative, lemma_mul_is_commutative};

use crate::limbs::{
    base, lemma_base_is_pow2, lemma_limb_pow_adds, lemma_limb_pow_succ, lemma_val_bound,
    lemma_val_push, lemma_val_update, lemma_val_zeros, limb_pow, limbs_val,
};
use super::{BigUint, normalize};

verus! {

/// One limb of a ripple-carry addition: `x + y + c == s + B * c'`.
proof fn lemma_add_limb(x: u64, y: u64, c: u64, s1: u64, s2: u64)
    requires
        c <= 1,
        s1 == (if x + y > u64::MAX { (x + y - base()) as u64 } else { (x + y) as u64 }),
        s2 == (if s1 + c > u64::MAX { (s1 + c - base()) as u64 } else { (s1 + c) as u64 }),
    ensures
        !(s1 < x && s2 < s1),
        x + y + c == s2 + base() * (if s1 < x || s2 < s1 { 1nat } else { 0nat }),
{
}

/// One limb of a ripple-borrow subtraction: `x - y - c == d - B * c'`.
proof fn lemma_sub_limb(x: u64, y: u64, c: u64, d1: u64, d2: u64)
    requires
        c <= 1,
        d1 == (if x - y < 0 { (x - y + base()) as u64 } else { (x - y) as u64 }),
        d2 == (if d1 - c < 0 { (d1 - c + base()) as u64 } else { (d1 - c) as u64 }),
    ensures
        x - y - c == d2 - base() * (if x < y || d1 < c { 1int } else { 0int }),
        !(x < y && d1 < c),
{
}

/// The value of the first `i` limbs of `s`, reading missing limbs as zero.
pub open spec fn prefix_val(s: Seq<u64>, i: nat) -> nat {
    if i <= s.len() {
        limbs_val(s.take(i as int))
    } else {
        limbs_val(s)
    }
}

proof fn lemma_prefix_step(s: Seq<u64>, i: nat)
    ensures
        prefix_val(s, i + 1) == prefix_val(s, i) + (if i < s.len() { s[i as int] as nat } else {
            0nat
        }) * limb_pow(i),
{
    if i < s.len() {
        assert(s.take((i + 1) as int) =~= s.take(i as int).push(s[i as int]));
        lemma_val_push(s.take(i as int), s[i as int]);
    } else if i == s.len() {
        assert(s.take(i as int) =~= s);
    }
}

proof fn lemma_prefix_full(s: Seq<u64>)
    ensures
        prefix_val(s, s.len()) == limbs_val(s),
{
    assert(s.take(s.len() as int) =~= s);
}

impl BigUint {
    /// Add two `BigUint`s. Always succeeds.
    pub fn add_ref(a: &BigUint, b: &BigUint) -> (r: BigUint)
        ensures
            r@ == a@ + b@,
    {
        proof {
            use_type_invariant(a);
            use_type_invariant(b);
        }
        // Ensure `long` is the longer operand.
        let (long, short) = if a.limbs.len() >= b.limbs.len() {
            (a, b)
        } else {
            (b, a)
        };
        let n = long.limbs.len();
        let mut out: Vec<u64> = Vec::with_capacity(n);
        let mut carry: u64 = 0;
        let mut i: usize = 0;
        while i < n
            invariant
                n == long.limbs.len(),
                short.limbs.len() <= n,
                i <= n,
                out@.len() == i,
                carry <= 1,
                limbs_val(out@) + carry * limb_pow(i as nat) == prefix_val(long.limbs@, i as nat)
                    + prefix_val(short.limbs@, i as nat),
            decreases n - i,
        {
            let lv = long.limbs[i];
            let sv = if i < short.limbs.len() {
                short.limbs[i]
            } else {
                0
            };
            let s1 = lv.wrapping_add(sv);
            let s2 = s1.wrapping_add(carry);
            let c: u64 = if s1 < lv || s2 < s1 {
                1
            } else {
                0
            };
            proof {
                lemma_add_limb(lv, sv, carry, s1, s2);
                lemma_prefix_step(long.limbs@, i as nat);
                lemma_prefix_step(short.limbs@, i as nat);
                lemma_val_push(out@, s2);
                lemma_limb_pow_succ(i as nat);
                let p = limb_pow(i as nat);
                assert((s2 + base() * c) * p == s2 * p + c * (base() * p)) by (nonlinear_arith);
                assert((lv + sv + carry) * p == lv * p + sv * p + carry * p) by (nonlinear_arith);
            }
            out.push(s2);
            carry = c;
            i += 1;
        }
        proof {
            lemma_prefix_full(long.limbs@);
            assert(prefix_val(short.limbs@, n as nat) == limbs_val(short.limbs@)) by {
                if short.limbs.len() == n {
                    lemma_prefix_full(short.limbs@);
                }
            }
        }
        if carry != 0 {
            proof {
                lemma_val_push(out@, carry);
            }
            out.push(carry);
        }
        normalize(&mut out);
        BigUint { limbs: out }
    }

    /// `self < other` on values.
    pub fn lt(&self, other: &BigUint) -> (r: bool)
        ensures
            r == (self@ < other@),
    {
        match self.cmp(other) {
            core::cmp::Ordering::Less => true,
            _ => false,
        }
    }

    /// Compute `self - other` if `self >= other`; otherwise `None` (no underflow).
    pub fn checked_sub(&self, other: &BigUint) -> (r: Option<BigUint>)
        ensures
            match r {
                Some(d) => self@ >= other@ && d@ == self@ - other@,
                None => self@ < other@,
            },
    {
        proof {
            use_type_invariant(self);
            use_type_invariant(other);
        }
        if self.lt(other) {
            return None;
        }
        proof {
            if other.limbs.len() > self.limbs.len() {
                crate::limbs::lemma_longer_is_larger(other.limbs@, self.limbs@);
            }
        }
        let n = self.limbs.len();
        let mut out: Vec<u64> = Vec::with_capacity(n);
        let mut borrow: u64 = 0;
        let mut i: usize = 0;
        while i < n
            invariant
                n == self.limbs.len(),
                other.limbs.len() <= n,
                i <= n,
                out@.len() == i,
                borrow <= 1,
                limbs_val(out@) - borrow * limb_pow(i as nat) == prefix_val(self.limbs@, i as nat)
                    - prefix_val(other.limbs@, i as nat),
            decreases n - i,
        {
            let av = self.limbs[i];
            let bv = if i < other.limbs.len() {
                other.limbs[i]
            } else {
                0
            };
            let d1 = av.wrapping_sub(bv);
            let d2 = d1.wrapping_sub(borrow);
            let c: u64 = if av < bv || d1 < borrow {
                1
            } else {
                0
            };
            proof {
                lemma_sub_limb(av, bv, borrow, d1, d2);
                lemma_prefix_step(self.limbs@, i as nat);
                lemma_prefix_step(other.limbs@, i as nat);
                lemma_val_push(out@, d2);
                lemma_limb_pow_succ(i as nat);
                let p = limb_pow(i as nat);
                assert((d2 - base() * c) * p == d2 * p - c * (base() * p)) by (nonlinear_arith);
                assert((av - bv - borrow) * p == av * p - bv * p - borrow * p) by (nonlinear_arith);
            }
            out.push(d2);
            borrow = c;
            i += 1;
        }
        proof {
            lemma_prefix_full(self.limbs@);
            assert(prefix_val(other.limbs@, n as nat) == limbs_val(other.limbs@)) by {
                if other.limbs.len() == n {
                    lemma_prefix_full(other.limbs@);
                }
            }
            lemma_val_bound(out@);
            if borrow == 1 {
                assert(limbs_val(out@) - limb_pow(n as nat) < 0);
            }
        }
        normalize(&mut out);
        Some(BigUint { limbs: out })
    }

    /// Schoolbook product of two values.
    pub fn mul_ref(a: &BigUint, b: &BigUint) -> (r: BigUint)
        ensures
            r@ == a@ * b@,
    {
        proof {
            use_type_invariant(a);
            use_type_invariant(b);
        }
        let n = a.limbs.len();
        let m = b.limbs.len();
        if n == 0 || m == 0 {
            proof {
                assert(a@ == 0 || b@ == 0);
            }
            return BigUint::zero();
        }
        let mut out: Vec<u64> = vec![0u64; n];
        let mut z: usize = 0;
        while z < m
            invariant
                out@.len() == n + z,
                z <= m,
                forall|k: int| 0 <= k < out@.len() ==> out@[k] == 0,
            decreases m - z,
        {
            out.push(0);
            z += 1;
        }
        let total = out.len();
        assert(total == n + m);
        proof {
            assert(out@ =~= Seq::new((n + m) as nat, |k: int| 0u64));
            lemma_val_zeros((n + m) as nat);
            assert(a.limbs@.take(0) =~= Seq::<u64>::empty());
        }
        let mut i: usize = 0;
        while i < n
            invariant
                n == a.limbs.len(),
                m == b.limbs.len(),
                m > 0,
                i <= n,
                n + m <= usize::MAX,
                out@.len() == n + m,
                forall|k: int| i + m <= k < n + m ==> out@[k] == 0,
                limbs_val(out@) == limbs_val(a.limbs@.take(i as int)) * limbs_val(b.limbs@),
            decreases n - i,
        {
            let ai = a.limbs[i];
            let mut carry: u64 = 0;
            let mut j: usize = 0;
            proof {
                assert(b.limbs@.take(0) =~= Seq::<u64>::empty());
                assert(limbs_val(b.limbs@.take(0)) == 0);
                let v0 = limbs_val(b.limbs@.take(0));
                let pi = limb_pow(i as nat);
                assert(ai * v0 * pi == 0) by (nonlinear_arith)
                    requires
                        v0 == 0,
                ;
                assert((i + 0) as nat == i as nat);
            }
            while j < m
                invariant
                    n == a.limbs.len(),
                    m == b.limbs.len(),
                    i < n,
                    j <= m,
                    n + m <= usize::MAX,
                    ai == a.limbs@[i as int],
                    out@.len() == n + m,
                    forall|k: int| i + m <= k < n + m ==> out@[k] == 0,
                    limbs_val(out@) + carry * limb_pow((i + j) as nat) == limbs_val(
                        a.limbs@.take(i as int),
                    ) * limbs_val(b.limbs@) + ai * limbs_val(b.limbs@.take(j as int)) * limb_pow(
                        i as nat,
                    ),
                decreases m - j,
            {
                let bj = b.limbs[j];
                let o = out[i + j];
                assert((ai as u128) * (bj as u128) <= 0xffff_ffff_ffff_fffe_0000_0000_0000_0001u128)
                    by (nonlinear_arith)
                    requires
                        ai <= u64::MAX,
                        bj <= u64::MAX,
                ;
                let t: u128 = o as u128 + (ai as u128) * (bj as u128) + carry as u128;
                let lo = t as u64;
                let hi = (t >> 64u32) as u64;
                assert(t == lo as u128 + (hi as u128) * 0x1_0000_0000_0000_0000u128) by (bit_vector)
                    requires
                        lo == t as u64,
                        hi == (t >> 64u32) as u64,
                ;
                proof {
                    let ghost k = (i + j) as int;
                    lemma_val_update(out@, k, lo);
                    assert(b.limbs@.take(j + 1) =~= b.limbs@.take(j as int).push(bj));
                    lemma_val_push(b.limbs@.take(j as int), bj);
                    lemma_limb_pow_succ(k as nat);
                    lemma_limb_pow_adds(i as nat, j as nat);
                    lemma_base_is_pow2();
                    let p = limb_pow(k as nat);
                    let pi = limb_pow(i as nat);
                    let pj = limb_pow(j as nat);
                    let vb = limbs_val(b.limbs@.take(j as int));
                    assert(ai * (vb + bj * pj) * pi == ai * vb * pi + ai * bj * (pi * pj))
                        by (nonlinear_arith);
                    assert((lo + base() * hi) * p == lo * p + hi * (base() * p)) by (nonlinear_arith);
                    assert((o + ai * bj + carry) * p == o * p + ai * bj * p + carry * p)
                        by (nonlinear_arith);
                }
                out.set(i + j, lo);
                carry = hi;
                j += 1;
            }
            proof {
                assert(b.limbs@.take(m as int) =~= b.limbs@);
                lemma_val_update(out@, (i + m) as int, carry);
                assert(a.limbs@.take(i + 1) =~= a.limbs@.take(i as int).push(ai));
                lemma_val_push(a.limbs@.take(i as int), ai);
                let vb = limbs_val(b.limbs@);
                let va = limbs_val(a.limbs@.take(i as int));
                let pi = limb_pow(i as nat);
                assert((va + ai * pi) * vb == va * vb + ai * vb * pi) by (nonlinear_arith);
            }
            out.set(i + m, carry);
            i += 1;
        }
        proof {
            assert(a.limbs@.take(n as int) =~= a.limbs@);
        }
        normalize(&mut out);
        BigUint { limbs: out }
    }

    /// Raise this value to the `exp` power via binary (square-and-multiply)
    /// exponentiation. `self.pow(0) == 1` for every `self`, zero included.
    pub fn pow(&self, exp: u32) -> (r: BigUint)
        ensures
            r@ == pow(self@ as int, exp as nat),
    {
        if exp == 0 {
            proof {
                lemma_pow0(self@ as int);
            }
            return BigUint::one();
        }
        if self.is_zero() {
            proof {
                lemma_pow_zero_base(exp as nat);
            }
            return BigUint::zero();
        }
        if self.is_one() {
            proof {
                lemma_pow_one_base(exp as nat);
            }
            return BigUint::one();
        }
        let mut base = self.clone();
        let mut result = BigUint::one();
        let mut e = exp;
        proof {
            lemma_pow0(self@ as int);
            lemma_pow1(self@ as int);
        }
        while e > 0
            invariant
                result@ * pow(base@ as int, e as nat) == pow(self@ as int, exp as nat),
            decreases e,
        {
            proof {
                lemma_pow_halve(base@ as int, e as nat);
            }
            if e & 1 == 1 {
                assert(e % 2 == 1) by (bit_vector)
                    requires
                        e & 1 == 1,
                ;
                let ghost old_result = result@;
                result = BigUint::mul_ref(&result, &base);
                proof {
                    lemma_mul_is_associative(
                        old_result as int,
                        base@ as int,
                        pow((base@ * base@) as int, (e / 2) as nat),
                    );
                }
            } else {
                assert(e % 2 == 0) by (bit_vector)
                    requires
                        e & 1 != 1,
                ;
            }
            assert(e >> 1 == e / 2) by (bit_vector);
            e = e >> 1;
            if e > 0 {
                base = BigUint::mul_ref(&base, &base);
            } else {
                proof {
                    lemma_pow0((base@ * base@) as int);
                    lemma_pow0(base@ as int);
                }
            }
        }
        proof {
            lemma_pow0(base@ as int);
        }
        result
    }
}

proof fn lemma_pow_zero_base(e: nat)
    requires
        e > 0,
    ensures
        pow(0, e) == 0,
    decreases e,
{
    reveal(pow);
}

proof fn lemma_pow_one_base(e: nat)
    ensures
        pow(1, e) == 1,
    decreases e,
{
    reveal(pow);
    if e > 0 {
        lemma_pow_one_base((e - 1) as nat);
    }
}

/// `b^e == b^(e mod 2) * (b^2)^(e / 2)`.
proof fn lemma_pow_halve(b: int, e: nat)
    ensures
        pow(b, e) == (if e % 2 == 1 { b } else { 1 }) * pow(b * b, e / 2),
{
    lemma_pow_multiplies(b, 2, e / 2);
    reveal(pow);
    assert(pow(b, 2) == b * b) by {
        reveal(pow);
        lemma_pow1(b);
        assert(pow(b, 2) == b * pow(b, 1));
    }
    lemma_pow_adds(b, 2 * (e / 2), e % 2);
    assert(2 * (e / 2) + e % 2 == e);
    if e % 2 == 1 {
        lemma_pow1(b);
        lemma_mul_is_commutative(b, pow(b * b, e / 2));
    } else {
        lemma_pow0(b);
    }
}

} // verus!
