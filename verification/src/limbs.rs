//! The mathematics of little-endian limb sequences: the value a sequence of
//! 64-bit limbs stands for, the canonical (no trailing zero) form, and the
//! lemmas that the executable limb loops rest on.

use vstd::prelude::*;
use vstd::arithmetic::power2::*;
use vstd::arithmetic::mul::*;
use vstd::arithmetic::div_mod::*;

verus! {

/// The limb radix, `2^64`.
pub open spec fn base() -> nat {
    0x1_0000_0000_0000_0000nat
}

/// `2^(64 k)`: the place value of limb `k`.
pub open spec fn limb_pow(k: nat) -> nat {
    pow2(64 * k)
}

/// The number a little-endian limb sequence stands for.
pub open spec fn limbs_val(s: Seq<u64>) -> nat
    decreases s.len(),
{
    if s.len() == 0 {
        0
    } else {
        s[0] as nat + base() * limbs_val(s.skip(1))
    }
}

/// A limb sequence is canonical when it has no most-significant zero limb;
/// the empty sequence is the canonical zero.
pub open spec fn canonical(s: Seq<u64>) -> bool {
    s.len() == 0 || s.last() != 0
}

pub proof fn lemma_base_is_pow2()
    ensures
        pow2(64) == base(),
        limb_pow(0) == 1,
        limb_pow(1) == base(),
{
    lemma2_to64();
    assert(64 * 0nat == 0);
    assert(64 * 1nat == 64);
}

pub proof fn lemma_limb_pow_succ(k: nat)
    ensures
        limb_pow(k + 1) == base() * limb_pow(k),
        limb_pow(k) > 0,
{
    lemma_base_is_pow2();
    lemma_pow2_adds(64 * k, 64);
    assert(64 * (k + 1) == 64 * k + 64);
    lemma_pow2_pos(64 * k);
    lemma_mul_is_commutative(pow2(64 * k) as int, pow2(64) as int);
}

pub proof fn lemma_limb_pow_adds(a: nat, b: nat)
    ensures
        limb_pow(a + b) == limb_pow(a) * limb_pow(b),
{
    lemma_pow2_adds(64 * a, 64 * b);
    assert(64 * (a + b) == 64 * a + 64 * b) by (nonlinear_arith);
}

pub proof fn lemma_limb_pow_mono(a: nat, b: nat)
    requires
        a <= b,
    ensures
        limb_pow(a) <= limb_pow(b),
{
    if a < b {
        assert(64 * a < 64 * b) by (nonlinear_arith)
            requires
                a < b,
        ;
        lemma_pow2_strictly_increases(64 * a, 64 * b);
    }
}

/// Appending a limb adds it at the next place value.
pub proof fn lemma_val_push(s: Seq<u64>, x: u64)
    ensures
        limbs_val(s.push(x)) == limbs_val(s) + x * limb_pow(s.len()),
    decreases s.len(),
{
    lemma_base_is_pow2();
    if s.len() == 0 {
        assert(s.push(x).skip(1) =~= Seq::<u64>::empty());
        assert(limbs_val(Seq::<u64>::empty()) == 0);
    } else {
        let t = s.skip(1);
        assert(s.push(x).skip(1) =~= t.push(x));
        lemma_val_push(t, x);
        lemma_limb_pow_succ(t.len());
        let p = limb_pow(t.len());
        assert(base() * (limbs_val(t) + x * p) == base() * limbs_val(t) + x * (base() * p))
            by (nonlinear_arith);
    }
}

/// A sequence of `n` limbs is below `2^(64 n)`.
pub proof fn lemma_val_bound(s: Seq<u64>)
    ensures
        limbs_val(s) < limb_pow(s.len()),
    decreases s.len(),
{
    lemma_base_is_pow2();
    if s.len() > 0 {
        let t = s.skip(1);
        lemma_val_bound(t);
        lemma_limb_pow_succ(t.len());
        let v = limbs_val(t);
        let p = limb_pow(t.len());
        assert(s[0] as nat + base() * v < base() * p) by (nonlinear_arith)
            requires
                s[0] < base(),
                v < p,
                v >= 0,
        ;
    }
}

/// A canonical non-empty sequence is at least `2^(64 (n-1))`.
pub proof fn lemma_val_lower(s: Seq<u64>)
    requires
        s.len() > 0,
        s.last() != 0,
    ensures
        limbs_val(s) >= limb_pow((s.len() - 1) as nat),
    decreases s.len(),
{
    lemma_base_is_pow2();
    let t = s.skip(1);
    if s.len() == 1 {
        assert(s.last() == s[0]);
    } else {
        assert(t.last() == s.last());
        lemma_val_lower(t);
        lemma_limb_pow_succ((t.len() - 1) as nat);
        assert(base() * limbs_val(t) >= base() * limb_pow((t.len() - 1) as nat)) by (nonlinear_arith)
            requires
                limbs_val(t) >= limb_pow((t.len() - 1) as nat),
        ;
    }
}

/// Splitting a sequence at `k`.
pub proof fn lemma_val_split(s: Seq<u64>, k: nat)
    requires
        k <= s.len(),
    ensures
        limbs_val(s) == limbs_val(s.take(k as int)) + limb_pow(k) * limbs_val(s.skip(k as int)),
    decreases k,
{
    lemma_base_is_pow2();
    if k == 0 {
        assert(s.take(0) =~= Seq::<u64>::empty());
        assert(s.skip(0) =~= s);
    } else {
        let t = s.skip(1);
        lemma_val_split(t, (k - 1) as nat);
        assert(s.take(k as int).skip(1) =~= t.take(k - 1));
        assert(t.skip(k - 1) =~= s.skip(k as int));
        assert(s.take(k as int)[0] == s[0]);
        lemma_limb_pow_succ((k - 1) as nat);
        let a = limbs_val(t.take(k - 1));
        let b = limbs_val(s.skip(k as int));
        let p = limb_pow((k - 1) as nat);
        assert(base() * (a + p * b) == base() * a + (base() * p) * b) by (nonlinear_arith);
    }
}

/// The empty sequence and all-zero sequences are worth zero; in particular
/// appending zeros does not change the value.
pub proof fn lemma_val_push_zero(s: Seq<u64>)
    ensures
        limbs_val(s.push(0)) == limbs_val(s),
{
    lemma_val_push(s, 0);
}

/// Replacing one limb changes the value by the difference at its place.
pub proof fn lemma_val_update(s: Seq<u64>, k: int, x: u64)
    requires
        0 <= k < s.len(),
    ensures
        limbs_val(s.update(k, x)) + s[k] * limb_pow(k as nat) == limbs_val(s) + x * limb_pow(
            k as nat,
        ),
    decreases k,
{
    lemma_base_is_pow2();
    let t = s.skip(1);
    if k == 0 {
        assert(s.update(0, x).skip(1) =~= t);
    } else {
        assert(s.update(k, x).skip(1) =~= t.update(k - 1, x));
        lemma_val_update(t, k - 1, x);
        lemma_limb_pow_succ((k - 1) as nat);
        let p = limb_pow((k - 1) as nat);
        let a = limbs_val(t.update(k - 1, x));
        let b = limbs_val(t);
        assert(base() * a + s[k] * (base() * p) == base() * b + x * (base() * p)) by (nonlinear_arith)
            requires
                a + s[k] * p == b + x * p,
        ;
    }
}

/// The value of a sequence of zeros.
pub proof fn lemma_val_zeros(n: nat)
    ensures
        limbs_val(Seq::new(n, |i: int| 0u64)) == 0,
    decreases n,
{
    if n > 0 {
        assert(Seq::new(n, |i: int| 0u64).skip(1) =~= Seq::new((n - 1) as nat, |i: int| 0u64));
        lemma_val_zeros((n - 1) as nat);
    }
}

/// Place-value uniqueness: `a0 + B b0 == a1 + B b1` with digits below `B`
/// fixes both digit and quotient.
pub proof fn lemma_digit_unique(a0: nat, b0: nat, a1: nat, b1: nat, m: nat)
    requires
        a0 < m,
        a1 < m,
        a0 + m * b0 == a1 + m * b1,
    ensures
        a0 == a1,
        b0 == b1,
{
    if b0 < b1 {
        assert(m * b0 + m <= m * b1) by (nonlinear_arith)
            requires
                b0 < b1,
        ;
    } else if b1 < b0 {
        assert(m * b1 + m <= m * b0) by (nonlinear_arith)
            requires
                b1 < b0,
        ;
    }
}

/// Two canonical sequences of the same value are the same sequence.
pub proof fn lemma_canonical_unique(s: Seq<u64>, t: Seq<u64>)
    requires
        canonical(s),
        canonical(t),
        limbs_val(s) == limbs_val(t),
    ensures
        s == t,
    decreases s.len(),
{
    lemma_base_is_pow2();
    if s.len() == 0 && t.len() == 0 {
        assert(s =~= t);
    } else if s.len() == 0 {
        lemma_val_lower(t);
        lemma_pow2_pos(64 * ((t.len() - 1) as nat));
    } else if t.len() == 0 {
        lemma_val_lower(s);
        lemma_pow2_pos(64 * ((s.len() - 1) as nat));
    } else {
        lemma_digit_unique(
            s[0] as nat,
            limbs_val(s.skip(1)),
            t[0] as nat,
            limbs_val(t.skip(1)),
            base(),
        );
        if s.len() > 1 {
            assert(s.skip(1).last() == s.last());
        }
        if t.len() > 1 {
            assert(t.skip(1).last() == t.last());
        }
        lemma_canonical_unique(s.skip(1), t.skip(1));
        assert(s =~= t) by {
            assert forall|i: int| 0 <= i < s.len() implies s[i] == t[i] by {
                if i > 0 {
                    assert(s[i] == s.skip(1)[i - 1]);
                    assert(t[i] == t.skip(1)[i - 1]);
                }
            }
        }
    }
}

/// Same-length sequences of the same value are the same sequence.
pub proof fn lemma_same_len_unique(s: Seq<u64>, t: Seq<u64>)
    requires
        s.len() == t.len(),
        limbs_val(s) == limbs_val(t),
    ensures
        s == t,
    decreases s.len(),
{
    lemma_base_is_pow2();
    if s.len() == 0 {
        assert(s =~= t);
    } else {
        lemma_digit_unique(
            s[0] as nat,
            limbs_val(s.skip(1)),
            t[0] as nat,
            limbs_val(t.skip(1)),
            base(),
        );
        lemma_same_len_unique(s.skip(1), t.skip(1));
        assert(s =~= t) by {
            assert forall|i: int| 0 <= i < s.len() implies s[i] == t[i] by {
                if i > 0 {
                    assert(s[i] == s.skip(1)[i - 1]);
                    assert(t[i] == t.skip(1)[i - 1]);
                }
            }
        }
    }
}

/// A longer canonical sequence is worth more.
pub proof fn lemma_longer_is_larger(s: Seq<u64>, t: Seq<u64>)
    requires
        canonical(s),
        s.len() > t.len(),
    ensures
        limbs_val(s) > limbs_val(t),
{
    lemma_val_lower(s);
    lemma_val_bound(t);
    lemma_limb_pow_mono(t.len(), (s.len() - 1) as nat);
}

/// Dropping a most-significant zero limb keeps the value.
pub proof fn lemma_val_drop_last_zero(s: Seq<u64>)
    requires
        s.len() > 0,
        s.last() == 0,
    ensures
        limbs_val(s.drop_last()) == limbs_val(s),
{
    assert(s.drop_last().push(0) =~= s);
    lemma_val_push_zero(s.drop_last());
}

/// Adding a multiple of the divisor shifts the quotient and keeps the
/// remainder.
pub proof fn lemma_div_add_multiple(r: nat, p: nat, x: nat)
    requires
        p > 0,
    ensures
        (r + p * x) / p == r / p + x,
        (r + p * x) % p == r % p,
{
    lemma_fundamental_div_mod(r as int, p as int);
    lemma_mod_bound(r as int, p as int);
    let q = r / p;
    let m = r % p;
    assert(r + p * x == (q + x) * p + m) by (nonlinear_arith)
        requires
            r == p * q + m,
    ;
    lemma_fundamental_div_mod_converse((r + p * x) as int, p as int, (q + x) as int, m as int);
}

/// Dividing `a + d t` (with `a < d`) by `d p` gives `t / p`.
pub proof fn lemma_div_low_part(a: nat, d: nat, t: nat, p: nat)
    requires
        a < d,
        p > 0,
    ensures
        (a + d * t) / (d * p) == t / p,
{
    lemma_div_add_multiple(a, d, t);
    lemma_small_div_nat(a, d);
    lemma_div_denominator((a + d * t) as int, d as int, p as int);
}

proof fn lemma_small_div_nat(a: nat, d: nat)
    requires
        a < d,
    ensures
        a / d == 0,
{
    lemma_basic_div(a as int, d as int);
}

} // verus!
