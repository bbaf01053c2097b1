//! Binary digits of natural numbers: bit test, bit length, trailing zeros and
//! population count, with the lemmas the limb-level code uses.

use vstd::prelude::*;
use vstd::arithmetic::power2::{
    pow2, lemma_pow2_pos, lemma_pow2_unfold, lemma_pow2_adds, lemma2_to64,
};
use vstd::arithmetic::div_mod::{lemma_div_denominator, lemma_fundamental_div_mod, lemma_basic_div};

use crate::limbs::lemma_div_add_multiple;

verus! {

/// Bit `i` of `v` (least significant bit is bit 0).
pub open spec fn nat_bit(v: nat, i: nat) -> bool {
    (v / pow2(i)) % 2 == 1
}

/// The number of significant bits of `v` (0 for zero).
pub open spec fn nat_bit_length(v: nat) -> nat
    decreases v,
{
    if v == 0 {
        0
    } else {
        1 + nat_bit_length(v / 2)
    }
}

/// The number of trailing zero bits of `v` (0 for zero, by convention).
pub open spec fn nat_trailing_zeros(v: nat) -> nat
    decreases v,
{
    if v == 0 {
        0
    } else if v % 2 == 1 {
        0
    } else {
        1 + nat_trailing_zeros(v / 2)
    }
}

/// The number of set bits of `v`.
pub open spec fn nat_count_ones(v: nat) -> nat
    decreases v,
{
    if v == 0 {
        0
    } else {
        v % 2 + nat_count_ones(v / 2)
    }
}

/// `v` lies in `[2^(k-1), 2^k)` exactly when its bit length is `k`.
pub proof fn lemma_bit_length_char(v: nat, k: nat)
    requires
        k >= 1,
        pow2((k - 1) as nat) <= v < pow2(k),
    ensures
        nat_bit_length(v) == k,
    decreases k,
{
    lemma2_to64();
    if k == 1 {
        assert(v == 1);
        assert(nat_bit_length(0) == 0);
    } else {
        lemma_pow2_unfold(k);
        lemma_pow2_unfold((k - 1) as nat);
        lemma_bit_length_char(v / 2, (k - 1) as nat);
    }
}

/// The bit length bounds the value.
pub proof fn lemma_bit_length_bound(v: nat)
    ensures
        v < pow2(nat_bit_length(v)),
        v > 0 ==> pow2((nat_bit_length(v) - 1) as nat) <= v,
    decreases v,
{
    lemma2_to64();
    if v > 0 {
        lemma_bit_length_bound(v / 2);
        lemma_pow2_unfold(nat_bit_length(v));
        if v / 2 > 0 {
            lemma_pow2_unfold((nat_bit_length(v) - 1) as nat);
        }
    }
}

/// Dividing out `2^t` leaves an odd number exactly at `t == tz(x)`.
pub proof fn lemma_trailing_zeros_char(x: nat, t: nat)
    requires
        x % pow2(t) == 0,
        (x / pow2(t)) % 2 == 1,
    ensures
        nat_trailing_zeros(x) == t,
    decreases t,
{
    lemma2_to64();
    if t == 0 {
        assert(x / 1 == x);
    } else {
        lemma_pow2_unfold(t);
        lemma_pow2_pos((t - 1) as nat);
        let p = pow2((t - 1) as nat);
        lemma_fundamental_div_mod(x as int, (2 * p) as int);
        let q = x / (2 * p);
        assert(x == (2 * p) * q);
        assert((2 * p) * q == 2 * (p * q)) by (nonlinear_arith);
        assert(x % 2 == 0) by {
            lemma_div_add_multiple(0, 2, p * q);
        }
        assert(x / 2 == p * q) by {
            lemma_div_add_multiple(0, 2, p * q);
        }
        assert((x / 2) % p == 0) by {
            lemma_div_add_multiple(0, p, q);
        }
        assert((x / 2) / p == q) by {
            lemma_div_add_multiple(0, p, q);
        }
        assert(x > 0) by {
            if x == 0 {
                lemma_basic_div(0, (2 * p) as int);
            }
        }
        lemma_trailing_zeros_char(x / 2, (t - 1) as nat);
    }
}

/// A number with low part below `2^k` has the set bits of both parts.
pub proof fn lemma_count_ones_split(a: nat, b: nat, k: nat)
    requires
        a < pow2(k),
    ensures
        nat_count_ones(a + pow2(k) * b) == nat_count_ones(a) + nat_count_ones(b),
    decreases k,
{
    lemma2_to64();
    if k == 0 {
        assert(a == 0);
        assert(pow2(0) * b == b);
    } else {
        lemma_pow2_unfold(k);
        let p = pow2((k - 1) as nat);
        let v = a + pow2(k) * b;
        assert(pow2(k) * b == 2 * (p * b)) by (nonlinear_arith)
            requires
                pow2(k) == 2 * p,
        ;
        lemma_div_add_multiple(a, 2, p * b);
        lemma_count_ones_split(a / 2, b, (k - 1) as nat);
        assert(a / 2 < p);
        if v > 0 && a > 0 {
        } else if a == 0 {
            assert(a / 2 == 0);
            assert(nat_count_ones(0) == 0);
            if v == 0 {
                assert(b == 0) by (nonlinear_arith)
                    requires
                        v == pow2(k) * b,
                        v == 0,
                        pow2(k) > 0,
                ;
            }
        }
    }
}

/// Bit `i + j` of `x` is bit `j` of `x / 2^i`.
pub proof fn lemma_bit_shift(x: nat, i: nat, j: nat)
    ensures
        nat_bit(x, i + j) == nat_bit(x / pow2(i), j),
{
    lemma_pow2_pos(i);
    lemma_pow2_pos(j);
    lemma_pow2_adds(i, j);
    lemma_div_denominator(x as int, pow2(i) as int, pow2(j) as int);
}

/// Bits below `k` of `a + 2^k c` are those of `a` (for `a < 2^k`).
pub proof fn lemma_bit_low(a: nat, c: nat, k: nat, j: nat)
    requires
        a < pow2(k),
        j < k,
    ensures
        nat_bit(a + pow2(k) * c, j) == nat_bit(a, j),
{
    lemma_pow2_pos(j);
    lemma_pow2_adds(j, (k - j) as nat);
    lemma_pow2_adds(1, (k - j - 1) as nat);
    lemma2_to64();
    let e = pow2((k - j - 1) as nat);
    assert(pow2(k) * c == pow2(j) * (2 * (e * c))) by (nonlinear_arith)
        requires
            pow2(k) == pow2(j) * pow2((k - j) as nat),
            pow2((k - j) as nat) == 2 * e,
    ;
    lemma_div_add_multiple(a, pow2(j), 2 * (e * c));
    lemma_div_add_multiple(a / pow2(j), 2, e * c);
}

/// Bits from `k` up of `a + 2^k c` are those of `c` (for `a < 2^k`).
pub proof fn lemma_bit_high(a: nat, c: nat, k: nat, j: nat)
    requires
        a < pow2(k),
        j >= k,
    ensures
        nat_bit(a + pow2(k) * c, j) == nat_bit(c, (j - k) as nat),
{
    lemma_pow2_pos(k);
    lemma_div_add_multiple(a, pow2(k), c);
    lemma_basic_div(a as int, pow2(k) as int);
    lemma_bit_shift(a + pow2(k) * c, k, (j - k) as nat);
}

/// A number is determined by its bits.
pub proof fn lemma_bits_determine(x: nat, y: nat)
    requires
        forall|i: nat| nat_bit(x, i) == nat_bit(y, i),
    ensures
        x == y,
    decreases x + y,
{
    lemma2_to64();
    assert(nat_bit(x, 0) == nat_bit(y, 0));
    assert(x / 1 == x);
    assert(y / 1 == y);
    if x > 0 || y > 0 {
        assert forall|i: nat| #[trigger] nat_bit(x / 2, i) == nat_bit(y / 2, i) by {
            lemma_bit_shift(x, 1, i);
            lemma_bit_shift(y, 1, i);
            assert(nat_bit(x, 1 + i) == nat_bit(y, 1 + i));
        }
        lemma_bits_determine(x / 2, y / 2);
        lemma_fundamental_div_mod(x as int, 2);
        lemma_fundamental_div_mod(y as int, 2);
    }
}

} // verus!
