//! Decimal notation of binary floating-point values: the decimal exponent
//! of `m·2^e`, the significand rounded to `d` decimal digits (ties to even),
//! and the digit strings built from them.
//!
//! Every comparison of `m·2^e` with a power of ten is stated without
//! fractions, as a comparison of two natural numbers.

use vstd::prelude::*;
use vstd::arithmetic::power::{pow, lemma_pow_positive, lemma_pow_adds, lemma_pow1, lemma_pow0};
use vstd::arithmetic::power2::{pow2, lemma_pow2_pos, lemma_pow2_unfold, lemma2_to64};
use vstd::arithmetic::div_mod::{lemma_fundamental_div_mod, lemma_mod_bound};

use crate::bits_spec::{nat_bit_length, lemma_bit_length_bound};

verus! {

/// `10^n`.
pub open spec fn ten_pow(n: nat) -> nat {
    pow(10, n) as nat
}

/// `max(x, 0)`.
pub open spec fn pos_part(x: int) -> nat {
    if x > 0 {
        x as nat
    } else {
        0
    }
}

/// `max(-x, 0)`.
pub open spec fn neg_part(x: int) -> nat {
    if x < 0 {
        (-x) as nat
    } else {
        0
    }
}

/// `a / b >= 10^c` (for `b > 0`), cross-multiplied.
pub open spec fn ratio_reaches(a: nat, b: nat, c: int) -> bool {
    a * ten_pow(neg_part(c)) >= b * ten_pow(pos_part(c))
}

/// `m·2^e >= 10^c`.
pub open spec fn reaches_pow10(m: nat, e: int, c: int) -> bool {
    ratio_reaches(m * pow2(pos_part(e)), pow2(neg_part(e)), c)
}

/// `10^k <= m·2^e < 10^(k+1)`: `k` is the decimal exponent of `m·2^e`.
pub open spec fn is_dec_exp(m: nat, e: int, k: int) -> bool {
    reaches_pow10(m, e, k) && !reaches_pow10(m, e, k + 1)
}

/// The decimal exponent `floor(log10(m·2^e))` of a positive `m·2^e`.
pub open spec fn dec_exp(m: nat, e: int) -> int {
    choose|k: int| is_dec_exp(m, e, k)
}

/// `num / den` rounded to the nearest integer, ties to even.
pub open spec fn round_half_even(num: nat, den: nat) -> nat {
    let q = num / den;
    let r = num % den;
    if 2 * r < den {
        q
    } else if 2 * r > den {
        q + 1
    } else if q % 2 == 0 {
        q
    } else {
        q + 1
    }
}

/// Numerator of `m·2^e / 10^k`.
pub open spec fn scaled_num(m: nat, e: int, k: int) -> nat {
    m * pow2(pos_part(e)) * ten_pow(neg_part(k))
}

/// Denominator of `m·2^e / 10^k`.
pub open spec fn scaled_den(e: int, k: int) -> nat {
    pow2(neg_part(e)) * ten_pow(pos_part(k))
}

/// `m·2^e` rounded (ties to even) to an integer of `d` significant decimal
/// digits: `round(m·2^e / 10^(E-d+1))` with `E` the decimal exponent.
/// It lies in `[10^(d-1), 10^d]`; the upper end is a carry out of `9…9`.
pub open spec fn sig_int(m: nat, e: int, d: nat) -> nat {
    let k = dec_exp(m, e) - d + 1;
    round_half_even(scaled_num(m, e, k), scaled_den(e, k))
}

/// Whether rounding to `d` digits carried into a new leading digit.
pub open spec fn sig_carry(m: nat, e: int, d: nat) -> bool {
    sig_int(m, e, d) == ten_pow(d)
}

/// The decimal digit character of `v < 10`.
pub open spec fn digit_char(v: nat) -> char {
    (v + 48) as char
}

/// The decimal digits of `n`, most significant first (`"0"` for zero).
pub open spec fn dec_digits(n: nat) -> Seq<char>
    decreases n,
{
    if n < 10 {
        seq![digit_char(n)]
    } else {
        dec_digits(n / 10).push(digit_char(n % 10))
    }
}

/// The decimal rendering of an integer, with `-` before a negative one.
pub open spec fn int_to_dec(i: int) -> Seq<char> {
    if i < 0 {
        seq!['-'] + dec_digits((-i) as nat)
    } else {
        dec_digits(i as nat)
    }
}

/// The `d` significant digits of a positive `m·2^e`, rounded ties to even.
pub open spec fn sig_digits(m: nat, e: int, d: nat) -> Seq<char> {
    if sig_carry(m, e, d) {
        dec_digits(ten_pow((d - 1) as nat))
    } else {
        dec_digits(sig_int(m, e, d))
    }
}

/// The decimal exponent of the leading digit of `sig_digits(m, e, d)`.
pub open spec fn sig_exp(m: nat, e: int, d: nat) -> int {
    dec_exp(m, e) + if sig_carry(m, e, d) {
        1int
    } else {
        0int
    }
}

/// `10^0 == 1`, `10^n > 0` and `10^(n+1) == 10·10^n`.
pub proof fn lemma_ten_pow(n: nat)
    ensures
        ten_pow(0) == 1,
        ten_pow(n) > 0,
        ten_pow(n + 1) == 10 * ten_pow(n),
{
    lemma_pow0(10);
    lemma_pow1(10);
    lemma_pow_positive(10, n);
    lemma_pow_adds(10, n, 1);
}

/// `10^(a+b) == 10^a · 10^b`.
pub proof fn lemma_ten_pow_adds(a: nat, b: nat)
    ensures
        ten_pow(a + b) == ten_pow(a) * ten_pow(b),
{
    lemma_pow_adds(10, a, b);
    lemma_pow_positive(10, a);
    lemma_pow_positive(10, b);
}

/// `10^a <= 10^b` for `a <= b`.
pub proof fn lemma_ten_pow_mono(a: nat, b: nat)
    requires
        a <= b,
    ensures
        ten_pow(a) <= ten_pow(b),
    decreases b - a,
{
    lemma_ten_pow(a);
    if a < b {
        lemma_ten_pow_mono((a + 1) as nat, b);
    }
}

/// `2^n <= 10^n`.
pub proof fn lemma_pow2_le_ten_pow(n: nat)
    ensures
        pow2(n) <= ten_pow(n),
    decreases n,
{
    lemma_ten_pow(0);
    lemma2_to64();
    if n > 0 {
        lemma_pow2_le_ten_pow((n - 1) as nat);
        lemma_pow2_unfold(n);
        lemma_ten_pow((n - 1) as nat);
    }
}

/// `a·10^x >= b·10^y` holds exactly when `a / b >= 10^(y-x)`.
pub proof fn lemma_ratio_shift(a: nat, b: nat, x: nat, y: nat)
    ensures
        (a * ten_pow(x) >= b * ten_pow(y)) == ratio_reaches(a, b, y - x),
{
    let c = y - x;
    let t: nat = if x <= y {
        x
    } else {
        y
    };
    assert(x == neg_part(c) + t && y == pos_part(c) + t);
    lemma_ten_pow_adds(neg_part(c), t);
    lemma_ten_pow_adds(pos_part(c), t);
    lemma_ten_pow(t);
    let pn = ten_pow(neg_part(c));
    let pp = ten_pow(pos_part(c));
    let pt = ten_pow(t);
    assert((a * (pn * pt) >= b * (pp * pt)) == (a * pn >= b * pp)) by (nonlinear_arith)
        requires
            pt > 0,
    ;
}

/// Reaching `10^c2` implies reaching every `10^c1` with `c1 <= c2`.
pub proof fn lemma_reaches_mono(a: nat, b: nat, c1: int, c2: int)
    requires
        c1 <= c2,
        ratio_reaches(a, b, c2),
    ensures
        ratio_reaches(a, b, c1),
{
    let delta = (c2 - c1) as nat;
    let x = neg_part(c2) + delta;
    let y = pos_part(c2);
    lemma_ratio_shift(a, b, x, y);
    lemma_ten_pow_adds(neg_part(c2), delta);
    lemma_ten_pow_mono(0, delta);
    lemma_ten_pow(0);
    let pn = ten_pow(neg_part(c2));
    let pd = ten_pow(delta);
    assert(a * (pn * pd) >= a * pn) by (nonlinear_arith)
        requires
            pd >= 1,
    ;
}

/// The decimal exponent is unique.
pub proof fn lemma_dec_exp_unique(m: nat, e: int, k1: int, k2: int)
    requires
        is_dec_exp(m, e, k1),
        is_dec_exp(m, e, k2),
    ensures
        k1 == k2,
{
    let a = m * pow2(pos_part(e));
    let b = pow2(neg_part(e));
    if k1 < k2 {
        lemma_reaches_mono(a, b, k1 + 1, k2);
    } else if k2 < k1 {
        lemma_reaches_mono(a, b, k2 + 1, k1);
    }
}

/// A decimal exponent found by search is `dec_exp`.
pub proof fn lemma_dec_exp_is(m: nat, e: int, k: int)
    requires
        is_dec_exp(m, e, k),
    ensures
        dec_exp(m, e) == k,
{
    lemma_dec_exp_unique(m, e, dec_exp(m, e), k);
}

/// A positive `m·2^e` lies between `10^(-max(-e,0))` and
/// `10^(bit_length(m) + max(e,0))`.
pub proof fn lemma_dec_exp_range(m: nat, e: int)
    requires
        m > 0,
    ensures
        reaches_pow10(m, e, -(neg_part(e) as int)),
        !reaches_pow10(m, e, (nat_bit_length(m) + pos_part(e)) as int),
{
    let p = pos_part(e);
    let n = neg_part(e);
    let bl = nat_bit_length(m);
    lemma_pow2_pos(p);
    lemma_pow2_pos(n);
    lemma_bit_length_bound(m);
    let a = m * pow2(p);
    assert(a >= 1) by (nonlinear_arith)
        requires
            m >= 1,
            pow2(p) >= 1,
            a == m * pow2(p),
    ;
    // Lower end: a·10^n >= 10^n >= 2^n.
    lemma_pow2_le_ten_pow(n);
    lemma_ten_pow(0);
    assert(neg_part(-(n as int)) == n && pos_part(-(n as int)) == 0);
    let tn = ten_pow(n);
    assert(a * tn >= pow2(n) * 1) by (nonlinear_arith)
        requires
            a >= 1,
            tn >= pow2(n),
    ;
    // Upper end: a < 2^bl·2^p = 2^(bl+p) <= 10^(bl+p) <= 2^n·10^(bl+p).
    vstd::arithmetic::power2::lemma_pow2_adds(bl, p);
    lemma_pow2_le_ten_pow(bl + p);
    let c: nat = bl + p;
    assert(neg_part(c as int) == 0 && pos_part(c as int) == c);
    let tc = ten_pow(c);
    let pb = pow2(bl);
    let pp = pow2(p);
    assert(a * 1 < pow2(n) * tc) by (nonlinear_arith)
        requires
            a == m * pp,
            m < pb,
            pp >= 1,
            pb * pp <= tc,
            pow2(n) >= 1,
    ;
}

/// With `E` the decimal exponent, `m·2^e / 10^(E-d+1)` lies in
/// `[10^(d-1), 10^d)`.
pub proof fn lemma_scaled_range(m: nat, e: int, big_e: int, d: nat)
    requires
        is_dec_exp(m, e, big_e),
        d >= 1,
    ensures
        scaled_num(m, e, big_e - d + 1) >= ten_pow((d - 1) as nat) * scaled_den(e, big_e - d + 1),
        scaled_num(m, e, big_e - d + 1) < ten_pow(d) * scaled_den(e, big_e - d + 1),
{
    let k = big_e - d + 1;
    let a = m * pow2(pos_part(e));
    let b = pow2(neg_part(e));
    let x = neg_part(k);
    let y1 = pos_part(k) + (d - 1) as nat;
    let y2 = pos_part(k) + d;
    lemma_ratio_shift(a, b, x, y1);
    lemma_ratio_shift(a, b, x, y2);
    lemma_ten_pow_adds(pos_part(k), (d - 1) as nat);
    lemma_ten_pow_adds(pos_part(k), d);
    let tk = ten_pow(pos_part(k));
    let t1 = ten_pow((d - 1) as nat);
    let t2 = ten_pow(d);
    assert(t1 * (b * tk) == b * (tk * t1)) by (nonlinear_arith);
    assert(t2 * (b * tk) == b * (tk * t2)) by (nonlinear_arith);
}

/// `round_half_even(num, den)` is within one of `num / den`.
pub proof fn lemma_round_half_even_range(num: nat, den: nat, lo: nat, hi: nat)
    requires
        den > 0,
        num >= lo * den,
        num < hi * den,
    ensures
        lo <= round_half_even(num, den) <= hi,
{
    lemma_fundamental_div_mod(num as int, den as int);
    lemma_mod_bound(num as int, den as int);
    let q = num / den;
    let r = num % den;
    assert(q >= lo) by (nonlinear_arith)
        requires
            num == den * q + r,
            r < den,
            num >= lo * den,
            den > 0,
    ;
    assert(q < hi) by (nonlinear_arith)
        requires
            num == den * q + r,
            num < hi * den,
            den > 0,
    ;
}

/// Numbers in `[10^(len-1), 10^len)` have `len` decimal digits.
pub proof fn lemma_dec_digits_len(x: nat, len: nat)
    requires
        len >= 1,
        ten_pow((len - 1) as nat) <= x < ten_pow(len),
    ensures
        dec_digits(x).len() == len,
    decreases len,
{
    lemma_ten_pow(0);
    lemma_ten_pow((len - 1) as nat);
    if len == 1 {
        lemma_pow1(10);
    } else {
        lemma_ten_pow((len - 2) as nat);
        assert(x >= 10);
        lemma_dec_digits_len(x / 10, (len - 1) as nat);
    }
}

/// `10^d` renders as the digits of `10^(d-1)` followed by a `0`.
pub proof fn lemma_dec_digits_carry(d: nat)
    requires
        d >= 1,
    ensures
        dec_digits(ten_pow(d)) == dec_digits(ten_pow((d - 1) as nat)).push('0'),
{
    lemma_ten_pow((d - 1) as nat);
    lemma_ten_pow(0);
    let t = ten_pow((d - 1) as nat);
    assert(ten_pow(d) >= 10);
    assert(ten_pow(d) / 10 == t);
    assert(ten_pow(d) % 10 == 0);
}

} // verus!
