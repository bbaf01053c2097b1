//! The arithmetic of `BigFloat` parts: saturating exponents, rounding a
//! mantissa to a number of significant bits, and the lemmas about bit
//! lengths that keep the normalization invariant.

use vstd::prelude::*;
use vstd::arithmetic::power2::{
    pow2, lemma_pow2_adds, lemma_pow2_pos, lemma_pow2_strictly_increases, lemma2_to64,
    lemma_pow2_unfold,
};
use vstd::arithmetic::div_mod::{lemma_fundamental_div_mod, lemma_mod_bound, lemma_div_denominator};

use crate::bits_spec::{
    nat_bit_length, nat_trailing_zeros, lemma_bit_length_bound, lemma_bit_length_char,
};
use crate::limbs::lemma_div_add_multiple;
use super::RoundingMode;

verus! {

/// `x` clamped to the range of `i64` (saturating arithmetic).
pub open spec fn sat(x: int) -> int {
    if x > i64::MAX {
        i64::MAX as int
    } else if x < i64::MIN {
        i64::MIN as int
    } else {
        x
    }
}

/// Whether rounding the quotient `q` (with remainder `rem` out of `unit`)
/// moves it up by one under `mode`; `negative` is the sign of the value.
pub open spec fn round_up(mode: RoundingMode, negative: bool, q: nat, rem: nat, unit: nat) -> bool {
    match mode {
        RoundingMode::ToZero => false,
        RoundingMode::AwayFromZero => rem > 0,
        RoundingMode::ToInf => !negative && rem > 0,
        RoundingMode::ToNegInf => negative && rem > 0,
        RoundingMode::HalfAway => 2 * rem >= unit,
        RoundingMode::HalfToZero => 2 * rem > unit,
        RoundingMode::HalfEven => 2 * rem > unit || (2 * rem == unit && q % 2 == 1),
    }
}

/// `m / 2^k` rounded to an integer by `mode`.
pub open spec fn round_shift(m: nat, k: nat, mode: RoundingMode, negative: bool) -> nat {
    m / pow2(k) + if round_up(mode, negative, m / pow2(k), m % pow2(k), pow2(k)) {
        1nat
    } else {
        0nat
    }
}

/// The mantissa with its trailing zero bits removed.
pub open spec fn strip_m(m: nat) -> nat {
    m / pow2(nat_trailing_zeros(m))
}

/// The exponent after moving the trailing zero bits into it.
pub open spec fn strip_e(m: nat, e: int) -> int {
    sat(e + nat_trailing_zeros(m))
}

/// Left-pad `(m, e)` to `prec` significant bits (no-op when wide enough).
pub open spec fn pad_m(m: nat, prec: nat) -> nat {
    if nat_bit_length(m) < prec {
        m * pow2((prec - nat_bit_length(m)) as nat)
    } else {
        m
    }
}

pub open spec fn pad_e(m: nat, e: int, prec: nat) -> int {
    if nat_bit_length(m) < prec {
        sat(e - (prec - nat_bit_length(m)))
    } else {
        e
    }
}

/// Mantissa after dropping `drop` low bits of `m` with rounding and then
/// re-normalizing to `prec` bits.
pub open spec fn drop_m(m: nat, drop: nat, prec: nat, mode: RoundingMode, negative: bool) -> nat {
    let q = round_shift(m, drop, mode, negative);
    if q == 0 {
        0
    } else if nat_bit_length(q) > prec {
        q / pow2((nat_bit_length(q) - prec) as nat)
    } else {
        pad_m(q, prec)
    }
}

/// Exponent after dropping `drop` low bits (see [`drop_m`]).
pub open spec fn drop_e(
    m: nat,
    e: int,
    drop: nat,
    prec: nat,
    mode: RoundingMode,
    negative: bool,
) -> int {
    let q = round_shift(m, drop, mode, negative);
    let e1 = sat(e + drop);
    if q == 0 {
        0
    } else if nat_bit_length(q) > prec {
        sat(e1 + (nat_bit_length(q) - prec))
    } else {
        pad_e(q, e1, prec)
    }
}

/// The mantissa of a finite value `(m, e)` rounded to `prec` bits.
pub open spec fn round_m(m: nat, e: int, prec: nat, mode: RoundingMode, negative: bool) -> nat {
    if m == 0 {
        0
    } else {
        let m1 = strip_m(m);
        if nat_bit_length(m1) <= prec {
            pad_m(m1, prec)
        } else {
            drop_m(m1, (nat_bit_length(m1) - prec) as nat, prec, mode, negative)
        }
    }
}

/// The exponent of a finite value `(m, e)` rounded to `prec` bits.
pub open spec fn round_e(m: nat, e: int, prec: nat, mode: RoundingMode, negative: bool) -> int {
    if m == 0 {
        0
    } else {
        let m1 = strip_m(m);
        let e1 = strip_e(m, e);
        if nat_bit_length(m1) <= prec {
            pad_e(m1, e1, prec)
        } else {
            drop_e(m1, e1, (nat_bit_length(m1) - prec) as nat, prec, mode, negative)
        }
    }
}

/// The mantissa `from_parts` starts rounding from: trailing zeros stripped,
/// then padded to `prec` bits.
pub open spec fn canon_m(m: nat, prec: nat) -> nat {
    pad_m(strip_m(m), prec)
}

/// The exponent matching [`canon_m`].
pub open spec fn canon_e(m: nat, e: int, prec: nat) -> int {
    pad_e(strip_m(m), strip_e(m, e), prec)
}

/// The mantissa `from_parts(sign, m, e, prec, mode)` produces.
pub open spec fn parts_m(m: nat, e: int, prec: nat, mode: RoundingMode, negative: bool) -> nat {
    if m == 0 {
        0
    } else {
        round_m(canon_m(m, prec), canon_e(m, e, prec), prec, mode, negative)
    }
}

/// The exponent `from_parts(sign, m, e, prec, mode)` produces.
pub open spec fn parts_e(m: nat, e: int, prec: nat, mode: RoundingMode, negative: bool) -> int {
    if m == 0 {
        0
    } else {
        round_e(canon_m(m, prec), canon_e(m, e, prec), prec, mode, negative)
    }
}

/// The smaller of two integers.
pub open spec fn min_int(a: int, b: int) -> int {
    if a <= b {
        a
    } else {
        b
    }
}

/// `m * 2^(e - lo)`: the magnitude `m * 2^e` in units of `2^lo`.
pub open spec fn scaled(m: nat, e: int, lo: int) -> nat {
    m * pow2((e - lo) as nat)
}

/// The signed value `±m * 2^e` in units of `2^lo`.
pub open spec fn signed_scaled(negative: bool, m: nat, e: int, lo: int) -> int {
    if negative {
        -(scaled(m, e, lo) as int)
    } else {
        scaled(m, e, lo) as int
    }
}

/// `±ma * 2^ea < ±mb * 2^eb` on finite values.
pub open spec fn finite_lt(na: bool, ma: nat, ea: int, nb: bool, mb: nat, eb: int) -> bool {
    signed_scaled(na, ma, ea, min_int(ea, eb)) < signed_scaled(nb, mb, eb, min_int(ea, eb))
}

/// `|ma * 2^ea| < |mb * 2^eb|`.
pub open spec fn mag_lt(ma: nat, ea: int, mb: nat, eb: int) -> bool {
    scaled(ma, ea, min_int(ea, eb)) < scaled(mb, eb, min_int(ea, eb))
}

/// `|ma * 2^ea| == |mb * 2^eb|`.
pub open spec fn mag_eq(ma: nat, ea: int, mb: nat, eb: int) -> bool {
    scaled(ma, ea, min_int(ea, eb)) == scaled(mb, eb, min_int(ea, eb))
}

/// A non-zero magnitude lies between the powers of two of its top bit.
pub proof fn lemma_scaled_bounds(m: nat, e: int, lo: int)
    requires
        m > 0,
        e >= lo,
    ensures
        pow2((e - lo + nat_bit_length(m) - 1) as nat) <= scaled(m, e, lo),
        scaled(m, e, lo) < pow2((e - lo + nat_bit_length(m)) as nat),
{
    lemma_bit_length_bound(m);
    let b = nat_bit_length(m);
    let k = (e - lo) as nat;
    lemma_pow2_adds((b - 1) as nat, k);
    lemma_pow2_adds(b, k);
    lemma_pow2_pos(k);
    assert(pow2((b - 1) as nat) * pow2(k) <= m * pow2(k)) by (nonlinear_arith)
        requires
            pow2((b - 1) as nat) <= m,
    ;
    assert(m * pow2(k) < pow2(b) * pow2(k)) by (nonlinear_arith)
        requires
            m < pow2(b),
            pow2(k) > 0,
    ;
    assert((b - 1) as nat + k == (e - lo + b - 1) as nat);
    assert(b + k == (e - lo + b) as nat);
}

/// Magnitudes with different top bits are ordered by their top bits.
pub proof fn lemma_top_orders(ma: nat, ea: int, mb: nat, eb: int)
    requires
        ma > 0,
        mb > 0,
        ea + nat_bit_length(ma) < eb + nat_bit_length(mb),
    ensures
        mag_lt(ma, ea, mb, eb),
{
    let lo = min_int(ea, eb);
    lemma_scaled_bounds(ma, ea, lo);
    lemma_scaled_bounds(mb, eb, lo);
    let x = (ea - lo + nat_bit_length(ma)) as nat;
    let y = (eb - lo + nat_bit_length(mb) - 1) as nat;
    if x < y {
        lemma_pow2_strictly_increases(x, y);
    }
}

/// Comparing at a common lower exponent: shifting the larger-exponent
/// mantissa left by the gap.
pub proof fn lemma_scaled_at_min(ma: nat, ea: int, mb: nat, eb: int)
    requires
        ea >= eb,
    ensures
        scaled(ma, ea, min_int(ea, eb)) == ma * pow2((ea - eb) as nat),
        scaled(mb, eb, min_int(ea, eb)) == mb,
{
    lemma2_to64();
    assert((eb - eb) as nat == 0);
    assert(mb * 1 == mb);
}

/// `m * 2^k` has `k` more bits than `m`.
pub proof fn lemma_bl_mul_pow2(m: nat, k: nat)
    requires
        m > 0,
    ensures
        nat_bit_length(m * pow2(k)) == nat_bit_length(m) + k,
{
    lemma_bit_length_bound(m);
    let b = nat_bit_length(m);
    lemma_pow2_adds((b - 1) as nat, k);
    lemma_pow2_adds(b, k);
    lemma_pow2_pos(k);
    assert(pow2((b - 1) as nat) * pow2(k) <= m * pow2(k)) by (nonlinear_arith)
        requires
            pow2((b - 1) as nat) <= m,
    ;
    assert(m * pow2(k) < pow2(b) * pow2(k)) by (nonlinear_arith)
        requires
            m < pow2(b),
            pow2(k) > 0,
    ;
    assert((b - 1) as nat + k == (b + k - 1) as nat);
    lemma_bit_length_char(m * pow2(k), b + k);
}

/// `m / 2^k` has `k` fewer bits than `m` (when `m` has more than `k`).
pub proof fn lemma_bl_div_pow2(m: nat, k: nat)
    requires
        nat_bit_length(m) > k,
    ensures
        nat_bit_length(m / pow2(k)) == nat_bit_length(m) - k,
        m / pow2(k) > 0,
{
    lemma_bit_length_bound(m);
    let b = nat_bit_length(m);
    lemma_pow2_pos(k);
    lemma_pow2_adds((b - 1 - k) as nat, k);
    lemma_pow2_adds((b - k) as nat, k);
    let q = m / pow2(k);
    lemma_fundamental_div_mod(m as int, pow2(k) as int);
    lemma_mod_bound(m as int, pow2(k) as int);
    let r = m % pow2(k);
    let p = pow2(k);
    let lo = pow2((b - 1 - k) as nat);
    let hi = pow2((b - k) as nat);
    assert((b - 1 - k) as nat + k == (b - 1) as nat);
    assert((b - k) as nat + k == b);
    assert(lo <= q) by (nonlinear_arith)
        requires
            lo * p <= m,
            m == p * q + r,
            r < p,
            p > 0,
    ;
    assert(q < hi) by (nonlinear_arith)
        requires
            m < hi * p,
            m == p * q + r,
            r >= 0,
            p > 0,
    ;
    lemma_pow2_pos((b - 1 - k) as nat);
    assert((b - k - 1) as nat == (b - 1 - k) as nat);
    lemma_bit_length_char(q, (b - k) as nat);
}

/// Stripping the trailing zeros leaves an odd number with `tz` fewer bits.
pub proof fn lemma_strip(m: nat)
    requires
        m > 0,
    ensures
        nat_trailing_zeros(m) < nat_bit_length(m),
        strip_m(m) > 0,
        nat_bit_length(strip_m(m)) == nat_bit_length(m) - nat_trailing_zeros(m),
        m == strip_m(m) * pow2(nat_trailing_zeros(m)),
        strip_m(m) % 2 == 1,
    decreases m,
{
    lemma2_to64();
    if m % 2 == 1 {
        assert(m / 1 == m);
        lemma_bit_length_bound(m);
    } else {
        lemma_strip(m / 2);
        let t = nat_trailing_zeros(m / 2);
        lemma_pow2_unfold(t + 1);
        lemma_pow2_pos(t);
        lemma_div_denominator(m as int, 2, pow2(t) as int);
        assert(2 * pow2(t) == pow2(t + 1));
        lemma_fundamental_div_mod(m as int, 2);
        assert(m == strip_m(m / 2) * pow2(t + 1)) by (nonlinear_arith)
            requires
                m == 2 * (m / 2) + m % 2,
                m % 2 == 0,
                m / 2 == strip_m(m / 2) * pow2(t),
                pow2(t + 1) == 2 * pow2(t),
        ;
        assert(strip_m(m) == strip_m(m / 2)) by {
            assert(m / pow2(t + 1) == (m / 2) / pow2(t));
        }
    }
}

/// Rounding a `prec`-bit quotient up by one either keeps `prec` bits or
/// lands exactly on `2^prec`.
pub proof fn lemma_increment_bits(q: nat, prec: nat)
    requires
        prec >= 1,
        nat_bit_length(q) == prec,
    ensures
        nat_bit_length(q + 1) == prec || (nat_bit_length(q + 1) == prec + 1 && q + 1 == pow2(
            prec,
        )),
{
    lemma_bit_length_bound(q);
    lemma_pow2_unfold(prec);
    lemma_pow2_unfold(prec + 1);
    if q + 1 < pow2(prec) {
        lemma_bit_length_char(q + 1, prec);
    } else {
        assert(q + 1 == pow2(prec));
        lemma_pow2_pos(prec);
        lemma_bit_length_char(q + 1, prec + 1);
    }
}

/// `2^prec / 2 == 2^(prec-1)` has `prec` bits.
pub proof fn lemma_pow2_half_bits(prec: nat)
    requires
        prec >= 1,
    ensures
        pow2(prec + 1) / pow2(1) == pow2(prec),
        nat_bit_length(pow2(prec)) == prec + 1,
{
    lemma_pow2_adds(prec, 1);
    lemma2_to64();
    lemma_pow2_pos(prec);
    lemma_div_add_multiple(0, pow2(1), pow2(prec));
    assert(pow2(prec + 1) == 0 + pow2(1) * pow2(prec)) by (nonlinear_arith)
        requires
            pow2(prec + 1) == pow2(prec) * pow2(1),
    ;
    lemma_pow2_unfold(prec + 1);
    lemma_pow2_strictly_increases(prec, prec + 1);
    lemma_bit_length_char(pow2(prec), prec + 1);
}

/// The rounded result of `round_m` has exactly `prec` bits (or is zero).
pub proof fn lemma_round_m_bits(m: nat, e: int, prec: nat, mode: RoundingMode, negative: bool)
    requires
        prec >= 1,
    ensures
        round_m(m, e, prec, mode, negative) == 0 || nat_bit_length(
            round_m(m, e, prec, mode, negative),
        ) == prec,
        m > 0 ==> round_m(m, e, prec, mode, negative) > 0,
        m == 0 ==> round_e(m, e, prec, mode, negative) == 0,
{
    if m > 0 {
        lemma_strip(m);
        let m1 = strip_m(m);
        let b = nat_bit_length(m1);
        if b < prec {
            lemma_bl_mul_pow2(m1, (prec - b) as nat);
            lemma_pow2_pos((prec - b) as nat);
            assert(m1 * pow2((prec - b) as nat) > 0) by (nonlinear_arith)
                requires
                    m1 > 0,
                    pow2((prec - b) as nat) > 0,
            ;
        } else if b > prec {
            let d = (b - prec) as nat;
            lemma_bl_div_pow2(m1, d);
            let q0 = m1 / pow2(d);
            let q = round_shift(m1, d, mode, negative);
            if q == q0 + 1 {
                lemma_increment_bits(q0, prec);
                if nat_bit_length(q) == prec + 1 {
                    lemma_pow2_half_bits(prec);
                    lemma_bit_length_bound(pow2(prec));
                    assert((nat_bit_length(q) - prec) as nat == 1);
                    lemma_bl_div_pow2(q, 1);
                }
            }
        }
    }
}

} // verus!
