//! Laws of `BigFloat` that relate its operations to one another and to the
//! values they denote.

use vstd::prelude::*;
use vstd::arithmetic::power2::{pow2, lemma_pow2_pos, lemma_pow2_adds, lemma2_to64};
use vstd::arithmetic::div_mod::lemma_fundamental_div_mod;

use crate::bits_spec::{nat_bit_length, nat_trailing_zeros, lemma_trailing_zeros_char};
use crate::limbs::lemma_div_add_multiple;
use crate::float::{BigFloat, FloatClass, RoundingMode, Sign};
use crate::float::spec::{
    sat, strip_m, strip_e, canon_m, canon_e, round_m, round_e, parts_m, parts_e, scaled, mag_eq,
    min_int, signed_scaled, lemma_strip, lemma_bl_mul_pow2, mag_lt, round_shift, round_up, lemma_bl_div_pow2,
    lemma_increment_bits,
};
use crate::float::div::{div_quotient, div_shift, div_exponent, div_result, sign_xor, DIV_GUARD_BITS};
use crate::error::OxiNumError;
use crate::float::rem::{
    trunc_m, trunc_e, rem_result, rem_q_m, rem_q_e, rem_q_negative, rem_t_m, rem_t_e, rem_p_m,
    rem_p_e, rem_p_negative,
};
use crate::float::add::{max_prec, is_negation, add_result, sub_result, sum_mag, sum_sign, finite_sum};
use crate::float::cmp::{value_eq, value_lt, total_order, fields_eq, partial_order};
use core::cmp::Ordering;
use crate::float::hex::{
    hex_byte_value, hex_byte_nat, hex_digit,
    hex_text, hex_float_syntax, hex_float_value, hex_seq_value, frac_hex, strip_trailing_zeros,
};
use crate::float::hex_proofs::{
    ascii_bytes, lemma_parse_rendered, lemma_hex_concat_value, lemma_strip_value,
    lemma_frac_hex_value,
};
use vstd::string::StringSliceAdditionalSpecFns;
use crate::float::ieee::{
    from_f64_bits_result, f64_bits_of, f64_biased, f64_fraction, f64_negative, f64_significand,
    f64_exponent, sign_unit, exp_unit, f64_quantum, quanta, sign_bit, inf_bits,
    lemma_quanta_bound,
};
use crate::float::convert::{trunc_val, floor_val, ceil_val, round_val, frac_bits};
use crate::float::decimal::{
    sig_exp, dec_digits, pos_part, neg_part, ten_pow, reaches_pow10, is_dec_exp, dec_exp, sig_int, sig_digits,
    scaled_num, scaled_den, lemma_ten_pow, lemma_dec_exp_is, lemma_dec_exp_range,
    lemma_scaled_range, lemma_round_half_even_range, lemma_dec_digits_len, round_half_even,
};

verus! {

/// A mantissa whose significant bits (trailing zeros aside) fit in `prec`
/// bits is encoded without rounding: `from_parts` keeps its value and
/// normalizes it to exactly `prec` bits.
pub proof fn lemma_parts_exact(m: nat, e: int, prec: nat, mode: RoundingMode, negative: bool)
    requires
        m > 0,
        prec > 0,
        nat_bit_length(strip_m(m)) <= prec,
        i64::MIN + prec <= e,
        e + nat_bit_length(m) <= i64::MAX,
    ensures
        mag_eq(parts_m(m, e, prec, mode, negative), parts_e(m, e, prec, mode, negative), m, e),
        nat_bit_length(parts_m(m, e, prec, mode, negative)) == prec,
{
    lemma2_to64();
    lemma_strip(m);
    let t = nat_trailing_zeros(m);
    let m1 = strip_m(m);
    let b1 = nat_bit_length(m1);
    let k = (prec - b1) as nat;
    lemma_pow2_pos(k);
    lemma_pow2_pos(t);
    assert(strip_e(m, e) == e + t);
    let cm = canon_m(m, prec);
    let ce = canon_e(m, e, prec);
    assert(cm == m1 * pow2(k)) by {
        if b1 >= prec {
            assert(m1 * 1 == m1);
        }
    }
    assert(ce == e + t - k);
    // `cm` is the odd `m1` shifted by `k`: its trailing zeros are `k`.
    lemma_div_add_multiple(0, pow2(k), m1);
    assert(pow2(k) * m1 == cm) by (nonlinear_arith)
        requires
            cm == m1 * pow2(k),
    ;
    lemma_trailing_zeros_char(cm, k);
    assert(strip_m(cm) == m1);
    lemma_bl_mul_pow2(m1, k);
    assert(cm > 0) by (nonlinear_arith)
        requires
            m1 > 0,
            pow2(k) > 0,
            cm == m1 * pow2(k),
    ;
    assert(strip_e(cm, ce) == e + t);
    assert(round_m(cm, ce, prec, mode, negative) == cm) by {
        if b1 >= prec {
            assert(m1 * 1 == m1);
        }
    }
    assert(round_e(cm, ce, prec, mode, negative) == ce);
    // Both sides are m1 · 2^(e + t - lo).
    let lo = min_int(ce, e);
    let d1 = (ce - lo) as nat;
    let d2 = (e - lo) as nat;
    lemma_pow2_adds(k, d1);
    lemma_pow2_adds(t, d2);
    assert(k + d1 == t + d2);
    assert(scaled(cm, ce, lo) == m1 * pow2(k + d1)) by (nonlinear_arith)
        requires
            cm == m1 * pow2(k),
            scaled(cm, ce, lo) == cm * pow2(d1),
            pow2(k + d1) == pow2(k) * pow2(d1),
    ;
    assert(scaled(m, e, lo) == m1 * pow2(t + d2)) by (nonlinear_arith)
        requires
            m == m1 * pow2(t),
            scaled(m, e, lo) == m * pow2(d2),
            pow2(t + d2) == pow2(t) * pow2(d2),
    ;
}

/// Two mantissas of the same bit length denoting the same magnitude are
/// the same mantissa with the same exponent.
pub proof fn lemma_normalized_unique(a: nat, ea: int, b: nat, eb: int)
    requires
        a > 0,
        b > 0,
        nat_bit_length(a) == nat_bit_length(b),
        mag_eq(a, ea, b, eb),
    ensures
        a == b,
        ea == eb,
{
    lemma2_to64();
    if ea <= eb {
        let d = (eb - ea) as nat;
        assert(a * pow2(0) == a);
        lemma_bl_mul_pow2(b, d);
    } else {
        let d = (ea - eb) as nat;
        assert(b * pow2(0) == b);
        lemma_bl_mul_pow2(a, d);
    }
}

/// Encoding an integer of at most `prec` bits (as `from_i64`,
/// `from_biguint` and `from_bigint` do) is exact: the rounded parts denote
/// the integer itself.
pub proof fn law_integer_encoding_exact(n: nat, prec: nat, mode: RoundingMode, negative: bool)
    requires
        0 < prec <= u32::MAX,
        nat_bit_length(n) <= prec,
    ensures
        mag_eq(parts_m(n, 0, prec, mode, negative), parts_e(n, 0, prec, mode, negative), n, 0),
{
    if n > 0 {
        lemma_strip(n);
        lemma_parts_exact(n, 0, prec, mode, negative);
    } else {
        lemma2_to64();
        assert(0 * pow2(0) == 0);
    }
}

/// Rounding a value that already fits `prec` significant bits changes
/// nothing: `from_parts` of a normalized mantissa gives it back.
pub proof fn law_rounding_fixes_normalized(m: nat, e: int, prec: nat, mode: RoundingMode, negative: bool)
    requires
        0 < prec <= u32::MAX,
        nat_bit_length(m) == prec,
        i64::MIN + prec <= e,
        e + prec <= i64::MAX,
    ensures
        parts_m(m, e, prec, mode, negative) == m,
        parts_e(m, e, prec, mode, negative) == e,
{
    lemma2_to64();
    assert(m > 0);
    lemma_strip(m);
    lemma_parts_exact(m, e, prec, mode, negative);
    lemma_normalized_unique(
        parts_m(m, e, prec, mode, negative),
        parts_e(m, e, prec, mode, negative),
        m,
        e,
    );
}

/// Two finite non-zero values at the same precision are equal as numbers
/// exactly when their `(sign, mantissa, exponent)` fields are equal.
pub proof fn law_value_determines_fields(x: &BigFloat, y: &BigFloat)
    requires
        x.cls() == FloatClass::Finite,
        y.cls() == FloatClass::Finite,
        x.mant() > 0,
        y.mant() > 0,
        x.valid(),
        y.valid(),
        x.prec() == y.prec(),
        value_eq(x, y),
    ensures
        x.sgn() == y.sgn(),
        x.mant() == y.mant(),
        x.exp() == y.exp(),
{
    let lo = min_int(x.exp(), y.exp());
    lemma_pow2_pos((x.exp() - lo) as nat);
    lemma_pow2_pos((y.exp() - lo) as nat);
    assert(scaled(x.mant(), x.exp(), lo) > 0) by (nonlinear_arith)
        requires
            x.mant() > 0,
            pow2((x.exp() - lo) as nat) > 0,
            scaled(x.mant(), x.exp(), lo) == x.mant() * pow2((x.exp() - lo) as nat),
    ;
    assert(scaled(y.mant(), y.exp(), lo) > 0) by (nonlinear_arith)
        requires
            y.mant() > 0,
            pow2((y.exp() - lo) as nat) > 0,
            scaled(y.mant(), y.exp(), lo) == y.mant() * pow2((y.exp() - lo) as nat),
    ;
    lemma_normalized_unique(x.mant(), x.exp(), y.mant(), y.exp());
}

/// Negation is an involution: negating twice gives back every field.
pub proof fn law_neg_involution(x: &BigFloat, y: &BigFloat, z: &BigFloat)
    requires
        is_negation(x, y),
        is_negation(y, z),
    ensures
        z.cls() == x.cls(),
        z.sgn() == x.sgn(),
        z.mant() == x.mant(),
        z.exp() == x.exp(),
        z.prec() == x.prec(),
{
}

/// Negation gives the additive inverse of a finite value.
pub proof fn law_neg_is_additive_inverse(x: &BigFloat, y: &BigFloat)
    requires
        x.cls() == FloatClass::Finite,
        is_negation(x, y),
    ensures
        signed_scaled(y.sgn() == Sign::Negative, y.mant(), y.exp(), x.exp()) == -signed_scaled(
            x.sgn() == Sign::Negative,
            x.mant(),
            x.exp(),
            x.exp(),
        ),
{
    if x.mant() == 0 {
        assert(0 * pow2(0) == 0);
    }
}

/// Rounding to an integer brackets the value: `floor <= trunc, round <=
/// ceil <= floor + 1`.
pub proof fn law_integer_rounding_order(x: &BigFloat)
    ensures
        floor_val(x) <= trunc_val(x) <= ceil_val(x),
        floor_val(x) <= round_val(x) <= ceil_val(x),
        ceil_val(x) <= floor_val(x) + 1,
{
    if x.cls() == FloatClass::Finite && x.exp() < 0 {
        let k = frac_bits(x);
        let d = pow2(k);
        lemma_pow2_pos(k);
        let m = x.mant();
        lemma_fundamental_div_mod(m as int, d as int);
        crate::float::convert::lemma_floor_ceil(x);
        crate::float::convert::lemma_round_half_away(x);
    } else {
        crate::float::convert::lemma_floor_ceil(x);
        crate::float::convert::lemma_round_half_away(x);
    }
}

/// A positive `m·2^e` has a decimal exponent.
pub proof fn lemma_dec_exp_exists(m: nat, e: int)
    requires
        m > 0,
    ensures
        is_dec_exp(m, e, dec_exp(m, e)),
{
    lemma_dec_exp_range(m, e);
    let lo = -(crate::float::decimal::neg_part(e) as int);
    let hi = (nat_bit_length(m) + crate::float::decimal::pos_part(e)) as int;
    let k = lemma_find_dec_exp(m, e, lo, hi);
    lemma_dec_exp_is(m, e, k);
}

proof fn lemma_find_dec_exp(m: nat, e: int, c: int, hi: int) -> (k: int)
    requires
        c < hi,
        reaches_pow10(m, e, c),
        !reaches_pow10(m, e, hi),
    ensures
        is_dec_exp(m, e, k),
    decreases hi - c,
{
    if !reaches_pow10(m, e, c + 1) {
        c
    } else {
        lemma_find_dec_exp(m, e, c + 1, hi)
    }
}

/// Rounding to `d` significant digits gives exactly `d` digits, between
/// `10^(d-1)` and `10^d` before the carry is folded into the exponent.
pub proof fn law_significant_digits(m: nat, e: int, d: nat)
    requires
        m > 0,
        d >= 1,
    ensures
        ten_pow((d - 1) as nat) <= sig_int(m, e, d) <= ten_pow(d),
        sig_digits(m, e, d).len() == d,
{
    lemma_dec_exp_exists(m, e);
    let big_e = dec_exp(m, e);
    lemma_scaled_range(m, e, big_e, d);
    let k = big_e - d + 1;
    lemma_pow2_pos(crate::float::decimal::neg_part(e));
    lemma_ten_pow(crate::float::decimal::pos_part(k));
    let den = scaled_den(e, k);
    assert(den > 0) by (nonlinear_arith)
        requires
            den == pow2(crate::float::decimal::neg_part(e)) * ten_pow(
                crate::float::decimal::pos_part(k),
            ),
            pow2(crate::float::decimal::neg_part(e)) > 0,
            ten_pow(crate::float::decimal::pos_part(k)) > 0,
    ;
    lemma_round_half_even_range(scaled_num(m, e, k), den, ten_pow((d - 1) as nat), ten_pow(d));
    lemma_ten_pow((d - 1) as nat);
    let n = sig_int(m, e, d);
    if n == ten_pow(d) {
        lemma_dec_digits_len(ten_pow((d - 1) as nat), d);
    } else {
        lemma_dec_digits_len(n, d);
    }
}

/// Shifting left keeps the odd part: `strip(a·2^i) == strip(a)`.
pub proof fn lemma_strip_mul_pow2(a: nat, i: nat)
    requires
        a > 0,
    ensures
        strip_m(a * pow2(i)) == strip_m(a),
{
    lemma_strip(a);
    let t = nat_trailing_zeros(a);
    let o = strip_m(a);
    lemma_pow2_adds(t, i);
    lemma_pow2_pos(t + i);
    let x = a * pow2(i);
    assert(x == pow2(t + i) * o) by (nonlinear_arith)
        requires
            a == o * pow2(t),
            x == a * pow2(i),
            pow2(t + i) == pow2(t) * pow2(i),
    ;
    lemma_div_add_multiple(0, pow2(t + i), o);
    lemma_trailing_zeros_char(x, t + i);
}

/// Equal magnitudes may be compared at any common lower exponent.
pub proof fn lemma_mag_eq_at(a: nat, ea: int, b: nat, eb: int, lo: int)
    requires
        lo <= ea,
        lo <= eb,
    ensures
        mag_eq(a, ea, b, eb) == (a * pow2((ea - lo) as nat) == b * pow2((eb - lo) as nat)),
{
    let mn = min_int(ea, eb);
    let d = (mn - lo) as nat;
    lemma_pow2_adds((ea - mn) as nat, d);
    lemma_pow2_adds((eb - mn) as nat, d);
    assert((ea - mn) as nat + d == (ea - lo) as nat);
    assert((eb - mn) as nat + d == (eb - lo) as nat);
    lemma_pow2_pos(d);
    let sa = scaled(a, ea, mn);
    let sb = scaled(b, eb, mn);
    let pd = pow2(d);
    assert(a * pow2((ea - lo) as nat) == sa * pd) by (nonlinear_arith)
        requires
            sa == a * pow2((ea - mn) as nat),
            pow2((ea - lo) as nat) == pow2((ea - mn) as nat) * pd,
    ;
    assert(b * pow2((eb - lo) as nat) == sb * pd) by (nonlinear_arith)
        requires
            sb == b * pow2((eb - mn) as nat),
            pow2((eb - lo) as nat) == pow2((eb - mn) as nat) * pd,
    ;
    assert((sa * pd == sb * pd) == (sa == sb)) by (nonlinear_arith)
        requires
            pd > 0,
    ;
}

/// Equality of magnitudes is transitive.
pub proof fn lemma_mag_eq_trans(a: nat, ea: int, b: nat, eb: int, c: nat, ec: int)
    requires
        mag_eq(a, ea, b, eb),
        mag_eq(b, eb, c, ec),
    ensures
        mag_eq(a, ea, c, ec),
{
    let lo = min_int(min_int(ea, eb), ec);
    lemma_mag_eq_at(a, ea, b, eb, lo);
    lemma_mag_eq_at(b, eb, c, ec, lo);
    lemma_mag_eq_at(a, ea, c, ec, lo);
}

/// Parsing the hexadecimal rendering of a finite value at its precision
/// gives the value back bit for bit: the parse succeeds and `x` itself is
/// the value `from_hex_float` describes for it. (Exponents within
/// `prec + 3` of the ends of the `i64` range are left out: there the
/// rendered exponent saturates.)
#[verifier::rlimit(40)]
pub proof fn law_hex_round_trip(x: &BigFloat, s: &str)
    requires
        x.valid(),
        x.cls() == FloatClass::Finite,
        s@ == hex_text(x),
        i64::MIN + x.prec() + 3 <= x.exp(),
        x.exp() + x.prec() <= i64::MAX,
        x.prec() <= u32::MAX,
    ensures
        s.spec_bytes().len() < 0x2000_0000_0000_0000,
        hex_float_syntax(s.spec_bytes()) matches Ok(p) && hex_float_value(
            *x,
            p.0,
            p.1,
            sat(p.3 - 4 * p.2),
            x.prec(),
        ),
{
    lemma2_to64();
    if x.mant() == 0 {
        reveal_strlit("0x0p0");
        let t = hex_text(x);
        assert(t == seq!['0', 'x', '0', 'p', '0']);
        assert(vstd::utf8::is_ascii_chars(t));
        vstd::string::is_ascii_spec_bytes(s);
        let b = s.spec_bytes();
        assert(b =~= seq![48u8, 120u8, 48u8, 112u8, 48u8]);
        crate::float::hex_proofs::lemma_hex_run_to(b, 2, 3);
        crate::float::hex_proofs::lemma_dec_run_to(b, 4, 5);
        assert(b.subrange(2, 3) + b.subrange(3, 3) =~= seq![48u8]);
        assert(seq![48u8].drop_last() =~= Seq::<u8>::empty());
        assert(hex_seq_value(Seq::<u8>::empty()) == 0);
        assert(hex_seq_value(seq![48u8]) == 0);
        assert(crate::float::hex::dec_seq_value(Seq::<u8>::empty()) == 0);
        assert(crate::float::hex::dec_seq_value(seq![48u8]) == 0);
        assert(b.subrange(4, 5) =~= seq![48u8]);
        assert(hex_float_syntax(b) == Ok::<(Sign, nat, nat, int), Seq<char>>(
            (Sign::Positive, 0, 0, 0),
        ));
    } else {
        let m = x.mant();
        let e = x.exp();
        let prec = x.prec();
        let lead = (nat_bit_length(m) - 1) as nat;
        let full = frac_hex(m, lead);
        let frac = strip_trailing_zeros(full);
        let nf = frac.len();
        let n = (lead + 3) / 4;
        let pad = (4 * n - lead) as nat;
        let z = (n - nf) as nat;
        lemma_parse_rendered(x);
        vstd::string::is_ascii_spec_bytes(s);
        assert(s.spec_bytes() =~= ascii_bytes(hex_text(x)));
        let neg = x.sgn() == Sign::Negative;
        // The digits read back: d = 1·16^nf + (kept fraction digits).
        let d = hex_seq_value(seq![49u8] + ascii_bytes(frac));
        lemma_hex_concat_value(seq![49u8], ascii_bytes(frac));
        assert(seq![49u8].drop_last() =~= Seq::<u8>::empty());
        assert(hex_seq_value(Seq::<u8>::empty()) == 0);
        assert(hex_seq_value(seq![49u8]) == 1);
        let v = hex_seq_value(ascii_bytes(frac));
        lemma_strip_value(full);
        crate::bits_spec::lemma_bit_length_bound(m);
        lemma_frac_hex_value(m, lead);
        // d·2^(4z) == m·2^pad.
        lemma_pow2_adds(4 * nf, 4 * z);
        lemma_pow2_adds(lead, pad);
        assert(4 * nf + 4 * z == 4 * n);
        assert(lead + pad == 4 * n);
        lemma_pow2_pos(lead);
        vstd::arithmetic::div_mod::lemma_fundamental_div_mod(m as int, pow2(lead) as int);
        vstd::arithmetic::div_mod::lemma_mod_bound(m as int, pow2(lead) as int);
        assert(m / pow2(lead) == 1) by {
            vstd::arithmetic::power2::lemma_pow2_unfold(lead + 1);
            vstd::arithmetic::div_mod::lemma_div_is_ordered(pow2(lead) as int, m as int, pow2(lead) as int);
            vstd::arithmetic::div_mod::lemma_div_by_self(pow2(lead) as int);
            if m / pow2(lead) >= 2 {
                assert(pow2(lead) * (m / pow2(lead)) >= 2 * pow2(lead)) by (nonlinear_arith)
                    requires
                        m / pow2(lead) >= 2,
                        pow2(lead) > 0,
                ;
            }
        }
        let w = m % pow2(lead);
        assert(m == pow2(lead) + w) by (nonlinear_arith)
            requires
                m == pow2(lead) * (m / pow2(lead)) + m % pow2(lead),
                m / pow2(lead) == 1,
                w == m % pow2(lead),
        ;
        let p4z = pow2(4 * z);
        let ppad = pow2(pad);
        assert(d * p4z == m * ppad) by (nonlinear_arith)
            requires
                d == 1 * pow2(4 * nf) + v,
                hex_seq_value(ascii_bytes(full)) == v * p4z,
                hex_seq_value(ascii_bytes(full)) == w * ppad,
                pow2(4 * n) == pow2(4 * nf) * p4z,
                pow2(4 * n) == pow2(lead) * ppad,
                m == pow2(lead) + w,
        ;
        lemma_pow2_pos(4 * nf);
        lemma_pow2_pos(4 * z);
        lemma_pow2_pos(pad);
        assert(d > 0);
        // The parsed exponent.
        assert(4 * nf <= lead + 3);
        let e2 = e + lead - 4 * nf;
        assert(sat((e + lead) - 4 * nf) == e2);
        // The parsed value equals x's.
        lemma_mag_eq_at(d, e2, m, e, min_int(e2, e));
        if e2 >= e {
            let k = (e2 - e) as nat;
            assert(k + pad == 4 * z);
            lemma_pow2_adds(k, pad);
            assert((d * pow2(k)) * ppad == m * ppad) by (nonlinear_arith)
                requires
                    d * p4z == m * ppad,
                    p4z == pow2(k) * ppad,
            ;
            assert(d * pow2(k) == m) by (nonlinear_arith)
                requires
                    (d * pow2(k)) * ppad == m * ppad,
                    ppad > 0,
            ;
            assert(m * pow2(0) == m);
        } else {
            let k = (e - e2) as nat;
            assert(k + 4 * z == pad);
            lemma_pow2_adds(k, 4 * z);
            assert(d * p4z == (m * pow2(k)) * p4z) by (nonlinear_arith)
                requires
                    d * p4z == m * ppad,
                    ppad == pow2(k) * p4z,
            ;
            assert(d == m * pow2(k)) by (nonlinear_arith)
                requires
                    d * p4z == (m * pow2(k)) * p4z,
                    p4z > 0,
            ;
            assert(d * pow2(0) == d);
        }
        assert(mag_eq(d, e2, m, e));
        // The odd parts agree, so the digits need no more than `prec` bits.
        lemma_strip_mul_pow2(d, 4 * z);
        lemma_strip_mul_pow2(m, pad);
        lemma_strip(m);
        lemma_bl_mul_pow2(d, 4 * z);
        lemma_bl_mul_pow2(m, pad);
        assert(nat_bit_length(d) + 4 * z == prec + pad);
        lemma_parts_exact(d, e2, prec, RoundingMode::HalfEven, neg);
        let pm = parts_m(d, e2, prec, RoundingMode::HalfEven, neg);
        let pe = parts_e(d, e2, prec, RoundingMode::HalfEven, neg);
        lemma_mag_eq_trans(pm, pe, d, e2, m, e);
        lemma_normalized_unique(pm, pe, m, e);
    }
}

/// A signed value in units of `2^lo` is its value in units of `2^mn`
/// shifted by `mn - lo`.
pub proof fn lemma_signed_scaled_at(negative: bool, m: nat, e: int, mn: int, lo: int)
    requires
        lo <= mn <= e,
    ensures
        signed_scaled(negative, m, e, lo) == signed_scaled(negative, m, e, mn) * pow2(
            (mn - lo) as nat,
        ),
{
    let d = (mn - lo) as nat;
    lemma_pow2_adds((e - mn) as nat, d);
    assert((e - mn) as nat + d == (e - lo) as nat);
    assert(scaled(m, e, lo) == scaled(m, e, mn) * pow2(d)) by (nonlinear_arith)
        requires
            scaled(m, e, lo) == m * pow2((e - lo) as nat),
            scaled(m, e, mn) == m * pow2((e - mn) as nat),
            pow2((e - lo) as nat) == pow2((e - mn) as nat) * pow2(d),
    ;
    if negative {
        assert(-(scaled(m, e, lo) as int) == -(scaled(m, e, mn) as int) * pow2(d)) by (
        nonlinear_arith)
            requires
                scaled(m, e, lo) == scaled(m, e, mn) * pow2(d),
        ;
    }
}

/// The signed value of `x` in units of `2^lo`.
pub open spec fn value_at(x: &BigFloat, lo: int) -> int {
    signed_scaled(x.sgn() == Sign::Negative, x.mant(), x.exp(), lo)
}

/// Finite values compare as their signed values at any common lower unit.
pub proof fn lemma_compare_at(a: &BigFloat, b: &BigFloat, lo: int)
    requires
        lo <= a.exp(),
        lo <= b.exp(),
    ensures
        value_lt(a, b) == (value_at(a, lo) < value_at(b, lo)),
        value_eq(a, b) == (value_at(a, lo) == value_at(b, lo)),
{
    let mn = min_int(a.exp(), b.exp());
    lemma_signed_scaled_at(a.sgn() == Sign::Negative, a.mant(), a.exp(), mn, lo);
    lemma_signed_scaled_at(b.sgn() == Sign::Negative, b.mant(), b.exp(), mn, lo);
    let p = pow2((mn - lo) as nat);
    lemma_pow2_pos((mn - lo) as nat);
    let x = value_at(a, mn);
    let y = value_at(b, mn);
    assert((x * p < y * p) == (x < y)) by (nonlinear_arith)
        requires
            p > 0,
    ;
    assert((x * p == y * p) == (x == y)) by (nonlinear_arith)
        requires
            p > 0,
    ;
}

/// `total_cmp` is a total order: reflexive, antisymmetric and transitive
/// (`−∞ < negative < zero < positive < +∞ < NaN`).
pub proof fn law_total_order(a: &BigFloat, b: &BigFloat, c: &BigFloat)
    ensures
        total_order(a, a) == Ordering::Equal,
        (total_order(a, b) == Ordering::Less) == (total_order(b, a) == Ordering::Greater),
        (total_order(a, b) == Ordering::Equal) == (total_order(b, a) == Ordering::Equal),
        total_order(a, b) == Ordering::Less && total_order(b, c) == Ordering::Less ==> total_order(
            a,
            c,
        ) == Ordering::Less,
        total_order(a, b) != Ordering::Greater && total_order(b, c) != Ordering::Greater
            ==> total_order(a, c) != Ordering::Greater,
{
    let lo = min_int(min_int(a.exp(), b.exp()), c.exp());
    lemma_compare_at(a, a, lo);
    lemma_compare_at(a, b, lo);
    lemma_compare_at(b, a, lo);
    lemma_compare_at(b, c, lo);
    lemma_compare_at(a, c, lo);
}

/// Values that `==` finds equal also compare equal under `total_cmp`.
pub proof fn law_eq_agrees_with_total_order(a: &BigFloat, b: &BigFloat)
    requires
        a.valid(),
        b.valid(),
        fields_eq(a, b),
    ensures
        total_order(a, b) == Ordering::Equal,
{
    let lo = min_int(a.exp(), b.exp());
    lemma_compare_at(a, b, lo);
    if a.cls() == FloatClass::Finite && a.mant() == 0 {
        lemma_zero_value_at(a, lo);
        lemma_zero_value_at(b, lo);
    }
}

/// A zero mantissa has the value zero in every unit.
proof fn lemma_zero_value_at(x: &BigFloat, lo: int)
    requires
        x.mant() == 0,
        lo <= x.exp(),
    ensures
        value_at(x, lo) == 0,
{
    assert(0 * pow2((x.exp() - lo) as nat) == 0);
}

/// Rounding a mantissa whose odd part fits in `p` bits is exact: the
/// result denotes the same magnitude with exactly `p` bits.
pub proof fn law_round_exact(m: nat, e: int, p: nat, mode: RoundingMode, negative: bool)
    requires
        m > 0,
        p > 0,
        nat_bit_length(strip_m(m)) <= p,
        i64::MIN + p <= e,
        e + nat_bit_length(m) <= i64::MAX,
    ensures
        mag_eq(round_m(m, e, p, mode, negative), round_e(m, e, p, mode, negative), m, e),
        nat_bit_length(round_m(m, e, p, mode, negative)) == p,
{
    lemma2_to64();
    lemma_strip(m);
    let t = nat_trailing_zeros(m);
    let m1 = strip_m(m);
    let b1 = nat_bit_length(m1);
    let k = (p - b1) as nat;
    lemma_pow2_pos(k);
    lemma_pow2_pos(t);
    assert(strip_e(m, e) == e + t);
    let rm = round_m(m, e, p, mode, negative);
    let re = round_e(m, e, p, mode, negative);
    assert(rm == m1 * pow2(k)) by {
        if b1 >= p {
            assert(m1 * 1 == m1);
        }
    }
    assert(re == e + t - k);
    lemma_bl_mul_pow2(m1, k);
    let lo = min_int(re, e);
    let d1 = (re - lo) as nat;
    let d2 = (e - lo) as nat;
    lemma_pow2_adds(k, d1);
    lemma_pow2_adds(t, d2);
    assert(k + d1 == t + d2);
    assert(scaled(rm, re, lo) == m1 * pow2(k + d1)) by (nonlinear_arith)
        requires
            rm == m1 * pow2(k),
            scaled(rm, re, lo) == rm * pow2(d1),
            pow2(k + d1) == pow2(k) * pow2(d1),
    ;
    assert(scaled(m, e, lo) == m1 * pow2(t + d2)) by (nonlinear_arith)
        requires
            m == m1 * pow2(t),
            scaled(m, e, lo) == m * pow2(d2),
            pow2(t + d2) == pow2(t) * pow2(d2),
    ;
}

/// Equal magnitudes have their top bits at the same position.
pub proof fn lemma_mag_eq_top(a: nat, ea: int, b: nat, eb: int)
    requires
        a > 0,
        b > 0,
        mag_eq(a, ea, b, eb),
    ensures
        ea + nat_bit_length(a) == eb + nat_bit_length(b),
{
    let lo = min_int(ea, eb);
    lemma_bl_mul_pow2(a, (ea - lo) as nat);
    lemma_bl_mul_pow2(b, (eb - lo) as nat);
}

/// A binary64 pattern is its sign, biased exponent and fraction fields.
proof fn lemma_f64_fields(bits: u64)
    ensures
        bits as nat == (if f64_negative(bits) {
            1nat
        } else {
            0nat
        }) * sign_unit() + f64_biased(bits) * exp_unit() + f64_fraction(bits),
        bits as nat / sign_unit() <= 1,
{
    assert(bits == (bits / 0x8000_0000_0000_0000u64) * 0x8000_0000_0000_0000u64 + ((bits
        / 0x10_0000_0000_0000u64) % 2048u64) * 0x10_0000_0000_0000u64 + bits
        % 0x10_0000_0000_0000u64) by (bit_vector);
    assert(bits / 0x8000_0000_0000_0000u64 <= 1u64) by (bit_vector);
}

/// Decoding a finite non-zero `f64` bit pattern at any precision of 53
/// bits or more and encoding the result again gives back the same bits:
/// the decomposition is exact, and the value is a binary64 value.
#[verifier::rlimit(40)]
pub proof fn law_f64_bits_round_trip(bits: u64, prec: nat, x: &BigFloat)
    requires
        53 <= prec <= u32::MAX,
        f64_biased(bits) < 2047,
        !(f64_biased(bits) == 0 && f64_fraction(bits) == 0),
        from_f64_bits_result(bits, prec, Ok(*x)),
    ensures
        f64_bits_of(x) == bits as nat,
{
    lemma2_to64();
    vstd::arithmetic::power2::lemma2_to64_rest();
    lemma_f64_fields(bits);
    let neg = f64_negative(bits);
    let sig = f64_significand(bits);
    let exp = f64_exponent(bits);
    let frac = f64_fraction(bits);
    let biased = f64_biased(bits);
    assert(sig > 0);
    assert(sig < pow2(53));
    crate::bits_spec::lemma_bit_length_bound(sig);
    let k = nat_bit_length(sig);
    if k > 53 {
        vstd::arithmetic::power2::lemma_pow2_strictly_increases(53, (k - 1) as nat);
    }
    lemma_strip(sig);
    lemma_parts_exact(sig, exp, prec, RoundingMode::HalfEven, neg);
    assert(x.mant() > 0);
    lemma_mag_eq_top(x.mant(), x.exp(), sig, exp);
    let top = exp + k - 1;
    assert(sat(x.exp() + nat_bit_length(x.mant()) - 1) == top);
    assert(sign_bit(x) == (if neg { 1nat } else { 0nat }));
    if biased > 0 {
        crate::bits_spec::lemma_bit_length_char(sig, 53);
    } else {
        assert(k <= 52) by {
            if k > 52 {
                vstd::arithmetic::power2::lemma_pow2_strictly_increases(52, (k - 1) as nat);
            }
        }
    }
    assert(f64_quantum(top) == exp);
    // The value is a whole number `sig` of quanta `2^exp`.
    let d = x.exp() - exp;
    if d >= 0 {
        lemma_mag_eq_at(x.mant(), x.exp(), sig, exp, exp);
        assert(sig * pow2(0) == sig);
        assert(pos_part(d) == d as nat && neg_part(d) == 0);
        assert(sig / 1 == sig && sig % 1 == 0);
    } else {
        lemma_mag_eq_at(x.mant(), x.exp(), sig, exp, x.exp());
        assert(x.mant() * pow2(0) == x.mant());
        assert(pos_part(d) == 0 && neg_part(d) == (-d) as nat);
        lemma_pow2_pos((-d) as nat);
        lemma_div_add_multiple(0, pow2((-d) as nat), sig);
        assert(pow2((-d) as nat) * sig == sig * pow2((-d) as nat)) by (nonlinear_arith);
        assert(x.mant() * 1 == x.mant());
    }
    assert(quanta(x.mant(), x.exp(), exp) == sig);
    if biased > 0 {
        assert(sig == frac + exp_unit());
    }
}

/// At 53 bits or more, decoding a finite non-zero `f64` pattern is exact:
/// the result has the value `±significand·2^exponent` of the pattern.
pub proof fn law_f64_decode_exact(bits: u64, prec: nat, x: &BigFloat)
    requires
        53 <= prec <= u32::MAX,
        f64_biased(bits) < 2047,
        !(f64_biased(bits) == 0 && f64_fraction(bits) == 0),
        from_f64_bits_result(bits, prec, Ok(*x)),
    ensures
        mag_eq(x.mant(), x.exp(), f64_significand(bits), f64_exponent(bits)),
        x.sgn() == (if f64_negative(bits) {
            Sign::Negative
        } else {
            Sign::Positive
        }),
{
    lemma2_to64();
    vstd::arithmetic::power2::lemma2_to64_rest();
    let sig = f64_significand(bits);
    assert(sig < pow2(53));
    crate::bits_spec::lemma_bit_length_bound(sig);
    let k = nat_bit_length(sig);
    if k > 53 {
        vstd::arithmetic::power2::lemma_pow2_strictly_increases(53, (k - 1) as nat);
    }
    lemma_strip(sig);
    lemma_parts_exact(sig, f64_exponent(bits), prec, RoundingMode::HalfEven, f64_negative(bits));
}

/// The leading decimal digit of a positive number is not zero.
pub proof fn lemma_dec_digits_first(n: nat)
    requires
        n >= 1,
    ensures
        dec_digits(n).len() >= 1,
        dec_digits(n)[0] != '0',
    decreases n,
{
    if n >= 10 {
        lemma_dec_digits_first(n / 10);
        assert(dec_digits(n)[0] == dec_digits(n / 10)[0]);
    }
}

/// Engineering notation shows an exponent that is a multiple of three and
/// one to three digits before the point, the first of them not zero: the
/// displayed mantissa lies in `[1, 1000)`.
pub proof fn law_engineering_shape(m: nat, e: int, d: nat)
    requires
        m > 0,
        d >= 1,
    ensures
        (sig_exp(m, e, d) - sig_exp(m, e, d) % 3) % 3 == 0,
        1 <= sig_exp(m, e, d) % 3 + 1 <= 3,
        sig_digits(m, e, d).len() == d,
        sig_digits(m, e, d)[0] != '0',
{
    law_significant_digits(m, e, d);
    lemma_ten_pow((d - 1) as nat);
    vstd::arithmetic::power::lemma_pow_positive(10, (d - 1) as nat);
    if sig_int(m, e, d) == ten_pow(d) {
        lemma_dec_digits_first(ten_pow((d - 1) as nat));
    } else {
        lemma_dec_digits_first(sig_int(m, e, d));
    }
}

/// Addition is commutative: `a + b` and `b + a` agree in every field.
pub proof fn law_add_commutative(
    a: &BigFloat,
    b: &BigFloat,
    mode: RoundingMode,
    r1: &BigFloat,
    r2: &BigFloat,
)
    requires
        a.valid(),
        b.valid(),
        r1.valid(),
        r2.valid(),
        add_result(a, b, mode, r1),
        add_result(b, a, mode, r2),
    ensures
        r1.cls() == r2.cls(),
        r1.sgn() == r2.sgn(),
        r1.mant() == r2.mant(),
        r1.exp() == r2.exp(),
        r1.prec() == r2.prec(),
{
    if a.cls() == FloatClass::Finite && b.cls() == FloatClass::Finite && a.mant() > 0 && b.mant()
        > 0 {
        assert(min_int(a.exp(), b.exp()) == min_int(b.exp(), a.exp()));
        assert(sum_mag(a, b) == sum_mag(b, a));
        if sum_mag(a, b) > 0 {
            assert(sum_sign(a, b) == sum_sign(b, a));
        } else {
            assert(parts_m(0, min_int(a.exp(), b.exp()), r1.prec(), mode, true) == 0);
        }
        assert(finite_sum(a, b, r1.prec(), mode) == finite_sum(b, a, r1.prec(), mode));
    }
}

/// The integer quotient of a division carries `max_prec + DIV_GUARD_BITS`
/// bits plus the amount by which the dividend's mantissa is wider than the
/// divisor's, or one more, whatever the operands' own precisions: the
/// rounding to `max_prec` bits that follows always works on at least
/// `DIV_GUARD_BITS` guard bits.
pub proof fn law_div_quotient_bits(a: &BigFloat, b: &BigFloat)
    requires
        a.valid(),
        b.valid(),
        a.cls() == FloatClass::Finite,
        b.cls() == FloatClass::Finite,
        a.mant() > 0,
        b.mant() > 0,
    ensures
        ({
            let ba = nat_bit_length(a.mant());
            let bb = nat_bit_length(b.mant());
            let w = max_prec(a, b) + DIV_GUARD_BITS + (if ba > bb { ba - bb } else { 0 });
            nat_bit_length(div_quotient(a, b)) == w || nat_bit_length(div_quotient(a, b)) == w + 1
        }),
        nat_bit_length(div_quotient(a, b)) >= max_prec(a, b) + DIV_GUARD_BITS,
{
    let ba0 = nat_bit_length(a.mant());
    let bb0 = nat_bit_length(b.mant());
    let p = (max_prec(a, b) + DIV_GUARD_BITS + (if ba0 > bb0 { ba0 - bb0 } else { 0 })) as nat;
    let ma = a.mant();
    let mb = b.mant();
    let ba = nat_bit_length(ma);
    let bb = nat_bit_length(mb);
    let k = div_shift(a, b);
    assert(k + ba == p + bb);
    crate::bits_spec::lemma_bit_length_bound(ma);
    crate::bits_spec::lemma_bit_length_bound(mb);
    lemma_pow2_adds((ba - 1) as nat, k);
    lemma_pow2_adds(ba, k);
    lemma_pow2_adds((p - 1) as nat, bb);
    lemma_pow2_adds((p + 1) as nat, (bb - 1) as nat);
    assert((ba - 1) as nat + k == (p - 1) as nat + bb);
    assert(ba + k == (p + 1) as nat + (bb - 1) as nat);
    lemma_pow2_pos(k);
    lemma_pow2_pos((p - 1) as nat);
    lemma_pow2_pos((p + 1) as nat);
    let n = ma * pow2(k);
    assert(n >= pow2((p - 1) as nat) * mb) by (nonlinear_arith)
        requires
            n == ma * pow2(k),
            pow2((ba - 1) as nat) <= ma,
            pow2((ba - 1) as nat + k) == pow2((ba - 1) as nat) * pow2(k),
            pow2((ba - 1) as nat + k) == pow2((p - 1) as nat) * pow2(bb),
            mb < pow2(bb),
            pow2((p - 1) as nat) > 0,
    ;
    assert(n < pow2((p + 1) as nat) * mb) by (nonlinear_arith)
        requires
            n == ma * pow2(k),
            ma < pow2(ba),
            pow2(ba + k) == pow2(ba) * pow2(k),
            pow2(ba + k) == pow2((p + 1) as nat) * pow2((bb - 1) as nat),
            pow2((bb - 1) as nat) <= mb,
            pow2(k) > 0,
            pow2((p + 1) as nat) > 0,
    ;
    let q = n / mb;
    lemma_fundamental_div_mod(n as int, mb as int);
    vstd::arithmetic::div_mod::lemma_mod_bound(n as int, mb as int);
    assert(q >= pow2((p - 1) as nat)) by (nonlinear_arith)
        requires
            n == mb * q + n % mb,
            n % mb < mb,
            n >= pow2((p - 1) as nat) * mb,
            mb > 0,
    ;
    assert(q < pow2((p + 1) as nat)) by (nonlinear_arith)
        requires
            n == mb * q + n % mb,
            n % mb >= 0,
            n < pow2((p + 1) as nat) * mb,
            mb > 0,
    ;
    vstd::arithmetic::power2::lemma_pow2_unfold(p);
    if q < pow2(p) {
        crate::bits_spec::lemma_bit_length_char(q, p);
    } else {
        vstd::arithmetic::power2::lemma_pow2_unfold(p + 1);
        crate::bits_spec::lemma_bit_length_char(q, p + 1);
    }
}

/// The fields of a pattern packed from a sign, a biased exponent and a
/// fraction read back as those.
proof fn lemma_f64_pack_fields(b: u64, s: u64, e: u64, f: u64)
    requires
        s <= 1,
        e < 2048,
        f < 0x10_0000_0000_0000,
        b as int == s * 0x8000_0000_0000_0000 + e * 0x10_0000_0000_0000 + f,
    ensures
        f64_negative(b) == (s == 1),
        f64_biased(b) == e,
        f64_fraction(b) == f,
{
    assert(b / 0x8000_0000_0000_0000u64 == s && (b / 0x10_0000_0000_0000u64) % 2048u64 == e && b
        % 0x10_0000_0000_0000u64 == f) by (bit_vector)
        requires
            s <= 1,
            e < 2048,
            f < 0x10_0000_0000_0000u64,
            b == s * 0x8000_0000_0000_0000u64 + e * 0x10_0000_0000_0000u64 + f,
    ;
}

/// `to_f64_bits` gives the nearest binary64 value: for a finite result, the
/// pattern decodes to `n·2^q`, the multiple of the binary64 quantum `2^q`
/// nearest to `|x|` (ties to even, a carry moved to the next binade), with
/// the sign of `x`.
#[verifier::rlimit(40)]
pub proof fn law_to_f64_nearest(x: &BigFloat)
    requires
        x.valid(),
        x.cls() == FloatClass::Finite,
        x.mant() > 0,
        -1076 <= x.exp() + nat_bit_length(x.mant()) - 1 <= 1023,
        ({
            let top = x.exp() + nat_bit_length(x.mant()) - 1;
            let n0 = quanta(x.mant(), x.exp(), f64_quantum(top));
            (if n0 == pow2(53) { f64_quantum(top) + 1 } else { f64_quantum(top) }) <= 971
        }),
    ensures
        ({
            let top = x.exp() + nat_bit_length(x.mant()) - 1;
            let q0 = f64_quantum(top);
            let n0 = quanta(x.mant(), x.exp(), q0);
            let n: nat = if n0 == pow2(53) { pow2(52) } else { n0 };
            let q = if n0 == pow2(53) { q0 + 1 } else { q0 };
            let b = f64_bits_of(x);
            &&& b < 0x1_0000_0000_0000_0000
            &&& f64_biased(b as u64) < 2047
            &&& f64_negative(b as u64) == (x.sgn() == Sign::Negative)
            &&& n == 0 ==> f64_biased(b as u64) == 0 && f64_fraction(b as u64) == 0
            &&& n > 0 ==> f64_significand(b as u64) == n && f64_exponent(b as u64) == q
        }),
{
    lemma2_to64();
    vstd::arithmetic::power2::lemma2_to64_rest();
    let m = x.mant();
    let e = x.exp();
    let bl = nat_bit_length(m);
    let top = e + bl - 1;
    let q0 = f64_quantum(top);
    let n0 = quanta(m, e, q0);
    let n: nat = if n0 == pow2(53) { pow2(52) } else { n0 };
    let q = if n0 == pow2(53) { q0 + 1 } else { q0 };
    // Bounds on the number of quanta.
    crate::bits_spec::lemma_bit_length_bound(m);
    let d = e - q0;
    let num = m * pow2(pos_part(d));
    let den = pow2(neg_part(d));
    lemma_pow2_pos(pos_part(d));
    lemma_pow2_pos(neg_part(d));
    lemma_pow2_pos((bl - 1) as nat);
    let hi = pow2(53);
    // `m·2^d < 2^53` in units of `den`, and at least `2^52` for normals.
    if d >= 0 {
        let dn = d as nat;
        lemma_pow2_adds(bl, dn);
        lemma_pow2_adds((bl - 1) as nat, dn);
        assert(bl + dn <= 53);
        if bl + dn < 53 {
            vstd::arithmetic::power2::lemma_pow2_strictly_increases(bl + dn, 53);
        }
        assert(num < hi * den) by (nonlinear_arith)
            requires
                num == m * pow2(dn),
                m < pow2(bl),
                pow2(bl + dn) == pow2(bl) * pow2(dn),
                pow2(bl + dn) <= hi,
                den == 1,
                pow2(dn) > 0,
        ;
        if q0 > -1074 {
            assert((bl - 1) as nat + dn == 52);
            assert(num >= pow2(52) * den) by (nonlinear_arith)
                requires
                    num == m * pow2(dn),
                    m >= pow2((bl - 1) as nat),
                    pow2((bl - 1) as nat + dn) == pow2((bl - 1) as nat) * pow2(dn),
                    pow2((bl - 1) as nat + dn) == pow2(52),
                    den == 1,
            ;
        }
    } else {
        let dn = (-d) as nat;
        lemma_pow2_adds(53, dn);
        lemma_pow2_adds(52, dn);
        if bl < 53 + dn {
            vstd::arithmetic::power2::lemma_pow2_strictly_increases(bl, 53 + dn);
        }
        assert(num < hi * den) by (nonlinear_arith)
            requires
                num == m * 1,
                m < pow2(bl),
                pow2(bl) <= pow2(53 + dn),
                pow2(53 + dn) == hi * pow2(dn),
                den == pow2(dn),
        ;
        if q0 > -1074 {
            assert((bl - 1) as nat == 52 + dn);
            assert(pow2((bl - 1) as nat) == pow2(52 + dn));
            assert(num >= pow2(52) * den) by (nonlinear_arith)
                requires
                    pow2((bl - 1) as nat) == pow2(52 + dn),
                    num == m * 1,
                    m >= pow2((bl - 1) as nat),
                    pow2(52 + dn) == pow2(52) * pow2(dn),
                    den == pow2(dn),
            ;
        }
    }
    crate::float::decimal::lemma_round_half_even_range(num, den, 0, hi);
    if q0 > -1074 {
        crate::float::decimal::lemma_round_half_even_range(num, den, pow2(52), hi);
    }
    assert(n < hi);
    assert(q > -1074 ==> n >= pow2(52));
    let s: u64 = if x.sgn() == Sign::Negative { 1 } else { 0 };
    assert(sign_bit(x) == s as nat);
    let packed = s * sign_unit() + (q + 1074) as nat * exp_unit() + n;
    assert(f64_bits_of(x) == packed);
    if n >= pow2(52) {
        let be = (q + 1075) as u64;
        let fr = (n - pow2(52)) as u64;
        assert(q <= 971);
        assert(be as int == q + 1075);
        assert(fr as int == n - pow2(52));
        assert(q >= -1074);
        assert(exp_unit() == 0x10_0000_0000_0000);
        assert((q + 1074) as nat == q + 1074);
        assert((q + 1074) * 0x10_0000_0000_0000 + n == (q + 1075) * 0x10_0000_0000_0000 + (n
            - 0x10_0000_0000_0000));
        assert((q + 1074) as nat * exp_unit() + n == be * exp_unit() + fr);
        assert(packed == s * sign_unit() + be * exp_unit() + fr);
        lemma_f64_pack_fields(packed as u64, s, be, fr);
    } else {
        assert(q == -1074);
        lemma_f64_pack_fields(packed as u64, s, 0, n as u64);
    }
}


/// The part of a binary64 pattern below the sign bit is fixed by `|x|`
/// alone, and lies below the sign bit.
proof fn lemma_f64_bits_magnitude(x: &BigFloat)
    requires
        x.valid(),
    ensures
        sign_bit(x) * sign_unit() <= f64_bits_of(x) < sign_bit(x) * sign_unit() + sign_unit(),
{
    lemma2_to64();
    vstd::arithmetic::power2::lemma2_to64_rest();
    if x.cls() == FloatClass::Finite && x.mant() > 0 {
        let top = sat(x.exp() + nat_bit_length(x.mant()) - 1);
        if -1076 <= top <= 1023 {
            let q0 = f64_quantum(top);
            lemma_quanta_bound(x.mant(), x.exp(), q0);
        }
    }
}

/// How `to_f64_bits` treats each kind of value: NaN gives the quiet NaN
/// pattern; `±∞`, and finite values whose top bit lies above `2^1023`, give
/// `±∞` with the sign of `x`; the zero gives `+0`; a non-zero finite value
/// of magnitude at most `2^-1075` (half the smallest subnormal) gives zero
/// with the sign of `x`.
pub proof fn law_to_f64_classes(x: &BigFloat)
    requires
        x.valid(),
    ensures
        x.cls() == FloatClass::Nan ==> f64_bits_of(x) == 0x7FF8_0000_0000_0000,
        x.cls() == FloatClass::Infinite ==> f64_bits_of(x) == inf_bits(sign_bit(x)),
        x.is_zero_spec() ==> f64_bits_of(x) == 0,
        (x.cls() == FloatClass::Finite && x.mant() > 0 && x.exp() + nat_bit_length(x.mant()) - 1
            > 1023) ==> f64_bits_of(x) == inf_bits(sign_bit(x)),
        (x.cls() == FloatClass::Finite && x.mant() > 0 && 2 * x.mant() * pow2(
            pos_part(x.exp() + 1074),
        ) <= pow2(neg_part(x.exp() + 1074))) ==> f64_bits_of(x) == sign_bit(x) * sign_unit(),
{
    lemma2_to64();
    x.lemma_fields();
    let m = x.mant();
    let e = x.exp();
    if x.cls() == FloatClass::Finite && m > 0 && 2 * m * pow2(pos_part(e + 1074)) <= pow2(
        neg_part(e + 1074),
    ) {
        let bl = nat_bit_length(m);
        crate::bits_spec::lemma_bit_length_bound(m);
        lemma_pow2_pos(pos_part(e + 1074));
        lemma_pow2_pos(neg_part(e + 1074));
        // The magnitude is below one quantum `2^-1074`, so `e + 1074 < 0`.
        if e + 1074 >= 0 {
            assert(2 * m * pow2(pos_part(e + 1074)) >= 2) by (nonlinear_arith)
                requires
                    m >= 1,
                    pow2(pos_part(e + 1074)) >= 1,
            ;
            assert(false);
        }
        let d = neg_part(e + 1074);
        // `2^bl <= 2m <= 2^d`, so the top bit is at most `-1075`.
        assert(bl >= 1);
        assert(pos_part(e + 1074) == 0);
        assert(pow2(0) == 1);
        assert(2 * m * pow2(pos_part(e + 1074)) == 2 * m) by (nonlinear_arith)
            requires
                pow2(pos_part(e + 1074)) == 1,
        ;
        vstd::arithmetic::power2::lemma_pow2_unfold(bl);
        assert(pow2(bl) <= pow2(d));
        if bl > d {
            vstd::arithmetic::power2::lemma_pow2_strictly_increases(d, bl);
        }
        let top = e + bl - 1;
        assert(top <= -1075);
        assert(sat(top) == top);
        if top >= -1076 {
            assert(f64_quantum(top) == -1074);
            // At most half a quantum: no quanta, ties going to the even 0.
            let num = m * pow2(pos_part(e + 1074));
            let den = pow2(d);
            assert(pos_part(e + 1074) == 0);
            assert(num == m);
            assert(2 * num <= den);
            vstd::arithmetic::div_mod::lemma_small_mod(num, den);
            vstd::arithmetic::div_mod::lemma_basic_div(num as int, den as int);
            assert(round_half_even(num, den) == 0);
            assert(quanta(m, e, -1074) == 0);
            lemma_pow2_pos(53);
            assert(((-1074 + 1074) as nat) * exp_unit() == 0);
        }
        assert(f64_bits_of(x) == sign_bit(x) * sign_unit());
    }
}

/// Negating a value flips the sign bit of its binary64 pattern and keeps
/// every other bit; NaN and the zero, which negation leaves as they are,
/// keep their pattern.
pub proof fn law_to_f64_negation(x: &BigFloat, y: &BigFloat)
    requires
        x.valid(),
        y.valid(),
        is_negation(x, y),
    ensures
        (x.cls() == FloatClass::Nan || x.is_zero_spec()) ==> f64_bits_of(y) == f64_bits_of(x),
        !(x.cls() == FloatClass::Nan || x.is_zero_spec()) ==> f64_bits_of(y) as int == (if f64_bits_of(
            x,
        ) >= sign_unit() {
            f64_bits_of(x) - sign_unit()
        } else {
            f64_bits_of(x) + sign_unit() as int
        }),
{
    lemma_f64_bits_magnitude(x);
    lemma_f64_bits_magnitude(y);
    assert(f64_bits_of(y) - sign_bit(y) * sign_unit() == f64_bits_of(x) - sign_bit(x)
        * sign_unit());
}


/// Rounding `m·2^e`, at least `prec` bits wide, to `prec` bits moves it by
/// less than one unit in the last place of the result, in every mode: the
/// result `r·2^x` has `x >= e`, and `|r·2^(x-e) - m| < 2^(x-e)`.
pub proof fn law_round_error(m: nat, e: int, prec: nat, mode: RoundingMode, negative: bool)
    requires
        m > 0,
        prec > 0,
        nat_bit_length(m) >= prec,
        i64::MIN + prec <= e,
        e + nat_bit_length(m) <= i64::MAX,
    ensures
        parts_e(m, e, prec, mode, negative) >= e,
        ({
            let u = pow2((parts_e(m, e, prec, mode, negative) - e) as nat);
            let v = parts_m(m, e, prec, mode, negative) * u;
            &&& v < m + u
            &&& m < v + u
        }),
{
    lemma2_to64();
    lemma_strip(m);
    let t = nat_trailing_zeros(m);
    let m1 = strip_m(m);
    let b1 = nat_bit_length(m1);
    let r = parts_m(m, e, prec, mode, negative);
    let x = parts_e(m, e, prec, mode, negative);
    if b1 <= prec {
        lemma_parts_exact(m, e, prec, mode, negative);
        if x < e {
            let d = (e - x) as nat;
            assert(min_int(x, e) == x);
            assert(scaled(r, x, x) == r * pow2(0));
            assert(r * pow2(0) == r);
            lemma_bl_mul_pow2(m, d);
            assert(false);
        }
        assert(min_int(x, e) == e);
        assert(scaled(m, e, e) == m * pow2(0));
        assert(m * pow2(0) == m);
        lemma_pow2_pos((x - e) as nat);
    } else {
        // `m1` is odd and wider than `prec`: no padding, and `round_m`
        // drops `d` low bits of it.
        let d = (b1 - prec) as nat;
        assert(canon_m(m, prec) == m1);
        let e1 = e + t;
        assert(strip_e(m, e) == e1);
        assert(canon_e(m, e, prec) == e1);
        assert(m1 / pow2(0) == m1);
        assert(nat_trailing_zeros(m1) == 0);
        assert(strip_m(m1) == m1);
        assert(strip_e(m1, e1) == e1);
        lemma_pow2_pos(d);
        lemma_pow2_pos(t);
        let fl = m1 / pow2(d);
        let rem = m1 % pow2(d);
        lemma_fundamental_div_mod(m1 as int, pow2(d) as int);
        vstd::arithmetic::div_mod::lemma_mod_bound(m1 as int, pow2(d) as int);
        lemma_bl_div_pow2(m1, d);
        let q = round_shift(m1, d, mode, negative);
        assert(rem == 0 ==> !round_up(mode, negative, fl, rem, pow2(d)));
        // `|q·2^d - m1| < 2^d`.
        assert(q * pow2(d) < m1 + pow2(d) && m1 < q * pow2(d) + pow2(d)) by (nonlinear_arith)
            requires
                m1 == pow2(d) * fl + rem,
                rem < pow2(d),
                q == fl || (q == fl + 1 && rem > 0),
        ;
        let k: nat;
        if q == fl + 1 {
            lemma_increment_bits(fl, prec);
        }
        if nat_bit_length(q) > prec {
            // A carry: `q == 2^prec`, halved exactly.
            assert(q == pow2(prec));
            vstd::arithmetic::power2::lemma_pow2_unfold(prec);
            assert(nat_bit_length(q) - prec == 1);
            assert(r == q / pow2(1));
            assert(x == e1 + d + 1);
            k = t + d + 1;
            lemma_pow2_adds(t, d + 1);
            lemma_pow2_adds(d, 1);
            assert(r * pow2(d + 1) == q * pow2(d)) by (nonlinear_arith)
                requires
                    r == q / pow2(1),
                    q == 2 * pow2((prec - 1) as nat),
                    pow2(1) == 2,
                    pow2(d + 1) == pow2(d) * pow2(1),
            ;
            assert(r * pow2(k) < m + pow2(k) && m < r * pow2(k) + pow2(k)) by (nonlinear_arith)
                requires
                    r * pow2(d + 1) == q * pow2(d),
                    q * pow2(d) < m1 + pow2(d),
                    m1 < q * pow2(d) + pow2(d),
                    pow2(d) <= pow2(d + 1),
                    m == m1 * pow2(t),
                    pow2(k) == pow2(t) * pow2(d + 1),
                    pow2(t) > 0,
            ;
        } else {
            assert(nat_bit_length(q) == prec);
            assert(r == q);
            assert(x == e1 + d);
            k = t + d;
            lemma_pow2_adds(t, d);
            assert(r * pow2(k) < m + pow2(k) && m < r * pow2(k) + pow2(k)) by (nonlinear_arith)
                requires
                    r == q,
                    q * pow2(d) < m1 + pow2(d),
                    m1 < q * pow2(d) + pow2(d),
                    m == m1 * pow2(t),
                    pow2(k) == pow2(t) * pow2(d),
                    pow2(t) > 0,
            ;
        }
        assert((x - e) as nat == k);
    }
}


/// A quotient has `max_prec` correct bits: the finite result `x` of `a / b`
/// differs from the exact quotient by less than one unit in its last
/// place, in every rounding mode, away from the limits of the `i64`
/// exponents. With `k = div_shift(a, b)` and `E = div_exponent(a, b)`, the
/// exact quotient is `(m_a·2^k / m_b)·2^E`, so `|x - a/b| < 2^x.exp()` reads,
/// in units of `2^E` and multiplied by `m_b`,
/// `|x.mant()·2^(x.exp()-E)·m_b - m_a·2^k| < 2^(x.exp()-E)·m_b`.
pub proof fn law_div_error(a: &BigFloat, b: &BigFloat, mode: RoundingMode, x: &BigFloat)
    requires
        a.valid(),
        b.valid(),
        a.cls() == FloatClass::Finite,
        b.cls() == FloatClass::Finite,
        a.mant() > 0,
        b.mant() > 0,
        div_result(a, b, mode, Ok::<BigFloat, OxiNumError>(*x)),
        i64::MIN + max_prec(a, b) + div_shift(a, b) <= a.exp() - b.exp(),
        a.exp() - b.exp() + nat_bit_length(a.mant()) <= i64::MAX,
    ensures
        x.exp() >= div_exponent(a, b),
        ({
            let u = pow2((x.exp() - div_exponent(a, b)) as nat);
            let n = a.mant() * pow2(div_shift(a, b));
            &&& x.mant() * u * b.mant() < n + u * b.mant()
            &&& n < x.mant() * u * b.mant() + u * b.mant()
            &&& (mode == RoundingMode::ToZero || (mode == RoundingMode::ToInf && a.sgn() != b.sgn())
                || (mode == RoundingMode::ToNegInf && a.sgn() == b.sgn())) ==> x.mant() * u
                * b.mant() <= n
        }),
        x.cls() == FloatClass::Finite,
        x.mant() > 0,
        x.sgn() == (if a.sgn() == b.sgn() {
            Sign::Positive
        } else {
            Sign::Negative
        }),
        x.prec() == (if a.prec() >= b.prec() {
            a.prec()
        } else {
            b.prec()
        }),
{
    law_div_quotient_bits(a, b);
    let q = div_quotient(a, b);
    let e = div_exponent(a, b);
    let p = max_prec(a, b);
    let k = div_shift(a, b);
    let ma = a.mant();
    let mb = b.mant();
    let neg = sign_xor(a.sgn(), b.sgn()) == Sign::Negative;
    assert(e == a.exp() - b.exp() - k);
    crate::bits_spec::lemma_bit_length_bound(mb);
    assert(nat_bit_length(mb) >= 1);
    assert(e + nat_bit_length(q) <= i64::MAX);
    law_round_error(q, e, p, mode, neg);
    law_rounding_modes(q, e, p, mode, neg);
    let u = pow2((x.exp() - e) as nat);
    let n = ma * pow2(k);
    lemma_fundamental_div_mod(n as int, mb as int);
    vstd::arithmetic::div_mod::lemma_mod_bound(n as int, mb as int);
    let r = x.mant();
    assert(r * u * mb < n + u * mb && n < r * u * mb + u * mb) by (nonlinear_arith)
        requires
            n == mb * q + n % mb,
            0 <= n % mb < mb,
            r * u < q + u,
            q < r * u + u,
            mb > 0,
    ;
    if r * u <= q {
        assert(r * u * mb <= n) by (nonlinear_arith)
            requires
                n == mb * q + n % mb,
                0 <= n % mb,
                r * u <= q,
                mb > 0,
        ;
    }
    let w = pow2((nat_bit_length(q) - p) as nat);
    assert(q >= w) by {
        crate::bits_spec::lemma_bit_length_bound(q);
        if ((nat_bit_length(q) - p) as nat) < (nat_bit_length(q) - 1) as nat {
            vstd::arithmetic::power2::lemma_pow2_strictly_increases(
                (nat_bit_length(q) - p) as nat,
                (nat_bit_length(q) - 1) as nat,
            );
        }
    }
    assert(r > 0) by {
        if r == 0 {
            assert(r * u == 0) by (nonlinear_arith)
                requires
                    r == 0,
            ;
        }
    }
}


/// The shape of a rounding to `prec` bits, in units of `2^e`: with
/// `w = 2^(bl(m) - prec)` the unit in the last kept place of `m`, the
/// result is `m` rounded down to a multiple of `w`, or that plus `w`
/// exactly when the mode rounds the dropped part `m % w` up.
proof fn lemma_round_shape(m: nat, e: int, prec: nat, mode: RoundingMode, negative: bool)
    requires
        m > 0,
        prec > 0,
        nat_bit_length(m) >= prec,
        i64::MIN + prec <= e,
        e + nat_bit_length(m) <= i64::MAX,
    ensures
        parts_e(m, e, prec, mode, negative) >= e,
        ({
            let v = parts_m(m, e, prec, mode, negative) * pow2(
                (parts_e(m, e, prec, mode, negative) - e) as nat,
            );
            let w = pow2((nat_bit_length(m) - prec) as nat);
            &&& w > 0
            &&& v == (m / w) * w || v == (m / w) * w + w
            &&& (v == (m / w) * w + w) == (m % w > 0 && round_up(
                mode,
                negative,
                m / w,
                m % w,
                w,
            ))
        }),
{
    lemma2_to64();
    lemma_strip(m);
    let t = nat_trailing_zeros(m);
    let m1 = strip_m(m);
    let b1 = nat_bit_length(m1);
    let r = parts_m(m, e, prec, mode, negative);
    let x = parts_e(m, e, prec, mode, negative);
    let k0 = (nat_bit_length(m) - prec) as nat;
    let w = pow2(k0);
    lemma_pow2_pos(k0);
    lemma_pow2_pos(t);
    if b1 <= prec {
        // Exact: `m` is a multiple of `w`.
        law_round_error(m, e, prec, mode, negative);
        lemma_parts_exact(m, e, prec, mode, negative);
        assert(min_int(x, e) == e);
        assert(scaled(m, e, e) == m * pow2(0));
        assert(m * pow2(0) == m);
        let j = (t - k0) as nat;
        lemma_pow2_adds(j, k0);
        lemma_pow2_pos(j);
        assert(m == (m1 * pow2(j)) * w + 0) by (nonlinear_arith)
            requires
                m == m1 * pow2(t),
                pow2(t) == pow2(j) * w,
        ;
        vstd::arithmetic::div_mod::lemma_fundamental_div_mod_converse(
            m as int,
            w as int,
            (m1 * pow2(j)) as int,
            0,
        );
        assert(scaled(r, x, e) == r * pow2((x - e) as nat));
    } else {
        let d = (b1 - prec) as nat;
        assert(k0 == t + d);
        assert(canon_m(m, prec) == m1);
        let e1 = e + t;
        assert(strip_e(m, e) == e1);
        assert(canon_e(m, e, prec) == e1);
        assert(m1 / pow2(0) == m1);
        assert(nat_trailing_zeros(m1) == 0);
        assert(strip_m(m1) == m1);
        assert(strip_e(m1, e1) == e1);
        lemma_pow2_pos(d);
        lemma_pow2_adds(t, d);
        let fl = m1 / pow2(d);
        let rem = m1 % pow2(d);
        lemma_fundamental_div_mod(m1 as int, pow2(d) as int);
        vstd::arithmetic::div_mod::lemma_mod_bound(m1 as int, pow2(d) as int);
        lemma_bl_div_pow2(m1, d);
        // In units of `2^e`: `m = fl·w + rem·2^t`.
        assert(m == fl * w + rem * pow2(t) && rem * pow2(t) < w) by (nonlinear_arith)
            requires
                m == m1 * pow2(t),
                m1 == pow2(d) * fl + rem,
                rem < pow2(d),
                w == pow2(t) * pow2(d),
                pow2(t) > 0,
        ;
        vstd::arithmetic::div_mod::lemma_fundamental_div_mod_converse(
            m as int,
            w as int,
            fl as int,
            (rem * pow2(t)) as int,
        );
        let rs = rem * pow2(t);
        // The comparisons `round_up` makes do not depend on the unit.
        assert((rs > 0) == (rem > 0) && (2 * rs >= w) == (2 * rem >= pow2(d)) && (2 * rs > w) == (2
            * rem > pow2(d)) && (2 * rs == w) == (2 * rem == pow2(d))) by (nonlinear_arith)
            requires
                rs == rem * pow2(t),
                w == pow2(t) * pow2(d),
                pow2(t) > 0,
        ;
        assert(round_up(mode, negative, fl, rs, w) == round_up(mode, negative, fl, rem, pow2(d)));
        let q = round_shift(m1, d, mode, negative);
        assert(rem == 0 ==> !round_up(mode, negative, fl, rem, pow2(d)));
        if q == fl + 1 {
            lemma_increment_bits(fl, prec);
        }
        if nat_bit_length(q) > prec {
            assert(q == pow2(prec));
            vstd::arithmetic::power2::lemma_pow2_unfold(prec);
            assert(nat_bit_length(q) - prec == 1);
            assert(r == q / pow2(1));
            assert(x == e1 + d + 1);
            lemma_pow2_adds(t, d + 1);
            lemma_pow2_adds(d, 1);
            assert(r * pow2(t + d + 1) == q * w) by (nonlinear_arith)
                requires
                    r == q / pow2(1),
                    q == 2 * pow2((prec - 1) as nat),
                    pow2(1) == 2,
                    pow2(d + 1) == pow2(d) * pow2(1),
                    pow2(t + (d + 1)) == pow2(t) * pow2(d + 1),
                    w == pow2(t) * pow2(d),
            ;
            assert((x - e) as nat == t + d + 1);
        } else {
            assert(r == q);
            assert(x == e1 + d);
            assert((x - e) as nat == t + d);
        }
        assert(r * pow2((x - e) as nat) == q * w);
        assert((q == fl + 1) ==> q * w == fl * w + w) by (nonlinear_arith);
        assert((q == fl + 1) == (rs > 0 && round_up(mode, negative, fl, rs, w)));
        assert(q * w != fl * w + w || q == fl + 1) by (nonlinear_arith)
            requires
                q == fl || q == fl + 1,
                w > 0,
        ;
    }
}

/// Rounding `±m·2^e` to `prec` bits lands on one of the two neighbouring
/// multiples of the last kept unit `w = 2^(bl(m) - prec)` (in units of
/// `2^e`), leaves a multiple of `w` unchanged, and picks the neighbour the
/// mode asks for: toward zero, away from zero, toward `+∞` (up for a
/// positive value, toward zero for a negative one), toward `−∞`, or the
/// nearest, with ties going away from zero, toward zero or to the even
/// multiple of `w`.
pub proof fn law_rounding_modes(m: nat, e: int, prec: nat, mode: RoundingMode, negative: bool)
    requires
        m > 0,
        prec > 0,
        nat_bit_length(m) >= prec,
        i64::MIN + prec <= e,
        e + nat_bit_length(m) <= i64::MAX,
    ensures
        parts_e(m, e, prec, mode, negative) >= e,
        ({
            let v = parts_m(m, e, prec, mode, negative) * pow2(
                (parts_e(m, e, prec, mode, negative) - e) as nat,
            );
            let w = pow2((nat_bit_length(m) - prec) as nat);
            let lo = (m / w) * w;
            let tie = 2 * (m - lo) == w;
            let nearest = mode == RoundingMode::HalfAway || mode == RoundingMode::HalfToZero || mode
                == RoundingMode::HalfEven;
            &&& lo <= m < lo + w
            &&& v == lo || v == lo + w
            &&& m == lo ==> v == m
            &&& mode == RoundingMode::ToZero ==> v <= m
            &&& mode == RoundingMode::AwayFromZero ==> v >= m
            &&& mode == RoundingMode::ToInf ==> (if negative { v <= m } else { v >= m })
            &&& mode == RoundingMode::ToNegInf ==> (if negative { v >= m } else { v <= m })
            &&& nearest ==> 2 * (v - m) <= w && 2 * (m - v) <= w
            &&& (mode == RoundingMode::HalfAway && tie) ==> v > m
            &&& (mode == RoundingMode::HalfToZero && tie) ==> v < m
            &&& (mode == RoundingMode::HalfEven && tie) ==> (v / w) % 2 == 0
        }),
{
    lemma_round_shape(m, e, prec, mode, negative);
    let v = parts_m(m, e, prec, mode, negative) * pow2(
        (parts_e(m, e, prec, mode, negative) - e) as nat,
    );
    let w = pow2((nat_bit_length(m) - prec) as nat);
    let fl = m / w;
    let lo = fl * w;
    lemma_fundamental_div_mod(m as int, w as int);
    vstd::arithmetic::div_mod::lemma_mod_bound(m as int, w as int);
    assert(m == lo + m % w) by (nonlinear_arith)
        requires
            m == w * (m / w) + m % w,
            lo == (m / w) * w,
    ;
    if v == lo + w {
        assert(lo + w == (fl + 1) * w) by (nonlinear_arith)
            requires
                lo == fl * w,
        ;
        vstd::arithmetic::div_mod::lemma_fundamental_div_mod_converse(
            v as int,
            w as int,
            (fl + 1) as int,
            0,
        );
    } else {
        vstd::arithmetic::div_mod::lemma_fundamental_div_mod_converse(
            v as int,
            w as int,
            fl as int,
            0,
        );
    }
}


/// The integer that `t·2^x` denotes, when it is one.
pub open spec fn int_value(t: nat, x: int) -> nat {
    if x >= 0 {
        t * pow2(x as nat)
    } else {
        t / pow2((-x) as nat)
    }
}

/// A value `t·2^x` equal to the integer `i·2^k` (`k >= 0`) is that integer.
proof fn lemma_int_value(t: nat, x: int, i: nat, k: int)
    requires
        k >= 0,
        mag_eq(t, x, i, k),
    ensures
        int_value(t, x) == i * pow2(k as nat),
        x < 0 ==> t % pow2((-x) as nat) == 0,
{
    lemma2_to64();
    let lo = min_int(x, k);
    if x >= k {
        let d = (x - k) as nat;
        assert(scaled(i, k, lo) == i * pow2(0));
        assert(i * pow2(0) == i);
        lemma_pow2_adds(d, k as nat);
        assert(x as nat == d + k as nat);
        assert(t * pow2(x as nat) == i * pow2(k as nat)) by (nonlinear_arith)
            requires
                t * pow2(d) == i,
                pow2(d + k as nat) == pow2(d) * pow2(k as nat),
                x as nat == d + k as nat,
        ;
    } else {
        let d = (k - x) as nat;
        assert(scaled(t, x, lo) == t * pow2(0));
        assert(t * pow2(0) == t);
        assert(t == i * pow2(d));
        if x >= 0 {
            lemma_pow2_adds(x as nat, d);
            assert(t * pow2(x as nat) == i * pow2(k as nat)) by (nonlinear_arith)
                requires
                    t == i * pow2(d),
                    pow2(x as nat + d) == pow2(x as nat) * pow2(d),
                    k as nat == x as nat + d,
            ;
        } else {
            let n = (-x) as nat;
            lemma_pow2_adds(k as nat, n);
            lemma_pow2_pos(n);
            assert(d == k as nat + n);
            assert(t == (i * pow2(k as nat)) * pow2(n) + 0) by (nonlinear_arith)
                requires
                    t == i * pow2(d),
                    pow2(k as nat + n) == pow2(k as nat) * pow2(n),
                    d == k as nat + n,
            ;
            vstd::arithmetic::div_mod::lemma_fundamental_div_mod_converse(
                t as int,
                pow2(n) as int,
                (i * pow2(k as nat)) as int,
                0,
            );
        }
    }
}

/// Truncation toward zero gives the integer part: when that integer fits
/// in `prec` bits, `trunc(±m·2^e)` denotes the integer `N` with
/// `N ≤ m·2^e < N + 1` (so a value in `(0, 1)` truncates to zero), and an
/// integral `m·2^e` is kept as it is.
pub proof fn law_trunc_integer(negative: bool, m: nat, e: int, prec: nat, mode: RoundingMode)
    requires
        m > 0,
        0 < prec <= u32::MAX,
        e + nat_bit_length(m) <= i64::MAX,
        e >= 0 ==> nat_bit_length(m) <= prec,
        e < 0 ==> nat_bit_length(m / pow2((-e) as nat)) <= prec,
    ensures
        ({
            let t = trunc_m(negative, m, e, prec, mode);
            let x = trunc_e(negative, m, e, prec, mode);
            let n = int_value(t, x);
            &&& x < 0 ==> t % pow2((-x) as nat) == 0
            &&& (t == 0) == (n == 0)
            &&& e >= 0 ==> n == m * pow2(e as nat)
            &&& e < 0 ==> n * pow2((-e) as nat) <= m < (n + 1) * pow2((-e) as nat)
        }),
{
    lemma2_to64();
    lemma_strip(m);
    let t = trunc_m(negative, m, e, prec, mode);
    let x = trunc_e(negative, m, e, prec, mode);
    if e >= 0 {
        law_round_exact(m, e, prec, mode, negative);
        lemma_int_value(t, x, m, e);
        lemma_pow2_pos(e as nat);
        assert(m * pow2(e as nat) > 0) by (nonlinear_arith)
            requires
                m > 0,
                pow2(e as nat) > 0,
        ;
    } else {
        let k = (-e) as nat;
        lemma_pow2_pos(k);
        let i = m / pow2(k);
        lemma_fundamental_div_mod(m as int, pow2(k) as int);
        vstd::arithmetic::div_mod::lemma_mod_bound(m as int, pow2(k) as int);
        assert(i * pow2(k) <= m < (i + 1) * pow2(k)) by (nonlinear_arith)
            requires
                m == pow2(k) * i + m % pow2(k),
                0 <= m % pow2(k) < pow2(k),
        ;
        if k >= nat_bit_length(m) {
            crate::bits_spec::lemma_bit_length_bound(m);
            if k > nat_bit_length(m) {
                vstd::arithmetic::power2::lemma_pow2_strictly_increases(nat_bit_length(m), k);
            }
            assert(i == 0) by {
                vstd::arithmetic::div_mod::lemma_fundamental_div_mod_converse(
                    m as int,
                    pow2(k) as int,
                    0,
                    m as int,
                );
            }
            assert(t == 0);
            assert(x == 0);
            assert(int_value(0, 0) == 0 * pow2(0));
        } else {
            lemma_bl_div_pow2(m, k);
            lemma_strip(i);
            crate::bits_spec::lemma_bit_length_bound(i);
            assert(nat_bit_length(strip_m(i)) <= prec);
            lemma_parts_exact(i, 0, prec, mode, negative);
            lemma_int_value(t, x, i, 0);
            assert(i * pow2(0) == i);
        }
    }
}


/// `partial_cmp` orders values: NaN is unordered; two finite values
/// compare as their values (`Less` exactly when `a < b`, `Equal` exactly
/// when `a == b`, `Greater` exactly when `a > b`); `−∞` lies below and `+∞`
/// above every finite value, and two infinities are equal exactly when
/// their signs are; off NaN it agrees with `total_cmp`, and swapping the
/// operands reverses the answer.
pub proof fn law_partial_cmp(a: &BigFloat, b: &BigFloat)
    ensures
        (partial_order(a, b) is None) == (a.cls() == FloatClass::Nan || b.cls() == FloatClass::Nan),
        (a.cls() == FloatClass::Finite && b.cls() == FloatClass::Finite) ==> {
            &&& (partial_order(a, b) == Some(Ordering::Less)) == value_lt(a, b)
            &&& (partial_order(a, b) == Some(Ordering::Equal)) == value_eq(a, b)
            &&& (partial_order(a, b) == Some(Ordering::Greater)) == value_lt(b, a)
        },
        (a.cls() == FloatClass::Infinite && b.cls() == FloatClass::Finite) ==> partial_order(a, b)
            == Some(if a.sgn() == Sign::Negative { Ordering::Less } else { Ordering::Greater }),
        (a.cls() == FloatClass::Infinite && b.cls() == FloatClass::Infinite) ==> (partial_order(
            a,
            b,
        ) == Some(Ordering::Equal)) == (a.sgn() == b.sgn()),
        (a.cls() == FloatClass::Infinite && b.cls() == FloatClass::Infinite && a.sgn()
            == Sign::Negative && b.sgn() == Sign::Positive) ==> partial_order(a, b) == Some(
            Ordering::Less,
        ),
        (a.cls() != FloatClass::Nan && b.cls() != FloatClass::Nan) ==> partial_order(a, b) == Some(
            total_order(a, b),
        ),
        (partial_order(a, b) == Some(Ordering::Less)) == (partial_order(b, a) == Some(
            Ordering::Greater,
        )),
        (partial_order(a, b) == Some(Ordering::Equal)) == (partial_order(b, a) == Some(
            Ordering::Equal,
        )),
{
    let lo = min_int(a.exp(), b.exp());
    lemma_compare_at(a, b, lo);
    lemma_compare_at(b, a, lo);
}


/// A byte with upper-case ASCII letters taken to lower case.
pub open spec fn ascii_lower(c: u8) -> u8 {
    if 65 <= c <= 90 {
        (c + 32) as u8
    } else {
        c
    }
}

/// Hexadecimal digits read as their values: the digits `hex_digit` writes
/// (`0`–`9`, `a`–`f`) read back as the value written, an upper-case letter
/// `A`–`F` reads as its lower-case form, and no other byte is a digit.
pub proof fn law_hex_digit_values(c: u8, v: nat)
    ensures
        v < 16 ==> hex_byte_value((hex_digit(v) as u32) as u8) == Some(v as u8),
        65 <= c <= 70 ==> hex_byte_value(c) == hex_byte_value(ascii_lower(c)),
        (hex_byte_value(c) is Some) == ((48 <= c <= 57) || (97 <= c <= 102) || (65 <= c <= 70)),
{
}

/// Reading a run of hex digits ignores case: lower-casing the digits does
/// not change the number they denote.
pub proof fn law_hex_digits_ignore_case(d: Seq<u8>)
    ensures
        hex_seq_value(d.map_values(|c: u8| ascii_lower(c))) == hex_seq_value(d),
    decreases d.len(),
{
    let l = d.map_values(|c: u8| ascii_lower(c));
    if d.len() > 0 {
        law_hex_digits_ignore_case(d.drop_last());
        assert(l.drop_last() =~= d.drop_last().map_values(|c: u8| ascii_lower(c)));
        assert(l.last() == ascii_lower(d.last()));
        assert(hex_byte_nat(ascii_lower(d.last())) == hex_byte_nat(d.last()));
    }
}


/// Two distinct multiples `A < B` of a common unit, one of them below
/// `n = 2^prec`, are at least `B / n` apart: `n·A <= (n - 1)·B`.
proof fn lemma_gap(a: nat, b: nat, n: nat)
    requires
        a < b,
        a < n || b < n,
        n >= 1,
    ensures
        n * a <= (n - 1) * b,
{
    if b <= n {
        assert(n * a <= (n - 1) * b) by (nonlinear_arith)
            requires
                a + 1 <= b,
                b <= n,
        ;
    } else {
        assert(n * a <= (n - 1) * b) by (nonlinear_arith)
            requires
                a + 1 <= n,
                n < b,
        ;
    }
}

/// When `|a| < |b|`, the quotient rounded half to even at the larger
/// precision is below one: `|a/b| <= 1 - 2^-P` leaves no room to round up
/// to `1`.
proof fn lemma_rem_quotient_below_one(a: &BigFloat, b: &BigFloat)
    requires
        a.valid(),
        b.valid(),
        a.cls() == FloatClass::Finite,
        b.cls() == FloatClass::Finite,
        a.mant() > 0,
        b.mant() > 0,
        mag_lt(a.mant(), a.exp(), b.mant(), b.exp()),
        i64::MIN + max_prec(a, b) + div_shift(a, b) <= a.exp() - b.exp(),
        a.exp() - b.exp() + nat_bit_length(a.mant()) <= i64::MAX,
    ensures
        rem_q_e(a, b) < 0,
        rem_q_m(a, b) < pow2((-rem_q_e(a, b)) as nat),
{
    lemma2_to64();
    law_div_quotient_bits(a, b);
    let q = div_quotient(a, b);
    let e = div_exponent(a, b);
    let p = max_prec(a, b);
    let k = div_shift(a, b);
    let ma = a.mant();
    let mb = b.mant();
    let ea = a.exp();
    let eb = b.exp();
    let n = pow2(p);
    lemma_pow2_pos(p);
    assert(e == ea - eb - k);
    crate::bits_spec::lemma_bit_length_bound(ma);
    crate::bits_spec::lemma_bit_length_bound(mb);
    crate::bits_spec::lemma_bit_length_bound(q);
    // Both mantissas have at most `p` bits.
    if nat_bit_length(ma) < p {
        vstd::arithmetic::power2::lemma_pow2_strictly_increases(nat_bit_length(ma), p);
    }
    if nat_bit_length(mb) < p {
        vstd::arithmetic::power2::lemma_pow2_strictly_increases(nat_bit_length(mb), p);
    }
    assert(ma < n && mb < n);
    // The gap at the common unit `2^lo`.
    let lo = min_int(ea, eb);
    let sa = scaled(ma, ea, lo);
    let sb = scaled(mb, eb, lo);
    if ea == lo {
        assert(sa == ma * pow2(0));
        assert(ma * pow2(0) == ma);
    } else {
        assert(sb == mb * pow2(0));
        assert(mb * pow2(0) == mb);
    }
    lemma_gap(sa, sb, n);
    // `e < 0`: the exponent of `b` lies above `ea - k`.
    if ea != lo {
        let g = (ea - eb) as nat;
        lemma_pow2_pos(g);
        assert(sa >= pow2(g)) by (nonlinear_arith)
            requires
                sa == ma * pow2(g),
                ma >= 1,
                pow2(g) > 0,
        ;
        if g >= p {
            if g > p {
                vstd::arithmetic::power2::lemma_pow2_strictly_increases(p, g);
            }
            assert(false);
        }
    }
    let c = (k + lo - ea) as nat;
    let u = (-e) as nat;
    assert(u == c + (eb - lo));
    lemma_pow2_adds(c, (ea - lo) as nat);
    lemma_pow2_adds(c, (eb - lo) as nat);
    assert(c + (ea - lo) as nat == k);
    lemma_pow2_pos(c);
    let bu = pow2(u);
    // `n·ma·2^k <= (n-1)·mb·2^u`.
    assert(n * (ma * pow2(k)) <= (n - 1) * (mb * bu)) by (nonlinear_arith)
        requires
            n * sa <= (n - 1) * sb,
            sa == ma * pow2((ea - lo) as nat),
            sb == mb * pow2((eb - lo) as nat),
            pow2(k) == pow2(c) * pow2((ea - lo) as nat),
            bu == pow2(c) * pow2((eb - lo) as nat),
            pow2(c) > 0,
    ;
    // The truncated quotient: `n·q <= (n-1)·2^u`.
    let num = ma * pow2(k);
    lemma_fundamental_div_mod(num as int, mb as int);
    vstd::arithmetic::div_mod::lemma_mod_bound(num as int, mb as int);
    assert(n * q <= (n - 1) * bu) by (nonlinear_arith)
        requires
            num == mb * q + num % mb,
            num % mb >= 0,
            n * num <= (n - 1) * (mb * bu),
            mb > 0,
            n >= 1,
    ;
    // One unit in the last kept place of `q` fits below `2^u - q`.
    let bq = nat_bit_length(q);
    let wk = (bq - p) as nat;
    let w = pow2(wk);
    lemma_pow2_adds(wk, p);
    assert(wk + p == bq);
    assert(u >= bq) by {
        if u < bq {
            vstd::arithmetic::power2::lemma_pow2_unfold(bq);
            if u < (bq - 1) as nat {
                vstd::arithmetic::power2::lemma_pow2_strictly_increases(u, (bq - 1) as nat);
            }
            lemma_pow2_pos(u);
            assert(n * q >= n * bu) by (nonlinear_arith)
                requires
                    q >= bu,
            ;
            assert(n * bu > (n - 1) * bu) by (nonlinear_arith)
                requires
                    bu > 0,
            ;
        }
    }
    if u > bq {
        vstd::arithmetic::power2::lemma_pow2_strictly_increases(bq, u);
    }
    assert(pow2(bq) <= bu);
    assert(q + w <= bu) by (nonlinear_arith)
        requires
            n * q <= (n - 1) * bu,
            pow2(bq) == w * n,
            pow2(bq) <= bu,
            n >= 1,
    ;
    // Rounding half to even moves `q` by at most half of `w`.
    law_rounding_modes(q, e, p, RoundingMode::HalfEven, rem_q_negative(a, b));
    let qm = rem_q_m(a, b);
    let qe = rem_q_e(a, b);
    let d = (qe - e) as nat;
    let v = qm * pow2(d);
    assert(v < bu);
    lemma_pow2_pos(d);
    // `v >= w > 0`: `q` has at least `p` bits.
    if wk < (bq - 1) as nat {
        vstd::arithmetic::power2::lemma_pow2_strictly_increases(wk, (bq - 1) as nat);
    }
    assert(q >= w);
    assert(qm >= 1) by {
        if qm == 0 {
            assert(v == 0 * pow2(d));
        }
    }
    assert(qe < 0) by {
        if qe >= 0 {
            lemma_pow2_adds(d, u);
            assert(d == (qe as nat) + u);
            lemma_pow2_adds(qe as nat, u);
            lemma_pow2_pos(qe as nat);
            assert(v >= bu) by (nonlinear_arith)
                requires
                    v == qm * pow2(d),
                    qm >= 1,
                    pow2(d) == pow2(qe as nat) * bu,
                    pow2(qe as nat) >= 1,
            ;
        }
    }
    let nq = (-qe) as nat;
    assert(u == d + nq);
    lemma_pow2_adds(d, nq);
    assert(qm < pow2(nq)) by (nonlinear_arith)
        requires
            qm * pow2(d) < bu,
            bu == pow2(d) * pow2(nq),
            pow2(d) > 0,
    ;
}


/// A remainder by a divisor of larger magnitude is the dividend: for
/// finite non-zero `a`, `b` with `|a| < |b|`, `a % b` is finite, has the
/// sign of `a`, the larger precision, and the value of `a` (away from the
/// limits of the `i64` exponents).
pub proof fn law_rem_of_smaller_dividend(a: &BigFloat, b: &BigFloat, r: &BigFloat)
    requires
        a.valid(),
        b.valid(),
        a.cls() == FloatClass::Finite,
        b.cls() == FloatClass::Finite,
        a.mant() > 0,
        b.mant() > 0,
        mag_lt(a.mant(), a.exp(), b.mant(), b.exp()),
        rem_result(a, b, r),
        i64::MIN + max_prec(a, b) + div_shift(a, b) <= a.exp() - b.exp(),
        a.exp() - b.exp() + nat_bit_length(a.mant()) <= i64::MAX,
        i64::MIN + max_prec(a, b) <= a.exp(),
        a.exp() + nat_bit_length(a.mant()) <= i64::MAX,
    ensures
        r.cls() == FloatClass::Finite,
        r.sgn() == a.sgn(),
        r.prec() == max_prec(a, b),
        mag_eq(r.mant(), r.exp(), a.mant(), a.exp()),
{
    lemma_rem_quotient_below_one(a, b);
    let qm = rem_q_m(a, b);
    let qe = rem_q_e(a, b);
    let p = max_prec(a, b);
    // `trunc(a / b) == 0`.
    if qm > 0 {
        crate::bits_spec::lemma_bit_length_bound(qm);
        let nq = (-qe) as nat;
        if nat_bit_length(qm) > nq {
            vstd::arithmetic::power2::lemma_pow2_unfold(nat_bit_length(qm));
            if nq < (nat_bit_length(qm) - 1) as nat {
                vstd::arithmetic::power2::lemma_pow2_strictly_increases(
                    nq,
                    (nat_bit_length(qm) - 1) as nat,
                );
            }
        }
    }
    assert(rem_t_m(a, b) == 0);
    assert(rem_t_m(a, b) * b.mant() == 0) by (nonlinear_arith)
        requires
            rem_t_m(a, b) == 0,
    ;
    assert(rem_p_m(a, b) == 0);
    assert(rem_p_e(a, b) == 0);
    assert(!rem_p_negative(a, b));
    // The product is `+0`, and `a - 0` is `a` rounded to `p` bits.
    let pz = choose|pz: BigFloat|
        #![trigger sub_result(a, &pz, RoundingMode::HalfEven, r)]
        pz.cls() == FloatClass::Finite && pz.prec() == p && pz.mant() == rem_p_m(a, b) && pz.exp()
            == rem_p_e(a, b) && pz.sgn() == (if rem_p_negative(a, b) {
            Sign::Negative
        } else {
            Sign::Positive
        }) && sub_result(a, &pz, RoundingMode::HalfEven, r);
    let nb = choose|nb: BigFloat|
        #![trigger add_result(a, &nb, RoundingMode::HalfEven, r)]
        is_negation(&pz, &nb) && add_result(a, &nb, RoundingMode::HalfEven, r);
    assert(nb.mant() == 0 && nb.cls() == FloatClass::Finite && nb.prec() == p);
    assert(max_prec(a, &nb) == p);
    lemma_strip(a.mant());
    law_round_exact(a.mant(), a.exp(), p, RoundingMode::HalfEven, a.sgn() == Sign::Negative);
}

} // verus!
