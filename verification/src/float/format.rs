//! Decimal renderings of `BigFloat`: scientific and engineering notation
//! with a chosen number of significant digits, rounded ties to even and
//! computed in exact big-integer arithmetic; and the string helpers the
//! other renderings share.

use vstd::prelude::*;
use vstd::arithmetic::power::pow;
use vstd::arithmetic::power2::{lemma_pow2_pos, lemma2_to64};

use core::cmp::Ordering;

use crate::uint::BigUint;

use super::{BigFloat, FloatClass, Sign};
use super::decimal::{
    ten_pow, pos_part, neg_part, reaches_pow10, is_dec_exp, round_half_even, scaled_num, scaled_den,
    sig_int, digit_char, dec_digits, int_to_dec, sig_digits, sig_exp, lemma_ten_pow,
    lemma_ten_pow_adds, lemma_ten_pow_mono, lemma_reaches_mono, lemma_dec_exp_is,
    lemma_dec_exp_range, lemma_scaled_range, lemma_round_half_even_range, lemma_dec_digits_len,
    lemma_dec_digits_carry,
};

verus! {

/// Exponents whose powers of two and ten can be materialized: `|e| < 2^60`.
/// (Larger ones would need more than `2^57` bytes for one intermediate.)
pub open spec fn decimal_range(x: &BigFloat) -> bool {
    -0x1000_0000_0000_0000 < x.exp() < 0x1000_0000_0000_0000
}

/// `10^n` as a `BigUint`, multiplied up in chunks of `10^19`.
fn pow10(n: u64) -> (r: BigUint)
    ensures
        r@ == ten_pow(n as nat),
{
    let chunk_exp: u64 = 19;
    let chunk_val: u64 = 10_000_000_000_000_000_000;
    proof {
        reveal_with_fuel(pow, 20);
        lemma_ten_pow(0);
    }
    assert(ten_pow(19) == 10_000_000_000_000_000_000);
    let mut acc = BigUint::one();
    let full = n / chunk_exp;
    let rem = n % chunk_exp;
    let chunk = BigUint::from_u64(chunk_val);
    let mut i: u64 = 0;
    while i < full
        invariant
            i <= full,
            acc@ == ten_pow((19 * i) as nat),
            chunk@ == ten_pow(19),
        decreases full - i,
    {
        proof {
            lemma_ten_pow_adds((19 * i) as nat, 19);
        }
        acc = BigUint::mul_ref(&acc, &chunk);
        i = i + 1;
    }
    if rem > 0 {
        let mut tail: u64 = 1;
        let mut j: u64 = 0;
        while j < rem
            invariant
                j <= rem,
                rem < 19,
                tail == ten_pow(j as nat),
                ten_pow(19) == 10_000_000_000_000_000_000,
            decreases rem - j,
        {
            proof {
                lemma_ten_pow(j as nat);
                lemma_ten_pow_mono((j + 1) as nat, 19);
            }
            tail = tail * 10;
            j = j + 1;
        }
        proof {
            lemma_ten_pow_adds((19 * full) as nat, rem as nat);
        }
        acc = BigUint::mul_ref(&acc, &BigUint::from_u64(tail));
    } else {
        proof {
            lemma_ten_pow(0);
            lemma_ten_pow_adds((19 * full) as nat, 0);
        }
    }
    acc
}

/// `2^n` as a `BigUint`.
pub(crate) fn pow2(n: u64) -> (r: BigUint)
    ensures
        r@ == vstd::arithmetic::power2::pow2(n as nat),
{
    BigUint::one().shl_bits(n)
}

/// Round the exact ratio `num / den` to the nearest integer, ties to even.
pub(crate) fn round_ratio_half_even(num: &BigUint, den: &BigUint) -> (r: BigUint)
    requires
        den@ > 0,
    ensures
        r@ == round_half_even(num@, den@),
{
    let (quotient, remainder) = num.div_rem(den);
    if remainder.is_zero() {
        return quotient;
    }
    let twice_rem = remainder.shl_bits(1);
    proof {
        lemma2_to64();
    }
    match twice_rem.cmp(den) {
        Ordering::Less => quotient,
        Ordering::Greater => BigUint::add_ref(&quotient, &BigUint::one()),
        Ordering::Equal => {
            if quotient.test_bit(0) {
                BigUint::add_ref(&quotient, &BigUint::one())
            } else {
                quotient
            }
        },
    }
}

/// The decimal digit character of `v < 10`.
fn digit_to_char(v: u64) -> (c: char)
    requires
        v < 10,
    ensures
        c == digit_char(v as nat),
{
    match v {
        0 => '0',
        1 => '1',
        2 => '2',
        3 => '3',
        4 => '4',
        5 => '5',
        6 => '6',
        7 => '7',
        8 => '8',
        _ => '9',
    }
}

/// The decimal digits of `n`, most significant first.
fn to_decimal_digits(n: &BigUint) -> (r: Vec<char>)
    ensures
        r@ == dec_digits(n@),
{
    let ten = BigUint::from_u64(10);
    let mut rest = n.clone();
    let mut acc: Vec<char> = Vec::new();
    while !rest.lt(&ten)
        invariant
            ten@ == 10,
            dec_digits(n@) == dec_digits(rest@) + acc@,
        decreases rest@,
    {
        let (q, r) = rest.div_rem(&ten);
        let v = match r.to_u64() {
            Some(v) => v,
            None => 0,
        };
        let c = digit_to_char(v);
        proof {
            assert(dec_digits(rest@) == dec_digits(q@).push(c));
            assert(dec_digits(rest@) + acc@ =~= dec_digits(q@) + acc@.insert(0, c));
        }
        acc.insert(0, c);
        rest = q;
    }
    let v = match rest.to_u64() {
        Some(v) => v,
        None => 0,
    };
    let c = digit_to_char(v);
    proof {
        assert(dec_digits(rest@) == seq![c]);
        assert(dec_digits(rest@) + acc@ =~= acc@.insert(0, c));
    }
    acc.insert(0, c);
    acc
}

/// `m·2^e >= 10^c`, by comparing the cross-multiplied big integers
/// `m·2^max(e,0)·10^max(-c,0)` and `2^max(-e,0)·10^max(c,0)`.
fn at_least_pow10(m: &BigUint, e: i64, c: i64) -> (r: bool)
    ensures
        r == reaches_pow10(m@, e as int, c as int),
{
    let e_pos: u64 = if e > 0 {
        e as u64
    } else {
        0
    };
    let e_neg: u64 = if e < 0 {
        (0i128 - e as i128) as u64
    } else {
        0
    };
    let c_pos: u64 = if c > 0 {
        c as u64
    } else {
        0
    };
    let c_neg: u64 = if c < 0 {
        (0i128 - c as i128) as u64
    } else {
        0
    };
    let lhs = BigUint::mul_ref(&m.shl_bits(e_pos), &pow10(c_neg));
    let rhs = BigUint::mul_ref(&pow2(e_neg), &pow10(c_pos));
    !lhs.lt(&rhs)
}

/// The `d` significant decimal digits of `|value|` (rounded ties to even)
/// and the decimal exponent of the leading one.
fn decimal_magnitude(value: &BigFloat, d: usize) -> (r: (Vec<char>, i64))
    requires
        value.cls() == FloatClass::Finite,
        value.mant() > 0,
        decimal_range(value),
        1 <= d <= i64::MAX,
    ensures
        r.0@ == sig_digits(value.mant(), value.exp(), d as nat),
        r.0@.len() == d,
        r.1 == sig_exp(value.mant(), value.exp(), d as nat),
        -0x1000_0000_0000_0000 < r.1 < 0x2000_0000_0000_0000,
{
    proof {
        use_type_invariant(value);
        value.lemma_fields();
    }
    let m = value.mantissa();
    let e = value.exponent();
    let ghost mv = m@;
    let ghost ev = e as int;
    let bits = m.bit_length();
    proof {
        lemma_dec_exp_range(mv, ev);
    }
    // Search bounds: 10^lo <= |V| < 10^hi.
    let ghost lo: int = -(neg_part(ev) as int);
    let ghost hi: int = bits + pos_part(ev);
    // Seed with floor(top_bit · log10(2)), log10(2) ~ 1233/4096.
    let top_bit: i128 = e as i128 + bits as i128 - 1;
    let seed: i128 = if top_bit >= 0 {
        top_bit * 1233 / 4096
    } else {
        -((-top_bit) * 1233 / 4096)
    };
    let mut big_e: i64 = seed as i64;
    let ghost a = mv * vstd::arithmetic::power2::pow2(pos_part(ev));
    let ghost b = vstd::arithmetic::power2::pow2(neg_part(ev));
    // Nudge up while |V| >= 10^(E+1).
    while at_least_pow10(&m, e, big_e + 1)
        invariant
            lo <= big_e < hi,
            hi <= 0x1000_0001_0000_0000,
            lo > -0x1000_0000_0000_0000,
            m@ == mv,
            e == ev,
            reaches_pow10(mv, ev, lo),
            !reaches_pow10(mv, ev, hi),
            a == mv * vstd::arithmetic::power2::pow2(pos_part(ev)),
            b == vstd::arithmetic::power2::pow2(neg_part(ev)),
        decreases hi - big_e,
    {
        proof {
            if big_e + 1 >= hi {
                lemma_reaches_mono(a, b, hi, (big_e + 1) as int);
            }
        }
        big_e = big_e + 1;
    }
    // Nudge down while |V| < 10^E.
    while !at_least_pow10(&m, e, big_e)
        invariant
            lo <= big_e < hi,
            hi <= 0x1000_0001_0000_0000,
            lo > -0x1000_0000_0000_0000,
            m@ == mv,
            e == ev,
            reaches_pow10(mv, ev, lo),
            !reaches_pow10(mv, ev, big_e + 1),
            a == mv * vstd::arithmetic::power2::pow2(pos_part(ev)),
            b == vstd::arithmetic::power2::pow2(neg_part(ev)),
        decreases big_e - lo,
    {
        proof {
            if big_e <= lo {
                lemma_reaches_mono(a, b, big_e as int, lo);
            }
        }
        big_e = big_e - 1;
    }
    let ghost dv = d as nat;
    proof {
        assert(is_dec_exp(mv, ev, big_e as int));
        lemma_dec_exp_is(mv, ev, big_e as int);
        lemma_scaled_range(mv, ev, big_e as int, dv);
    }
    // N = round(|V| / 10^(E-D+1)), ties to even.
    let k: i128 = big_e as i128 - d as i128 + 1;
    let e_pos: u64 = if e > 0 {
        e as u64
    } else {
        0
    };
    let e_neg: u64 = if e < 0 {
        (0i128 - e as i128) as u64
    } else {
        0
    };
    let k_pos: u64 = if k > 0 {
        k as u64
    } else {
        0
    };
    let k_neg: u64 = if k < 0 {
        (0i128 - k) as u64
    } else {
        0
    };
    let num = BigUint::mul_ref(&m.shl_bits(e_pos), &pow10(k_neg));
    let den = BigUint::mul_ref(&pow2(e_neg), &pow10(k_pos));
    proof {
        assert(num@ == scaled_num(mv, ev, k as int));
        assert(den@ == scaled_den(ev, k as int));
        lemma_pow2_pos(neg_part(ev));
        lemma_ten_pow(pos_part(k as int));
        assert(den@ > 0) by (nonlinear_arith)
            requires
                den@ == vstd::arithmetic::power2::pow2(neg_part(ev)) * ten_pow(
                    pos_part(k as int),
                ),
                vstd::arithmetic::power2::pow2(neg_part(ev)) > 0,
                ten_pow(pos_part(k as int)) > 0,
        ;
        lemma_round_half_even_range(num@, den@, ten_pow((dv - 1) as nat), ten_pow(dv));
    }
    let n = round_ratio_half_even(&num, &den);
    let mut digits = to_decimal_digits(&n);
    let mut exp10 = big_e;
    proof {
        assert(n@ == sig_int(mv, ev, dv));
        lemma_ten_pow((dv - 1) as nat);
        if n@ == ten_pow(dv) {
            lemma_dec_digits_carry(dv);
            lemma_ten_pow(dv);
            lemma_dec_digits_len(ten_pow((dv - 1) as nat), dv);
        } else {
            lemma_dec_digits_len(n@, dv);
        }
    }
    if digits.len() > d {
        // Rounding rolled 9…9 into 10…0; the trailing digit is '0'.
        digits.pop();
        exp10 = exp10 + 1;
    }
    (digits, exp10)
}

/// `"-"` before a negative value, nothing otherwise.
pub open spec fn sign_prefix(x: &BigFloat) -> Seq<char> {
    if x.sgn() == Sign::Negative {
        seq!['-']
    } else {
        Seq::empty()
    }
}

/// The number of significant digits actually used: at least one.
pub open spec fn clamp_digits(sig_digits: usize) -> nat {
    if sig_digits == 0 {
        1
    } else {
        sig_digits as nat
    }
}

/// How NaN and the infinities render.
pub open spec fn nonfinite_text(x: &BigFloat) -> Seq<char> {
    if x.cls() == FloatClass::Nan {
        "NaN"@
    } else if x.sgn() == Sign::Negative {
        "-inf"@
    } else {
        "inf"@
    }
}

/// How zero renders with `d` significant digits: `0e0` or `0.0…0e0`.
pub open spec fn zero_text(d: nat) -> Seq<char> {
    if d <= 1 {
        "0e0"@
    } else {
        "0."@ + Seq::new((d - 1) as nat, |i: int| '0') + "e0"@
    }
}

/// Scientific notation: `[-]d[.ddd]e<exp>` with `d` significant digits.
pub open spec fn scientific_text(x: &BigFloat, sig: usize) -> Seq<char> {
    let d = clamp_digits(sig);
    if x.cls() != FloatClass::Finite {
        nonfinite_text(x)
    } else if x.mant() == 0 {
        zero_text(d)
    } else {
        let digits = sig_digits(x.mant(), x.exp(), d);
        sign_prefix(x) + seq![digits[0]] + (if d > 1 {
            seq!['.'] + digits.subrange(1, d as int)
        } else {
            Seq::empty()
        }) + seq!['e'] + int_to_dec(sig_exp(x.mant(), x.exp(), d))
    }
}

/// The digits of an engineering rendering: the significant digits, padded
/// with zeros to at least `n` characters.
pub open spec fn padded_digits(digits: Seq<char>, n: nat) -> Seq<char> {
    if digits.len() < n {
        digits + Seq::new((n - digits.len()) as nat, |i: int| '0')
    } else {
        digits
    }
}

/// Engineering notation: the exponent is a multiple of three and one to
/// three digits stand before the point.
pub open spec fn engineering_text(x: &BigFloat, sig: usize) -> Seq<char> {
    let d = clamp_digits(sig);
    if x.cls() != FloatClass::Finite {
        nonfinite_text(x)
    } else if x.mant() == 0 {
        zero_text(d)
    } else {
        let ex = sig_exp(x.mant(), x.exp(), d);
        let shift = ex % 3;
        let int_digits = (shift + 1) as nat;
        let padded = padded_digits(sig_digits(x.mant(), x.exp(), d), int_digits);
        sign_prefix(x) + padded.subrange(0, int_digits as int) + (if padded.len() > int_digits {
            seq!['.'] + padded.subrange(int_digits as int, padded.len() as int)
        } else {
            Seq::empty()
        }) + seq!['e'] + int_to_dec(ex - shift)
    }
}

/// `String::push`; std documents that it appends the character to the end
/// of the string.
#[verifier::external_body]
pub(crate) fn push_char(s: &mut String, c: char)
    ensures
        final(s)@ == old(s)@.push(c),
{
    s.push(c);
}

/// Append `cs[from..to]` to `out`.
pub(crate) fn push_chars(out: &mut String, cs: &Vec<char>, from: usize, to: usize)
    requires
        from <= to <= cs@.len(),
    ensures
        final(out)@ == old(out)@ + cs@.subrange(from as int, to as int),
{
    let mut i = from;
    while i < to
        invariant
            from <= i <= to <= cs@.len(),
            out@ == old(out)@ + cs@.subrange(from as int, i as int),
        decreases to - i,
    {
        push_char(out, cs[i]);
        proof {
            assert(cs@.subrange(from as int, i + 1) =~= cs@.subrange(from as int, i as int).push(
                cs@[i as int],
            ));
        }
        i = i + 1;
    }
}

/// Append the decimal rendering of `v`.
pub(crate) fn push_int(out: &mut String, v: i64)
    ensures
        final(out)@ == old(out)@ + int_to_dec(v as int),
{
    let mag: u64 = if v < 0 {
        push_char(out, '-');
        (0i128 - v as i128) as u64
    } else {
        v as u64
    };
    let digits = to_decimal_digits(&BigUint::from_u64(mag));
    push_chars(out, &digits, 0, digits.len());
    proof {
        assert(digits@.subrange(0, digits@.len() as int) =~= digits@);
    }
}

/// The rendering of non-finite values, or `None` for finite ones.
pub(crate) fn nonfinite_string(x: &BigFloat) -> (r: Option<String>)
    ensures
        r is Some <==> x.cls() != FloatClass::Finite,
        r matches Some(s) ==> s@ == nonfinite_text(x),
{
    proof {
        x.lemma_fields();
    }
    match x.class {
        FloatClass::Nan => Some(String::from_str("NaN")),
        FloatClass::Infinite => {
            if x.sign == Sign::Negative {
                Some(String::from_str("-inf"))
            } else {
                Some(String::from_str("inf"))
            }
        },
        FloatClass::Finite => None,
    }
}

/// The rendering of zero with `d` significant digits.
fn zero_string(d: usize) -> (r: String)
    requires
        d >= 1,
    ensures
        r@ == zero_text(d as nat),
{
    if d == 1 {
        return String::from_str("0e0");
    }
    let mut s = String::from_str("0.");
    let mut i: usize = 1;
    while i < d
        invariant
            1 <= i <= d,
            s@ == "0."@ + Seq::new((i - 1) as nat, |j: int| '0'),
        decreases d - i,
    {
        push_char(&mut s, '0');
        proof {
            assert("0."@ + Seq::new(i as nat, |j: int| '0') =~= ("0."@ + Seq::new(
                (i - 1) as nat,
                |j: int| '0',
            )).push('0'));
        }
        i = i + 1;
    }
    s.append("e0");
    s
}

impl BigFloat {
    /// Render in decimal scientific notation with `sig_digits` significant
    /// digits (at least one): `d.ddd…e±E`, rounded ties to even.
    pub fn to_scientific_string(&self, sig_digits: usize) -> (r: String)
        requires
            decimal_range(self),
            sig_digits <= i64::MAX,
        ensures
            r@ == scientific_text(self, sig_digits),
    {
        proof {
            use_type_invariant(self);
            self.lemma_fields();
        }
        if let Some(s) = nonfinite_string(self) {
            return s;
        }
        let d = if sig_digits == 0 {
            1
        } else {
            sig_digits
        };
        if self.is_zero() {
            return zero_string(d);
        }
        let (digits, exp10) = decimal_magnitude(self, d);
        let mut out = String::new();
        if self.sign == Sign::Negative {
            push_char(&mut out, '-');
        }
        push_char(&mut out, digits[0]);
        if digits.len() > 1 {
            push_char(&mut out, '.');
            push_chars(&mut out, &digits, 1, digits.len());
        }
        push_char(&mut out, 'e');
        push_int(&mut out, exp10);
        proof {
            let ghost digits_s = super::decimal::sig_digits(self.mant(), self.exp(), d as nat);
            assert(digits@ == digits_s);
            if d > 1 {
                assert(out@ =~= scientific_text(self, sig_digits));
            } else {
                assert(out@ =~= scientific_text(self, sig_digits));
            }
        }
        out
    }

    /// Render in decimal engineering notation with `sig_digits` significant
    /// digits (at least one): the exponent is a multiple of three and the
    /// displayed mantissa lies in `[1, 1000)`.
    pub fn to_engineering_string(&self, sig_digits: usize) -> (r: String)
        requires
            decimal_range(self),
            sig_digits <= i64::MAX,
        ensures
            r@ == engineering_text(self, sig_digits),
    {
        proof {
            use_type_invariant(self);
            self.lemma_fields();
        }
        if let Some(s) = nonfinite_string(self) {
            return s;
        }
        let d = if sig_digits == 0 {
            1
        } else {
            sig_digits
        };
        if self.is_zero() {
            return zero_string(d);
        }
        let (digits, exp10) = decimal_magnitude(self, d);
        // Engineering exponent: snap down to a multiple of three.
        let shift: i64 = match exp10.checked_rem_euclid(3) {
            Some(s) => s,
            None => 0,
        };
        let eng_exp = exp10 - shift;
        let int_digits: usize = if shift == 0 {
            1
        } else if shift == 1 {
            2
        } else {
            3
        };
        let ghost digits_s = digits@;
        let mut padded = digits;
        while padded.len() < int_digits
            invariant
                int_digits <= 3,
                padded@.len() <= int_digits || padded@ == digits_s,
                padded@ == digits_s + Seq::new(
                    (padded@.len() - digits_s.len()) as nat,
                    |i: int| '0',
                ),
                padded@.len() >= digits_s.len(),
            decreases int_digits - padded.len(),
        {
            proof {
                assert(digits_s + Seq::new((padded@.len() + 1 - digits_s.len()) as nat, |i: int| '0')
                    =~= (digits_s + Seq::new(
                    (padded@.len() - digits_s.len()) as nat,
                    |i: int| '0',
                )).push('0'));
            }
            padded.push('0');
        }
        proof {
            if digits_s.len() >= int_digits {
                assert(padded@ =~= digits_s);
            }
            assert(padded@ == padded_digits(digits_s, int_digits as nat));
        }
        let mut out = String::new();
        if self.sign == Sign::Negative {
            push_char(&mut out, '-');
        }
        push_chars(&mut out, &padded, 0, int_digits);
        if padded.len() > int_digits {
            push_char(&mut out, '.');
            push_chars(&mut out, &padded, int_digits, padded.len());
        }
        push_char(&mut out, 'e');
        push_int(&mut out, eng_exp);
        proof {
            assert(out@ =~= engineering_text(self, sig_digits));
        }
        out
    }
}

} // verus!
