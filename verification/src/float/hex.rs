//! The C99 `%a`-style hexadecimal form `±0x1.<hex-frac>p±<binexp>`: an
//! exact rendering of the mantissa bits, and its parser.

use vstd::prelude::*;
use vstd::arithmetic::power2::{pow2, lemma2_to64, lemma_pow2_adds};

use vstd::string::StringSliceAdditionalSpecFns;

use crate::uint::BigUint;
use crate::bits_spec::{nat_bit, nat_bit_length, lemma_bit_length_bound};
use crate::error::{OxiNumError, OxiNumResult};
use super::{BigFloat, FloatClass, RoundingMode, Sign, sat_add, sat_sub};
use super::spec::{sat, parts_m, parts_e};
use super::decimal::int_to_dec;
use super::format::{sign_prefix, nonfinite_text, push_char, push_chars, push_int, nonfinite_string};

verus! {

// ---------------------------------------------------------------------------
// Rendering
// ---------------------------------------------------------------------------

/// The lowercase hex digit of `v < 16`.
pub open spec fn hex_digit(v: nat) -> char {
    if v < 10 {
        (v + 48) as char
    } else {
        (v + 87) as char
    }
}

/// Bit `pos` of `m`, reading positions below zero as `0`.
pub open spec fn bit_at(m: nat, pos: int) -> nat {
    if pos >= 0 && nat_bit(m, pos as nat) {
        1
    } else {
        0
    }
}

/// The nibble made of bits `top, top-1, top-2, top-3` of `m`, MSB first.
pub open spec fn nibble(m: nat, top: int) -> nat {
    8 * bit_at(m, top) + 4 * bit_at(m, top - 1) + 2 * bit_at(m, top - 2) + bit_at(m, top - 3)
}

/// The `lead` bits of `m` below its leading bit (at index `lead`), grouped
/// MSB first into hex digits; the last group is padded with zero bits.
pub open spec fn frac_hex(m: nat, lead: nat) -> Seq<char> {
    Seq::new((lead + 3) / 4, |j: int| hex_digit(nibble(m, lead - 1 - 4 * j)))
}

/// `s` without its trailing `'0'` characters.
pub open spec fn strip_trailing_zeros(s: Seq<char>) -> Seq<char>
    decreases s.len(),
{
    if s.len() > 0 && s.last() == '0' {
        strip_trailing_zeros(s.drop_last())
    } else {
        s
    }
}

/// The hexadecimal rendering: `[-]0x1[.<frac>]p<exp>`, where `exp` is the
/// binary exponent of the leading mantissa bit; zero is `0x0p0`.
pub open spec fn hex_text(x: &BigFloat) -> Seq<char> {
    if x.cls() != FloatClass::Finite {
        nonfinite_text(x)
    } else if x.mant() == 0 {
        "0x0p0"@
    } else {
        let lead = (nat_bit_length(x.mant()) - 1) as nat;
        let frac = strip_trailing_zeros(frac_hex(x.mant(), lead));
        sign_prefix(x) + "0x1"@ + (if frac.len() > 0 {
            seq!['.'] + frac
        } else {
            Seq::empty()
        }) + seq!['p'] + int_to_dec(sat(x.exp() + lead))
    }
}

/// The lowercase hex digit of `v` (`'0'` for values above 15).
fn hex_char(v: u8) -> (c: char)
    ensures
        v < 16 ==> c == hex_digit(v as nat),
        v >= 16 ==> c == '0',
{
    if v <= 9 {
        (48u8 + v) as char
    } else if v <= 15 {
        (97u8 + (v - 10)) as char
    } else {
        '0'
    }
}

/// The first `i` bits `top, top-1, …` of `m` read as a number, MSB first.
pub open spec fn partial_nibble(m: nat, top: int, i: nat) -> nat
    decreases i,
{
    if i == 0 {
        0
    } else {
        partial_nibble(m, top, (i - 1) as nat) * 2 + bit_at(m, top - (i - 1))
    }
}

/// The nibble of `m` whose most significant bit is at `top`.
fn nibble_at(m: &BigUint, top: i64) -> (r: u8)
    requires
        top >= 0,
    ensures
        r == nibble(m@, top as int),
        r < 16,
{
    let mut r: u8 = 0;
    let mut i: i64 = 0;
    while i < 4
        invariant
            0 <= i <= 4,
            top >= 0,
            r == partial_nibble(m@, top as int, i as nat),
            r < (if i == 0 {
                1int
            } else if i == 1 {
                2int
            } else if i == 2 {
                4int
            } else if i == 3 {
                8int
            } else {
                16int
            }),
        decreases 4 - i,
    {
        let pos = top - i;
        let bit: u8 = if pos >= 0 && m.test_bit(pos as u64) {
            1
        } else {
            0
        };
        r = r * 2 + bit;
        i = i + 1;
    }
    proof {
        reveal_with_fuel(partial_nibble, 5);
    }
    r
}

impl BigFloat {
    /// Render as a C99 `%a`-style hexadecimal float: `±0x1.<hex-frac>p±<binexp>`.
    /// The rendering is exact: the bits below the leading one are grouped,
    /// MSB first, into hex digits, and trailing zero digits are dropped.
    pub fn to_hex_string(&self) -> (r: String)
        ensures
            r@ == hex_text(self),
    {
        proof {
            use_type_invariant(self);
            self.lemma_fields();
        }
        if let Some(s) = nonfinite_string(self) {
            return s;
        }
        if self.is_zero() {
            return String::from_str("0x0p0");
        }
        let m = &self.mantissa;
        let bits = m.bit_length();
        let leading_index = bits - 1;
        let ghost lead = leading_index as nat;
        let p_exp = sat_add(self.exponent, leading_index as i64);
        let mut out = String::new();
        if self.sign == Sign::Negative {
            push_char(&mut out, '-');
        }
        out.append("0x1");
        let ghost frac_s = strip_trailing_zeros(frac_hex(m@, lead));
        if leading_index > 0 {
            let mut frac: Vec<char> = Vec::new();
            let mut pos: i64 = leading_index as i64 - 1;
            while pos >= 0
                invariant
                    lead == leading_index,
                    lead <= u32::MAX,
                    pos == lead - 1 - 4 * frac@.len(),
                    frac@.len() <= (lead + 3) / 4,
                    frac@ == frac_hex(m@, lead).subrange(0, frac@.len() as int),
                decreases pos + 4,
            {
                let v = nibble_at(m, pos);
                let c = hex_char(v);
                proof {
                    assert(frac_hex(m@, lead).subrange(0, frac@.len() + 1 as int) =~= frac@.push(c));
                }
                frac.push(c);
                pos = pos - 4;
            }
            proof {
                assert(frac@ =~= frac_hex(m@, lead));
            }
            while frac.len() > 0 && frac[frac.len() - 1] == '0'
                invariant
                    strip_trailing_zeros(frac@) == frac_s,
                decreases frac.len(),
            {
                proof {
                    assert(frac@.drop_last() =~= frac@.subrange(0, frac@.len() - 1));
                }
                frac.pop();
            }
            if frac.len() > 0 {
                push_char(&mut out, '.');
                push_chars(&mut out, &frac, 0, frac.len());
                proof {
                    assert(frac@.subrange(0, frac@.len() as int) =~= frac@);
                }
            }
        } else {
            proof {
                assert(frac_hex(m@, lead) =~= Seq::<char>::empty());
            }
        }
        push_char(&mut out, 'p');
        push_int(&mut out, p_exp);
        proof {
            assert(out@ =~= hex_text(self));
        }
        out
    }
}

/// The bits of `m`, most significant first.
pub open spec fn binary_digits(m: nat) -> Seq<char> {
    Seq::new(
        nat_bit_length(m),
        |i: int|
            if nat_bit(m, (nat_bit_length(m) - 1 - i) as nat) {
                '1'
            } else {
                '0'
            },
    )
}

/// The exact binary rendering `[-]0xb<bits>p<exp>` of `±bits·2^exp`; zero
/// is `0xb0p0`.
pub open spec fn binary_text(x: &BigFloat) -> Seq<char> {
    if x.cls() != FloatClass::Finite {
        nonfinite_text(x)
    } else if x.mant() == 0 {
        "0xb0p0"@
    } else {
        sign_prefix(x) + "0xb"@ + binary_digits(x.mant()) + seq!['p'] + int_to_dec(x.exp())
    }
}

impl BigFloat {
    /// The exact binary rendering `<sign>0xb<binary-mantissa>p<exponent>`:
    /// the mantissa in base 2, MSB first, times `2^exponent`. NaN and the
    /// infinities render as `NaN`, `inf` and `-inf`.
    pub fn to_binary_string(&self) -> (r: String)
        ensures
            r@ == binary_text(self),
    {
        proof {
            use_type_invariant(self);
            self.lemma_fields();
        }
        if let Some(s) = nonfinite_string(self) {
            return s;
        }
        if self.is_zero() {
            return String::from_str("0xb0p0");
        }
        let mut out = String::new();
        if self.sign == Sign::Negative {
            push_char(&mut out, '-');
        }
        out.append("0xb");
        let bits = self.mantissa.bit_length();
        let ghost start = out@;
        let ghost m = self.mant();
        let mut i = bits;
        while i > 0
            invariant
                i <= bits,
                bits == nat_bit_length(m),
                m == self.mantissa@,
                out@ == start + binary_digits(m).subrange(0, bits - i),
            decreases i,
        {
            i = i - 1;
            let c = if self.mantissa.test_bit(i) {
                '1'
            } else {
                '0'
            };
            proof {
                assert(binary_digits(m).subrange(0, bits - i) =~= binary_digits(m).subrange(
                    0,
                    bits - i - 1,
                ).push(c));
            }
            push_char(&mut out, c);
        }
        push_char(&mut out, 'p');
        push_int(&mut out, self.exponent);
        proof {
            assert(binary_digits(m).subrange(0, bits as int) =~= binary_digits(m));
            assert(out@ =~= binary_text(self));
        }
        out
    }
}

// ---------------------------------------------------------------------------
// Parsing
// ---------------------------------------------------------------------------

/// The value of a hex digit byte (`0-9`, `a-f`, `A-F`).
pub open spec fn hex_byte_value(c: u8) -> Option<u8> {
    if 48 <= c <= 57 {
        Some((c - 48) as u8)
    } else if 97 <= c <= 102 {
        Some((c - 87) as u8)
    } else if 65 <= c <= 70 {
        Some((c - 55) as u8)
    } else {
        None
    }
}

/// The digit value of a hex byte (zero for other bytes).
pub open spec fn hex_byte_nat(c: u8) -> nat {
    match hex_byte_value(c) {
        Some(v) => v as nat,
        None => 0,
    }
}

/// Whether `c` is an ASCII decimal digit.
pub open spec fn is_dec_byte(c: u8) -> bool {
    48 <= c <= 57
}

/// The end of the run of hex digits that starts at `i`.
pub open spec fn hex_run_end(s: Seq<u8>, i: nat) -> nat
    decreases s.len() - i,
{
    if i < s.len() && hex_byte_value(s[i as int]) is Some {
        hex_run_end(s, i + 1)
    } else {
        i
    }
}

/// The end of the run of decimal digits that starts at `i`.
pub open spec fn dec_run_end(s: Seq<u8>, i: nat) -> nat
    decreases s.len() - i,
{
    if i < s.len() && is_dec_byte(s[i as int]) {
        dec_run_end(s, i + 1)
    } else {
        i
    }
}

/// The value of a string of hex digits, most significant first.
pub open spec fn hex_seq_value(d: Seq<u8>) -> nat
    decreases d.len(),
{
    if d.len() == 0 {
        0
    } else {
        hex_seq_value(d.drop_last()) * 16 + hex_byte_nat(d.last())
    }
}

/// The value of a string of decimal digits, most significant first.
pub open spec fn dec_seq_value(d: Seq<u8>) -> nat
    decreases d.len(),
{
    if d.len() == 0 {
        0
    } else {
        dec_seq_value(d.drop_last()) * 10 + (d.last() - 48) as nat
    }
}

/// `x` or `X`.
pub open spec fn is_x(c: u8) -> bool {
    c == 120 || c == 88
}

/// `p` or `P`.
pub open spec fn is_p(c: u8) -> bool {
    c == 112 || c == 80
}

/// The length of the optional leading sign.
pub open spec fn sign_len(s: Seq<u8>) -> nat {
    if s.len() > 0 && (s[0] == 45 || s[0] == 43) {
        1
    } else {
        0
    }
}

/// The sign the text gives.
pub open spec fn text_sign(s: Seq<u8>) -> Sign {
    if s.len() > 0 && s[0] == 45 {
        Sign::Negative
    } else {
        Sign::Positive
    }
}

/// The mandatory `0x`/`0X` after the sign.
pub open spec fn has_hex_prefix(s: Seq<u8>) -> bool {
    let i0 = sign_len(s);
    i0 + 1 < s.len() && s[i0 as int] == 48 && is_x(s[(i0 + 1) as int])
}

/// Where the integer hex digits start and end.
pub open spec fn int_start(s: Seq<u8>) -> nat {
    sign_len(s) + 2
}

pub open spec fn int_end(s: Seq<u8>) -> nat {
    hex_run_end(s, int_start(s))
}

/// Whether a `.` follows the integer digits.
pub open spec fn has_point(s: Seq<u8>) -> bool {
    int_end(s) < s.len() && s[int_end(s) as int] == 46
}

/// Where the fractional hex digits start and end (empty without a point).
pub open spec fn frac_start(s: Seq<u8>) -> nat {
    if has_point(s) {
        int_end(s) + 1
    } else {
        int_end(s)
    }
}

pub open spec fn frac_end(s: Seq<u8>) -> nat {
    if has_point(s) {
        hex_run_end(s, frac_start(s))
    } else {
        int_end(s)
    }
}

/// The mandatory `p`/`P` after the significand.
pub open spec fn has_exp_marker(s: Seq<u8>) -> bool {
    frac_end(s) < s.len() && is_p(s[frac_end(s) as int])
}

/// Whether the exponent is negative, and where its digits start and end.
pub open spec fn exp_negative(s: Seq<u8>) -> bool {
    let i4 = frac_end(s) + 1;
    i4 < s.len() && s[i4 as int] == 45
}

pub open spec fn exp_start(s: Seq<u8>) -> nat {
    let i4 = frac_end(s) + 1;
    if i4 < s.len() && (s[i4 as int] == 45 || s[i4 as int] == 43) {
        i4 + 1
    } else {
        i4
    }
}

pub open spec fn exp_end(s: Seq<u8>) -> nat {
    dec_run_end(s, exp_start(s))
}

/// The magnitude of the decimal exponent.
pub open spec fn exp_magnitude(s: Seq<u8>) -> nat {
    dec_seq_value(s.subrange(exp_start(s) as int, exp_end(s) as int))
}

/// All hex digits of the significand, integer part then fraction.
pub open spec fn significand_digits(s: Seq<u8>) -> Seq<u8> {
    s.subrange(int_start(s) as int, int_end(s) as int) + s.subrange(
        frac_start(s) as int,
        frac_end(s) as int,
    )
}

/// The first error in the significand part, if any.
pub open spec fn significand_error(s: Seq<u8>) -> Option<Seq<char>> {
    if !has_hex_prefix(s) {
        Some("hex float: missing '0x' prefix"@)
    } else if int_end(s) == int_start(s) && frac_end(s) == frac_start(s) {
        Some("hex float: no significand digits"@)
    } else if !has_exp_marker(s) {
        Some("hex float: missing 'p' exponent marker"@)
    } else {
        None
    }
}

/// The first error in the exponent part, if any.
pub open spec fn exponent_error(s: Seq<u8>) -> Option<Seq<char>> {
    if exp_end(s) == exp_start(s) {
        Some("hex float: missing exponent digits"@)
    } else if exp_end(s) != s.len() {
        Some("hex float: trailing characters"@)
    } else if exp_magnitude(s) > i64::MAX {
        Some("hex float: exponent out of range"@)
    } else {
        None
    }
}

/// The syntax `[±]0x<hex>[.<hex>]p[±]<dec>` with at least one hex digit.
/// On success: the sign, the value of all hex digits read as one integer,
/// the number of fractional hex digits and the binary exponent. On failure:
/// the error message of the first problem found, left to right.
pub open spec fn hex_float_syntax(s: Seq<u8>) -> Result<(Sign, nat, nat, int), Seq<char>> {
    match significand_error(s) {
        Some(msg) => Err(msg),
        None => match exponent_error(s) {
            Some(msg) => Err(msg),
            None => Ok(
                (
                    text_sign(s),
                    hex_seq_value(significand_digits(s)),
                    (frac_end(s) - frac_start(s)) as nat,
                    if exp_negative(s) {
                        -exp_magnitude(s)
                    } else {
                        exp_magnitude(s) as int
                    },
                ),
            ),
        },
    }
}

/// `x` is the value `±digits·2^exp` rounded half-to-even to `prec` bits.
pub open spec fn hex_float_value(x: BigFloat, sign: Sign, digits: nat, exp: int, prec: nat) -> bool {
    &&& x.cls() == FloatClass::Finite
    &&& x.prec() == prec
    &&& if digits == 0 {
        x.sgn() == Sign::Positive && x.mant() == 0 && x.exp() == 0
    } else {
        &&& x.sgn() == sign
        &&& x.mant() == parts_m(digits, exp, prec, RoundingMode::HalfEven, sign == Sign::Negative)
        &&& x.exp() == parts_e(digits, exp, prec, RoundingMode::HalfEven, sign == Sign::Negative)
    }
}

/// The value of a hex digit byte, or `None`.
fn hex_value(c: u8) -> (r: Option<u8>)
    ensures
        r == hex_byte_value(c),
{
    if 48 <= c && c <= 57 {
        Some(c - 48)
    } else if 97 <= c && c <= 102 {
        Some(c - 87)
    } else if 65 <= c && c <= 70 {
        Some(c - 55)
    } else {
        None
    }
}

/// ASCII case folding maps exactly `x`/`X` to `x` and `p`/`P` to `p`.
proof fn lemma_case_fold(b: u8)
    ensures
        ((b | 0x20u8) == 0x78u8) == is_x(b),
        ((b | 0x20u8) == 0x70u8) == is_p(b),
{
    assert(((b | 0x20u8) == 0x78u8) == (b == 120u8 || b == 88u8)) by (bit_vector);
    assert(((b | 0x20u8) == 0x70u8) == (b == 112u8 || b == 80u8)) by (bit_vector);
}

/// Hex strings of `n` digits are below `2^(4n)`.
proof fn lemma_hex_seq_bound(d: Seq<u8>)
    ensures
        hex_seq_value(d) < pow2(4 * d.len()),
    decreases d.len(),
{
    lemma2_to64();
    if d.len() > 0 {
        lemma_hex_seq_bound(d.drop_last());
        let n = (d.len() - 1) as nat;
        lemma_pow2_adds(4 * n, 4);
        assert(4 * d.len() == 4 * n + 4);
        let p = pow2(4 * n);
        let v = hex_seq_value(d.drop_last());
        assert(hex_byte_nat(d.last()) < 16);
        assert(v * 16 + hex_byte_nat(d.last()) < p * 16) by (nonlinear_arith)
            requires
                v < p,
                hex_byte_nat(d.last()) < 16,
        ;
    }
}

/// A decimal prefix is worth no more than the whole string.
proof fn lemma_dec_prefix_le(d: Seq<u8>, i: int)
    requires
        0 <= i <= d.len(),
        forall|j: int| 0 <= j < d.len() ==> is_dec_byte(#[trigger] d[j]),
    ensures
        dec_seq_value(d.subrange(0, i)) <= dec_seq_value(d),
    decreases d.len() - i,
{
    if i < d.len() {
        lemma_dec_prefix_le(d, i + 1);
        assert(d.subrange(0, i + 1).drop_last() =~= d.subrange(0, i));
    } else {
        assert(d.subrange(0, i) =~= d);
    }
}

/// The value of the decimal digits `bytes[start..end]`, or `None` when it
/// exceeds `i64::MAX`.
fn parse_exponent(bytes: &[u8], start: usize, end: usize) -> (r: Option<i64>)
    requires
        start <= end <= bytes@.len(),
        forall|j: int| start <= j < end ==> is_dec_byte(#[trigger] bytes@[j]),
    ensures
        r == (if dec_seq_value(bytes@.subrange(start as int, end as int)) <= i64::MAX {
            Some(dec_seq_value(bytes@.subrange(start as int, end as int)) as i64)
        } else {
            None::<i64>
        }),
{
    let ghost d = bytes@.subrange(start as int, end as int);
    let mut acc: i64 = 0;
    let mut i = start;
    while i < end
        invariant
            start <= i <= end <= bytes@.len(),
            d == bytes@.subrange(start as int, end as int),
            forall|j: int| start <= j < end ==> is_dec_byte(#[trigger] bytes@[j]),
            acc == dec_seq_value(d.subrange(0, i - start)),
        decreases end - i,
    {
        let digit = (bytes[i] - 48) as i64;
        proof {
            assert forall|j: int| 0 <= j < d.len() implies is_dec_byte(#[trigger] d[j]) by {
                assert(d[j] == bytes@[start + j]);
            }
            assert(d.subrange(0, i - start + 1).drop_last() =~= d.subrange(0, i - start));
            assert(d[i - start] == bytes@[i as int]);
        }
        let next = match acc.checked_mul(10) {
            Some(t) => t.checked_add(digit),
            None => None,
        };
        match next {
            Some(v) => {
                acc = v;
            },
            None => {
                proof {
                    lemma_dec_prefix_le(d, i - start + 1);
                }
                return None;
            },
        }
        i = i + 1;
    }
    proof {
        assert(d.subrange(0, i - start) =~= d);
    }
    Some(acc)
}

/// The `Parse` error with the given message.
fn parse_error(msg: &str) -> (r: OxiNumError)
    ensures
        r matches OxiNumError::Parse(t) && t@ == msg@,
{
    OxiNumError::Parse(String::from_str(msg))
}

/// The end of the run of hex digits in `bytes` that starts at `start`.
fn hex_run(bytes: &[u8], start: usize) -> (r: usize)
    requires
        start <= bytes@.len(),
    ensures
        r == hex_run_end(bytes@, start as nat),
        start <= r <= bytes@.len(),
        forall|j: int| start <= j < r ==> hex_byte_value(#[trigger] bytes@[j]) is Some,
{
    let mut idx = start;
    while idx < bytes.len() && hex_value(bytes[idx]).is_some()
        invariant
            start <= idx <= bytes@.len(),
            hex_run_end(bytes@, start as nat) == hex_run_end(bytes@, idx as nat),
            forall|j: int| start <= j < idx ==> hex_byte_value(#[trigger] bytes@[j]) is Some,
        decreases bytes@.len() - idx,
    {
        idx = idx + 1;
    }
    idx
}

/// The end of the run of decimal digits in `bytes` that starts at `start`.
fn dec_run(bytes: &[u8], start: usize) -> (r: usize)
    requires
        start <= bytes@.len(),
    ensures
        r == dec_run_end(bytes@, start as nat),
        start <= r <= bytes@.len(),
        forall|j: int| start <= j < r ==> is_dec_byte(#[trigger] bytes@[j]),
{
    let mut idx = start;
    while idx < bytes.len() && 48 <= bytes[idx] && bytes[idx] <= 57
        invariant
            start <= idx <= bytes@.len(),
            dec_run_end(bytes@, start as nat) == dec_run_end(bytes@, idx as nat),
            forall|j: int| start <= j < idx ==> is_dec_byte(#[trigger] bytes@[j]),
        decreases bytes@.len() - idx,
    {
        idx = idx + 1;
    }
    idx
}

/// The hex digits `bytes[a0..a1]` followed by `bytes[b0..b1]`, read as
/// one integer.
fn hex_digits_value(bytes: &[u8], a0: usize, a1: usize, b0: usize, b1: usize) -> (r: BigUint)
    requires
        a0 <= a1 <= bytes@.len(),
        b0 <= b1 <= bytes@.len(),
        forall|j: int| a0 <= j < a1 ==> hex_byte_value(#[trigger] bytes@[j]) is Some,
        forall|j: int| b0 <= j < b1 ==> hex_byte_value(#[trigger] bytes@[j]) is Some,
    ensures
        r@ == hex_seq_value(bytes@.subrange(a0 as int, a1 as int) + bytes@.subrange(b0 as int, b1 as int)),
        bytes@.subrange(a0 as int, a1 as int).len() + bytes@.subrange(b0 as int, b1 as int).len()
            == (a1 - a0) + (b1 - b0),
{
    let mut all_digits: Vec<u8> = Vec::new();
    let mut j = a0;
    while j < a1
        invariant
            a0 <= j <= a1 <= bytes@.len(),
            all_digits@ == bytes@.subrange(a0 as int, j as int),
        decreases a1 - j,
    {
        proof {
            assert(bytes@.subrange(a0 as int, j + 1) =~= all_digits@.push(bytes@[j as int]));
        }
        all_digits.push(bytes[j]);
        j = j + 1;
    }
    let mut j = b0;
    while j < b1
        invariant
            b0 <= j <= b1 <= bytes@.len(),
            all_digits@ == bytes@.subrange(a0 as int, a1 as int) + bytes@.subrange(
                b0 as int,
                j as int,
            ),
        decreases b1 - j,
    {
        proof {
            assert(bytes@.subrange(a0 as int, a1 as int) + bytes@.subrange(b0 as int, j + 1)
                =~= all_digits@.push(bytes@[j as int]));
        }
        all_digits.push(bytes[j]);
        j = j + 1;
    }
    let ghost digs = all_digits@;
    proof {
        assert forall|i: int| 0 <= i < digs.len() implies hex_byte_value(#[trigger] digs[i]) is Some by {
            if i < a1 - a0 {
                assert(digs[i] == bytes@[a0 + i]);
            } else {
                assert(digs[i] == bytes@[b0 + (i - (a1 - a0))]);
            }
        }
    }
    let mut mantissa = BigUint::zero();
    let sixteen = BigUint::from_u64(16);
    let mut t: usize = 0;
    while t < all_digits.len()
        invariant
            t <= all_digits@.len(),
            all_digits@ == digs,
            forall|i: int| 0 <= i < digs.len() ==> hex_byte_value(#[trigger] digs[i]) is Some,
            sixteen@ == 16,
            mantissa@ == hex_seq_value(digs.subrange(0, t as int)),
        decreases all_digits@.len() - t,
    {
        let v = match hex_value(all_digits[t]) {
            Some(v) => v,
            None => 0,
        };
        proof {
            assert(digs.subrange(0, t + 1).drop_last() =~= digs.subrange(0, t as int));
        }
        mantissa = BigUint::add_ref(
            &BigUint::mul_ref(&mantissa, &sixteen),
            &BigUint::from_u64(v as u64),
        );
        t = t + 1;
    }
    proof {
        assert(digs.subrange(0, t as int) =~= digs);
    }
    mantissa
}

/// Scan the sign, the `0x` prefix, the hex digits and the `p` marker:
/// the sign and the bounds of the integer and fractional digits, or the
/// error of the first problem.
fn scan_significand(bytes: &[u8]) -> (r: Result<(Sign, usize, usize, usize, usize), OxiNumError>)
    ensures
        bytes@.len() <= usize::MAX,
        match significand_error(bytes@) {
            Some(msg) => r matches Err(OxiNumError::Parse(t)) && t@ == msg,
            None => r matches Ok(p) && p == (
                text_sign(bytes@),
                int_start(bytes@) as usize,
                int_end(bytes@) as usize,
                frac_start(bytes@) as usize,
                frac_end(bytes@) as usize,
            ) && frac_end(bytes@) < bytes@.len() && (forall|j: int|
                int_start(bytes@) <= j < int_end(bytes@) ==> hex_byte_value(#[trigger] bytes@[j])
                    is Some) && (forall|j: int|
                frac_start(bytes@) <= j < frac_end(bytes@) ==> hex_byte_value(#[trigger] bytes@[j])
                    is Some) && int_end(bytes@) <= frac_start(bytes@) <= frac_end(bytes@),
        },
{
    let ghost sb = bytes@;
    let len = bytes.len();
    let mut idx: usize = 0;
    // Optional sign.
    let sign = if len > 0 && bytes[0] == 45 {
        idx = 1;
        Sign::Negative
    } else if len > 0 && bytes[0] == 43 {
        idx = 1;
        Sign::Positive
    } else {
        Sign::Positive
    };
    // Mandatory 0x / 0X prefix.
    if idx + 1 >= len || bytes[idx] != 48 || (bytes[idx + 1] | 0x20) != 0x78 {
        proof {
            if idx + 1 < len {
                lemma_case_fold(sb[idx + 1]);
            }
        }
        return Err(parse_error("hex float: missing '0x' prefix"));
    }
    proof {
        lemma_case_fold(sb[idx + 1]);
    }
    idx = idx + 2;
    // Integer hex digits, then optional fractional ones.
    let int_start = idx;
    let int_end = hex_run(bytes, int_start);
    idx = int_end;
    let mut frac_start = idx;
    if idx < len && bytes[idx] == 46 {
        frac_start = idx + 1;
        idx = hex_run(bytes, frac_start);
    }
    let frac_end = idx;
    if int_end == int_start && frac_end == frac_start {
        return Err(parse_error("hex float: no significand digits"));
    }
    // Mandatory p / P binary exponent marker.
    if idx >= len || (bytes[idx] | 0x20) != 0x70 {
        proof {
            if idx < len {
                lemma_case_fold(sb[idx as int]);
            }
        }
        return Err(parse_error("hex float: missing 'p' exponent marker"));
    }
    proof {
        lemma_case_fold(sb[idx as int]);
    }
    Ok((sign, int_start, int_end, frac_start, frac_end))
}

/// Scan the signed decimal exponent that starts at `start` (just after the
/// `p` marker) and must run to the end.
fn scan_exponent(bytes: &[u8], start: usize) -> (r: Result<i64, OxiNumError>)
    requires
        significand_error(bytes@) is None,
        start == frac_end(bytes@) + 1,
    ensures
        match exponent_error(bytes@) {
            Some(msg) => r matches Err(OxiNumError::Parse(t)) && t@ == msg,
            None => r == Ok::<i64, OxiNumError>(
                (if exp_negative(bytes@) {
                    -exp_magnitude(bytes@)
                } else {
                    exp_magnitude(bytes@) as int
                }) as i64,
            ),
        },
{
    let len = bytes.len();
    let mut idx = start;
    let exp_sign_neg = if idx < len && bytes[idx] == 45 {
        idx = idx + 1;
        true
    } else if idx < len && bytes[idx] == 43 {
        idx = idx + 1;
        false
    } else {
        false
    };
    let exp_start = idx;
    idx = dec_run(bytes, exp_start);
    if exp_start == idx {
        return Err(parse_error("hex float: missing exponent digits"));
    }
    if idx != len {
        return Err(parse_error("hex float: trailing characters"));
    }
    let exp_mag = match parse_exponent(bytes, exp_start, idx) {
        Some(v) => v,
        None => {
            return Err(parse_error("hex float: exponent out of range"));
        },
    };
    if exp_sign_neg {
        Ok(-exp_mag)
    } else {
        Ok(exp_mag)
    }
}

impl BigFloat {
    /// Parse a C99 `%a`-style hexadecimal float `±0x<hex>[.<hex>]p±<dec>`
    /// (the `0x` prefix, at least one hex digit and the `p` exponent are
    /// mandatory) at `prec` bits, rounding half to even. The digits are read
    /// exactly before that single rounding.
    pub fn from_hex_float(s: &str, prec: u32) -> (r: OxiNumResult<BigFloat>)
        requires
            prec > 0 || hex_float_syntax(s.spec_bytes()) is Err,
            s.spec_bytes().len() < 0x2000_0000_0000_0000,
        ensures
            match hex_float_syntax(s.spec_bytes()) {
                Err(msg) => r matches Err(OxiNumError::Parse(t)) && t@ == msg,
                Ok(p) => r matches Ok(x) && hex_float_value(x, p.0, p.1, sat(p.3 - 4 * p.2), prec as nat),
            },
    {
        let bytes = s.as_bytes();
        let scanned = scan_significand(bytes);
        let (sign, a0, a1, b0, b1) = match scanned {
            Ok(parts) => parts,
            Err(e) => {
                return Err(e);
            },
        };
        assert(b1 == frac_end(bytes@));
        let p_exp = match scan_exponent(bytes, b1 + 1) {
            Ok(v) => v,
            Err(e) => {
                return Err(e);
            },
        };
        // All hex digits as one integer: value = digits · 2^(p_exp - 4·frac_nibbles).
        let frac_nibbles = (b1 - b0) as i64;
        let mantissa = hex_digits_value(bytes, a0, a1, b0, b1);
        if mantissa.is_zero() {
            return Ok(Self::zero(prec));
        }
        let exponent = sat_sub(p_exp, frac_nibbles * 4);
        proof {
            let ghost digs = significand_digits(bytes@);
            lemma_hex_seq_bound(digs);
            lemma_bit_length_bound(mantissa@);
            if nat_bit_length(mantissa@) > 4 * digs.len() + 1 {
                vstd::arithmetic::power2::lemma_pow2_strictly_increases(
                    4 * digs.len(),
                    (nat_bit_length(mantissa@) - 1) as nat,
                );
            }
        }
        Ok(Self::from_parts(sign, mantissa, exponent, prec, RoundingMode::HalfEven))
    }
}

} // verus!
