//! Lemmas relating the hexadecimal rendering of a value to what the
//! hexadecimal parser reads back from it.

use vstd::prelude::*;
use vstd::arithmetic::power2::{pow2, lemma_pow2_pos, lemma_pow2_adds, lemma2_to64};
use vstd::arithmetic::div_mod::{
    lemma_fundamental_div_mod, lemma_mod_bound, lemma_div_denominator, lemma_basic_div,
};

use crate::bits_spec::{nat_bit, nat_bit_length, lemma_bit_shift, lemma_bit_low};
use crate::limbs::lemma_div_add_multiple;
use super::decimal::{digit_char, dec_digits, int_to_dec, ten_pow, lemma_ten_pow};
use super::{BigFloat, FloatClass, Sign};
use super::spec::sat;
use super::format::sign_prefix;
use super::hex::{hex_text, hex_float_syntax};
use super::hex::{
    hex_digit, nibble, frac_hex, strip_trailing_zeros, hex_byte_value, hex_byte_nat, hex_run_end,
    dec_run_end, hex_seq_value, dec_seq_value, is_dec_byte,
};

verus! {

/// The bytes of an ASCII character sequence.
pub open spec fn ascii_bytes(t: Seq<char>) -> Seq<u8> {
    Seq::new(t.len(), |i: int| t[i] as u8)
}

/// A run of hex digits ends at the first other byte.
pub proof fn lemma_hex_run_to(s: Seq<u8>, i: nat, j: nat)
    requires
        i <= j <= s.len(),
        forall|k: int| i <= k < j ==> hex_byte_value(#[trigger] s[k]) is Some,
        j == s.len() || hex_byte_value(s[j as int]) is None,
    ensures
        hex_run_end(s, i) == j,
    decreases j - i,
{
    if i < j {
        lemma_hex_run_to(s, i + 1, j);
    }
}

/// A run of decimal digits ends at the first other byte.
pub proof fn lemma_dec_run_to(s: Seq<u8>, i: nat, j: nat)
    requires
        i <= j <= s.len(),
        forall|k: int| i <= k < j ==> is_dec_byte(#[trigger] s[k]),
        j == s.len() || !is_dec_byte(s[j as int]),
    ensures
        dec_run_end(s, i) == j,
    decreases j - i,
{
    if i < j {
        lemma_dec_run_to(s, i + 1, j);
    }
}

/// Appending hex digits shifts the value by four bits per digit.
pub proof fn lemma_hex_concat_value(a: Seq<u8>, c: Seq<u8>)
    ensures
        hex_seq_value(a + c) == hex_seq_value(a) * pow2(4 * c.len()) + hex_seq_value(c),
    decreases c.len(),
{
    lemma2_to64();
    if c.len() == 0 {
        assert(a + c =~= a);
        assert(hex_seq_value(a) * 1 == hex_seq_value(a));
    } else {
        let c1 = c.drop_last();
        assert((a + c).drop_last() =~= a + c1);
        assert((a + c).last() == c.last());
        lemma_hex_concat_value(a, c1);
        let n = c1.len();
        lemma_pow2_adds(4 * n, 4);
        assert(4 * c.len() == 4 * n + 4);
        let va = hex_seq_value(a);
        let p = pow2(4 * n);
        let v1 = hex_seq_value(c1);
        let x = hex_byte_nat(c.last());
        assert((va * p + v1) * 16 + x == va * (p * 16) + (v1 * 16 + x)) by (nonlinear_arith);
    }
}

/// The digits of `n` are ASCII decimal digits, and read back as `n`.
pub proof fn lemma_dec_digits_value(n: nat)
    ensures
        dec_digits(n).len() >= 1,
        forall|i: int| 0 <= i < dec_digits(n).len() ==> 48 <= #[trigger] (dec_digits(n)[i] as int) <= 57,
        dec_seq_value(ascii_bytes(dec_digits(n))) == n,
    decreases n,
{
    let b = ascii_bytes(dec_digits(n));
    if n < 10 {
        assert(dec_digits(n) == seq![digit_char(n)]);
        assert(b.drop_last() =~= Seq::<u8>::empty());
        assert(dec_seq_value(Seq::<u8>::empty()) == 0);
        assert(b.last() as int == n + 48);
    } else {
        lemma_dec_digits_value(n / 10);
        let d = dec_digits(n / 10);
        assert(dec_digits(n) == d.push(digit_char(n % 10)));
        assert(b.drop_last() =~= ascii_bytes(d));
        assert(b.last() as int == n % 10 + 48);
        assert forall|i: int| 0 <= i < dec_digits(n).len() implies 48 <= #[trigger] (
        dec_digits(n)[i] as int) <= 57 by {
            if i < d.len() {
                assert(dec_digits(n)[i] == d[i]);
            }
        }
    }
}

/// A string of hex digits equals its value with the trailing zero digits
/// stripped, shifted back by four bits per stripped digit.
pub proof fn lemma_strip_value(s: Seq<char>)
    ensures
        hex_seq_value(ascii_bytes(s)) == hex_seq_value(ascii_bytes(strip_trailing_zeros(s))) * pow2(
            4 * (s.len() - strip_trailing_zeros(s).len()) as nat,
        ),
        strip_trailing_zeros(s).len() <= s.len(),
        strip_trailing_zeros(s) == s.subrange(0, strip_trailing_zeros(s).len() as int),
    decreases s.len(),
{
    lemma2_to64();
    if s.len() > 0 && s.last() == '0' {
        let s1 = s.drop_last();
        lemma_strip_value(s1);
        assert(ascii_bytes(s).drop_last() =~= ascii_bytes(s1));
        let k = (s1.len() - strip_trailing_zeros(s1).len()) as nat;
        lemma_pow2_adds(4 * k, 4);
        assert(4 * (s.len() - strip_trailing_zeros(s).len()) as nat == 4 * k + 4);
        let v = hex_seq_value(ascii_bytes(strip_trailing_zeros(s1)));
        let p = pow2(4 * k);
        assert((v * p) * 16 + 0 == v * (p * 16)) by (nonlinear_arith);
        assert(s.subrange(0, strip_trailing_zeros(s).len() as int) =~= s1.subrange(
            0,
            strip_trailing_zeros(s1).len() as int,
        ));
    } else {
        assert(s.subrange(0, s.len() as int) =~= s);
        assert(hex_seq_value(ascii_bytes(s)) * 1 == hex_seq_value(ascii_bytes(s)));
    }
}

/// The low four bits of `x / 16^i`, bit by bit.
pub proof fn lemma_nibble_bits(f: nat, i: nat)
    ensures
        (f / pow2(4 * i)) % 16 == 8 * (if nat_bit(f, 4 * i + 3) {
            1nat
        } else {
            0nat
        }) + 4 * (if nat_bit(f, 4 * i + 2) {
            1nat
        } else {
            0nat
        }) + 2 * (if nat_bit(f, 4 * i + 1) {
            1nat
        } else {
            0nat
        }) + (if nat_bit(f, 4 * i) {
            1nat
        } else {
            0nat
        }),
{
    lemma2_to64();
    lemma_pow2_pos(4 * i);
    let g = f / pow2(4 * i);
    assert(g >= 0);
    lemma_bit_shift(f, 4 * i, 0);
    lemma_bit_shift(f, 4 * i, 1);
    lemma_bit_shift(f, 4 * i, 2);
    lemma_bit_shift(f, 4 * i, 3);
    assert(g / 1 == g);
    let g1 = g / 2;
    let g2 = g1 / 2;
    let g3 = g2 / 2;
    let g4 = g3 / 2;
    lemma_fundamental_div_mod(g as int, 2);
    lemma_fundamental_div_mod(g1 as int, 2);
    lemma_fundamental_div_mod(g2 as int, 2);
    lemma_fundamental_div_mod(g3 as int, 2);
    lemma_div_denominator(g as int, 2, 2);
    lemma_div_denominator(g as int, 4, 2);
    assert(g / 4 == g2);
    assert(g / 8 == g3);
    let low = g % 2 + 2 * (g1 % 2) + 4 * (g2 % 2) + 8 * (g3 % 2);
    assert(g == 16 * g4 + low);
    vstd::arithmetic::div_mod::lemma_fundamental_div_mod_converse(g as int, 16, g4 as int, low as int);
}

/// Bit `q` of `a·2^pad` is bit `q - pad` of `a` (zero below `pad`); below
/// `lead` the bits of `m mod 2^lead` are those of `m`.
pub proof fn lemma_padded_frac_bit(m: nat, lead: nat, pad: nat, q: nat)
    requires
        q < lead + pad,
    ensures
        nat_bit((m % pow2(lead)) * pow2(pad), q) == (q >= pad && nat_bit(m, (q - pad) as nat)),
{
    lemma2_to64();
    lemma_pow2_pos(lead);
    lemma_pow2_pos(pad);
    let a = m % pow2(lead);
    let f = a * pow2(pad);
    lemma_mod_bound(m as int, pow2(lead) as int);
    if q >= pad {
        let j = (q - pad) as nat;
        lemma_bit_shift(f, pad, j);
        lemma_div_add_multiple(0, pow2(pad), a);
        assert(pow2(pad) * a == f) by (nonlinear_arith)
            requires
                f == a * pow2(pad),
        ;
        lemma_fundamental_div_mod(m as int, pow2(lead) as int);
        let c = m / pow2(lead);
        assert(a + pow2(lead) * c == m);
        lemma_bit_low(a, c, lead, j);
    } else {
        let r = (pad - q) as nat;
        lemma_pow2_adds(q, r);
        lemma_pow2_adds(1, (r - 1) as nat);
        lemma_pow2_pos(q);
        lemma_pow2_pos((r - 1) as nat);
        let h = a * pow2((r - 1) as nat);
        assert(f == pow2(q) * (2 * h)) by (nonlinear_arith)
            requires
                f == a * pow2(pad),
                pow2(pad) == pow2(q) * pow2(r),
                pow2(r) == pow2(1) * pow2((r - 1) as nat),
                pow2(1) == 2,
                h == a * pow2((r - 1) as nat),
        ;
        lemma_div_add_multiple(0, pow2(q), 2 * h);
        lemma_div_add_multiple(0, 2, h);
    }
}

/// The first `j` fraction digits, read as a number, are the padded
/// fraction bits above the last `n - j` digits.
proof fn lemma_frac_prefix(m: nat, lead: nat, j: nat)
    requires
        pow2(lead) <= m < pow2(lead + 1),
        j <= (lead + 3) / 4,
    ensures
        hex_seq_value(ascii_bytes(frac_hex(m, lead)).subrange(0, j as int)) == ((m % pow2(lead))
            * pow2((4 * ((lead + 3) / 4) - lead) as nat)) / pow2(4 * (((lead + 3) / 4) - j) as nat),
    decreases j,
{
    lemma2_to64();
    let n = (lead + 3) / 4;
    let pad = (4 * n - lead) as nat;
    let a = m % pow2(lead);
    let f = a * pow2(pad);
    let b = ascii_bytes(frac_hex(m, lead));
    lemma_pow2_pos(lead);
    lemma_pow2_pos(pad);
    lemma_mod_bound(m as int, pow2(lead) as int);
    if j == 0 {
        lemma_pow2_adds(lead, pad);
        assert(lead + pad == 4 * n);
        assert(f < pow2(4 * n)) by (nonlinear_arith)
            requires
                a < pow2(lead),
                f == a * pow2(pad),
                pow2(pad) > 0,
                pow2(4 * n) == pow2(lead) * pow2(pad),
        ;
        lemma_basic_div(f as int, pow2(4 * n) as int);
        assert(b.subrange(0, 0) =~= Seq::<u8>::empty());
    } else {
        let jj = (j - 1) as nat;
        lemma_frac_prefix(m, lead, jj);
        let i = (n - j) as nat;
        assert(4 * (n - jj) as nat == 4 * i + 4);
        lemma_pow2_pos(4 * i);
        lemma_pow2_adds(4 * i, 4);
        lemma_div_denominator(f as int, pow2(4 * i) as int, 16);
        let g = f / pow2(4 * i);
        lemma_fundamental_div_mod(g as int, 16);
        lemma_nibble_bits(f, i);
        // The digit at `jj` is the nibble of `m` at `lead - 1 - 4jj`.
        let top = lead - 1 - 4 * jj;
        assert(4 * i + 3 - pad == top);
        lemma_padded_frac_bit(m, lead, pad, 4 * i + 3);
        lemma_padded_frac_bit(m, lead, pad, 4 * i + 2);
        lemma_padded_frac_bit(m, lead, pad, 4 * i + 1);
        lemma_padded_frac_bit(m, lead, pad, 4 * i);
        assert(nibble(m, top) == g % 16);
        assert(b[jj as int] == hex_digit(nibble(m, top)) as u8);
        assert(hex_byte_nat(b[jj as int]) == g % 16);
        assert(b.subrange(0, j as int).drop_last() =~= b.subrange(0, jj as int));
    }
}

/// The hex digits of the bits below the leading one, read as a number, are
/// those bits padded on the right to whole digits.
pub proof fn lemma_frac_hex_value(m: nat, lead: nat)
    requires
        pow2(lead) <= m < pow2(lead + 1),
    ensures
        hex_seq_value(ascii_bytes(frac_hex(m, lead))) == (m % pow2(lead)) * pow2(
            (4 * ((lead + 3) / 4) - lead) as nat,
        ),
{
    lemma2_to64();
    let n = (lead + 3) / 4;
    let pad = (4 * n - lead) as nat;
    let a = m % pow2(lead);
    let f = a * pow2(pad);
    let b = ascii_bytes(frac_hex(m, lead));
    lemma_pow2_pos(lead);
    lemma_pow2_pos(pad);
    lemma_mod_bound(m as int, pow2(lead) as int);
    lemma_pow2_adds(lead, pad);
    assert(lead + pad == 4 * n);
    assert(f < pow2(4 * n)) by (nonlinear_arith)
        requires
            a < pow2(lead),
            f == a * pow2(pad),
            pow2(pad) > 0,
            pow2(4 * n) == pow2(lead) * pow2(pad),
    ;
    lemma_frac_prefix(m, lead, n);
    assert(b.subrange(0, n as int) =~= b);
    assert(4 * (n - n) as nat == 0);
    assert(f / 1 == f);
}

/// Numbers below `10^k` have at most `k` decimal digits.
pub proof fn lemma_dec_digits_len_bound(n: nat, k: nat)
    requires
        k >= 1,
        n < ten_pow(k),
    ensures
        dec_digits(n).len() <= k,
    decreases k,
{
    lemma_ten_pow((k - 1) as nat);
    if n >= 10 {
        lemma_ten_pow(0);
        if k == 1 {
            vstd::arithmetic::power::lemma_pow1(10);
        } else {
            lemma_dec_digits_len_bound(n / 10, (k - 1) as nat);
        }
    }
}

/// The hexadecimal rendering of a non-zero finite value is ASCII, not
/// long, and parses back to its sign, its digits (a `1` before the kept
/// fraction digits), the number of fraction digits and the exponent of the
/// leading bit.
#[verifier::rlimit(60)]
pub proof fn lemma_parse_rendered(x: &BigFloat)
    requires
        x.cls() == FloatClass::Finite,
        x.mant() > 0,
        nat_bit_length(x.mant()) <= u32::MAX,
        i64::MIN < x.exp(),
        x.exp() + nat_bit_length(x.mant()) <= i64::MAX,
    ensures
        ({
            let lead = (nat_bit_length(x.mant()) - 1) as nat;
            let frac = strip_trailing_zeros(frac_hex(x.mant(), lead));
            &&& vstd::utf8::is_ascii_chars(hex_text(x))
            &&& hex_text(x).len() < 0x2000_0000_0000_0000
            &&& hex_float_syntax(ascii_bytes(hex_text(x))) == Ok::<(Sign, nat, nat, int), Seq<char>>(
                (
                    x.sgn(),
                    hex_seq_value(seq![49u8] + ascii_bytes(frac)),
                    frac.len(),
                    x.exp() + lead,
                ),
            )
        }),
{
    lemma2_to64();
    reveal_strlit("0x1");
    let m = x.mant();
    let lead = (nat_bit_length(m) - 1) as nat;
    let full = frac_hex(m, lead);
    let frac = strip_trailing_zeros(full);
    lemma_strip_value(full);
    let nf = frac.len();
    let p = x.exp() + lead;
    assert(sat(x.exp() + lead) == p);
    let mag: nat = if p < 0 {
        (-p) as nat
    } else {
        p as nat
    };
    let digits = dec_digits(mag);
    lemma_dec_digits_value(mag);
    let sp = sign_prefix(x);
    let pre = "0x1"@;
    let fr = if nf > 0 {
        seq!['.'] + frac
    } else {
        Seq::<char>::empty()
    };
    let ed = int_to_dec(p);
    let ex = seq!['p'] + ed;
    let t = hex_text(x);
    assert(t == sp + pre + fr + ex);
    let k0 = sp.len();
    let i1 = k0 + 2;
    let f0: nat = if nf > 0 {
        k0 + 4
    } else {
        k0 + 3
    };
    let i3 = f0 + nf;
    let i4 = i3 + 1;
    let i5: nat = if p < 0 {
        i4 + 1
    } else {
        i4
    };
    assert(fr.len() == i3 - k0 - 3);
    assert(t.len() == i4 + ed.len());
    assert(ed.len() == digits.len() + (i5 - i4));
    // Fraction digits are hex digits.
    assert forall|r: int| 0 <= r < nf implies #[trigger] frac[r] == hex_digit(nibble(m, lead - 1 - 4 * r)) by {
        assert(frac[r] == full[r]);
    }
    // The character at each position.
    assert forall|i: int| 0 <= i < t.len() implies #[trigger] t[i] == (if i < k0 {
        '-'
    } else if i == k0 {
        '0'
    } else if i == k0 + 1 {
        'x'
    } else if i == k0 + 2 {
        '1'
    } else if i == k0 + 3 && nf > 0 {
        '.'
    } else if i < i3 {
        frac[i - f0]
    } else if i == i3 {
        'p'
    } else if i < i5 {
        '-'
    } else {
        digits[i - i5]
    }) by {
        if i >= i4 {
            assert(t[i] == ed[i - i4]);
            if p < 0 {
                if i > i4 {
                    assert(ed[i - i4] == digits[i - i4 - 1]);
                }
            }
        }
    }
    let b = ascii_bytes(t);
    // The bytes are ASCII, with the expected kinds.
    assert forall|i: int| 0 <= i < t.len() implies '\0' <= #[trigger] t[i] <= '\u{7f}' by {
        if i >= i5 {
            assert(48 <= digits[i - i5] as int <= 57);
        } else if f0 <= i < i3 {
            let r = i - f0;
            assert(frac[r] == hex_digit(nibble(m, lead - 1 - 4 * r)));
        }
    }
    assert forall|r: int| f0 <= r < i3 implies hex_byte_value(#[trigger] b[r]) is Some by {
        let q = r - f0;
        assert(t[r] == frac[q]);
        assert(frac[q] == hex_digit(nibble(m, lead - 1 - 4 * q)));
    }
    assert forall|r: int| i5 <= r < b.len() implies is_dec_byte(#[trigger] b[r]) by {
        assert(t[r] == digits[r - i5]);
        assert(48 <= digits[r - i5] as int <= 57);
    }
    // Scanning the significand and the exponent.
    assert(b[i1 as int] == 49u8);
    lemma_hex_run_to(b, i1, i1 + 1);
    if nf > 0 {
        assert(b[(k0 + 3) as int] == 46u8);
        lemma_hex_run_to(b, f0, i3);
    }
    assert(b[i3 as int] == 112u8);
    lemma_dec_run_to(b, i5, b.len());
    assert(b.subrange(i5 as int, b.len() as int) =~= ascii_bytes(digits));
    assert(b.subrange(i1 as int, (i1 + 1) as int) =~= seq![49u8]);
    assert(b.subrange(f0 as int, i3 as int) =~= ascii_bytes(frac));
    // Length: the fraction has at most `(lead + 3) / 4` digits and the
    // exponent at most 19.
    lemma_ten_pow(19);
    assert(ten_pow(19) == 10_000_000_000_000_000_000) by {
        reveal_with_fuel(vstd::arithmetic::power::pow, 20);
    }
    lemma_dec_digits_len_bound(mag, 19);
    let syntax = hex_float_syntax(b);
    assert(syntax == Ok::<(Sign, nat, nat, int), Seq<char>>(
        (x.sgn(), hex_seq_value(seq![49u8] + ascii_bytes(frac)), nf, p),
    ));
}

} // verus!
