//! Conversions between `BigFloat` and the IEEE 754 binary64 layout (the
//! bit pattern of an `f64`): sign bit, 11-bit biased exponent, 52-bit
//! fraction.

use vstd::prelude::*;
use vstd::arithmetic::power2::{pow2, lemma2_to64, lemma_pow2_pos, lemma_pow2_adds};

use crate::uint::BigUint;
use crate::bits_spec::nat_bit_length;
use crate::error::OxiNumError;
use super::{BigFloat, FloatClass, RoundingMode, Sign, sat_add};
use super::decimal::{round_half_even, pos_part, neg_part};
use super::format::{round_ratio_half_even, pow2 as pow2_big};
use super::spec::{sat, parts_m, parts_e};

verus! {

/// `2^52`, the unit of the biased exponent field.
pub open spec fn exp_unit() -> nat {
    0x10_0000_0000_0000
}

/// `2^63`, the sign bit.
pub open spec fn sign_unit() -> nat {
    0x8000_0000_0000_0000
}

/// The sign bit of a binary64 pattern.
pub open spec fn f64_negative(bits: u64) -> bool {
    bits as nat / sign_unit() == 1
}

/// The biased exponent field of a binary64 pattern.
pub open spec fn f64_biased(bits: u64) -> nat {
    (bits as nat / exp_unit()) % 2048
}

/// The fraction field of a binary64 pattern.
pub open spec fn f64_fraction(bits: u64) -> nat {
    bits as nat % exp_unit()
}

/// The integer significand of a finite non-zero pattern.
pub open spec fn f64_significand(bits: u64) -> nat {
    if f64_biased(bits) == 0 {
        f64_fraction(bits)
    } else {
        f64_fraction(bits) + exp_unit()
    }
}

/// The exponent of the last significand bit of a finite non-zero pattern.
pub open spec fn f64_exponent(bits: u64) -> int {
    if f64_biased(bits) == 0 {
        -1074
    } else {
        f64_biased(bits) - 1075
    }
}

/// What decoding a binary64 pattern at `prec` bits gives: an error for NaN
/// and the infinities, the canonical zero for `±0`, otherwise the exact
/// value `±significand·2^exponent` rounded half to even.
pub open spec fn from_f64_bits_result(bits: u64, prec: nat, r: Result<BigFloat, OxiNumError>) -> bool {
    if f64_biased(bits) == 2047 {
        r matches Err(OxiNumError::Parse(t)) && t@ == (if f64_fraction(bits) != 0 {
            "cannot encode NaN as BigFloat"@
        } else {
            "cannot encode infinity as BigFloat"@
        })
    } else if f64_biased(bits) == 0 && f64_fraction(bits) == 0 {
        r matches Ok(x) && x.is_zero_spec() && x.prec() == prec
    } else {
        r matches Ok(x) && x.cls() == FloatClass::Finite && x.prec() == prec && x.sgn() == (if f64_negative(bits) {
            Sign::Negative
        } else {
            Sign::Positive
        }) && x.mant() == parts_m(
            f64_significand(bits),
            f64_exponent(bits),
            prec,
            RoundingMode::HalfEven,
            f64_negative(bits),
        ) && x.exp() == parts_e(
            f64_significand(bits),
            f64_exponent(bits),
            prec,
            RoundingMode::HalfEven,
            f64_negative(bits),
        )
    }
}

/// The sign bit of `x` as `0` or `1`.
pub open spec fn sign_bit(x: &BigFloat) -> nat {
    if x.sgn() == Sign::Negative {
        1
    } else {
        0
    }
}

/// `±∞` in binary64.
pub open spec fn inf_bits(s: nat) -> nat {
    s * sign_unit() + 2047 * exp_unit()
}

/// The exponent of the last bit binary64 keeps at a magnitude whose top
/// bit is at `top`: 53 significant bits for normals, and the fixed quantum
/// `2^-1074` of the subnormals below `2^-1022`.
pub open spec fn f64_quantum(top: int) -> int {
    if top - 52 >= -1074 {
        top - 52
    } else {
        -1074
    }
}

/// `m·2^e / 2^q` rounded half to even: how many quanta `2^q` the nearest
/// multiple of `2^q` holds.
pub open spec fn quanta(m: nat, e: int, q: int) -> nat {
    round_half_even(m * pow2(pos_part(e - q)), pow2(neg_part(e - q)))
}

/// The binary64 pattern of the `f64` nearest to `x`, ties to even: `|x|` is
/// rounded half to even to a multiple `n·2^q` of the binary64 quantum `2^q`
/// at its magnitude (`q = top - 52` for normals, `-1074` for subnormals);
/// a carry to `n = 2^53` moves to the next binade. The pattern is the sign
/// bit plus `(q + 1074)·2^52 + n`, which stores a normal's leading bit in
/// the exponent field and a subnormal's `n` as its fraction. Magnitudes
/// from `2^1024` up give `±∞`, magnitudes below `2^-1075` give `±0`; NaN is
/// the quiet NaN `0x7ff8…`.
pub open spec fn f64_bits_of(x: &BigFloat) -> nat {
    let s = sign_bit(x);
    if x.cls() == FloatClass::Nan {
        0x7FF8_0000_0000_0000
    } else if x.cls() == FloatClass::Infinite {
        inf_bits(s)
    } else if x.mant() == 0 {
        0
    } else {
        let top = sat(x.exp() + nat_bit_length(x.mant()) - 1);
        if top > 1023 {
            inf_bits(s)
        } else if top < -1076 {
            s * sign_unit()
        } else {
            let q0 = f64_quantum(top);
            let n0 = quanta(x.mant(), x.exp(), q0);
            let n: nat = if n0 == pow2(53) {
                pow2(52)
            } else {
                n0
            };
            let q = if n0 == pow2(53) {
                q0 + 1
            } else {
                q0
            };
            if q > 971 {
                inf_bits(s)
            } else {
                s * sign_unit() + (q + 1074) as nat * exp_unit() + n
            }
        }
    }
}

/// Below `2^(q+53)`, the number of quanta is at most `2^53`.
pub(crate) proof fn lemma_quanta_bound(m: nat, e: int, q: int)
    requires
        m > 0,
        e + nat_bit_length(m) - 1 - q <= 52,
    ensures
        quanta(m, e, q) <= pow2(53),
{
    lemma2_to64();
    vstd::arithmetic::power2::lemma2_to64_rest();
    let bl = nat_bit_length(m);
    crate::bits_spec::lemma_bit_length_bound(m);
    let d = e - q;
    let num = m * pow2(pos_part(d));
    let den = pow2(neg_part(d));
    lemma_pow2_pos(pos_part(d));
    lemma_pow2_pos(neg_part(d));
    if d >= 0 {
        let dn = d as nat;
        lemma_pow2_adds(bl, dn);
        if bl + dn < 53 {
            vstd::arithmetic::power2::lemma_pow2_strictly_increases(bl + dn, 53);
        }
        assert(num < pow2(53) * den) by (nonlinear_arith)
            requires
                num == m * pow2(dn),
                m < pow2(bl),
                pow2(bl + dn) == pow2(bl) * pow2(dn),
                pow2(bl + dn) <= pow2(53),
                den == 1,
                pow2(dn) > 0,
        ;
    } else {
        let dn = (-d) as nat;
        lemma_pow2_adds(53, dn);
        if bl < 53 + dn {
            vstd::arithmetic::power2::lemma_pow2_strictly_increases(bl, 53 + dn);
        }
        assert(num < pow2(53) * den) by (nonlinear_arith)
            requires
                num == m * 1,
                m < pow2(bl),
                pow2(bl) <= pow2(53 + dn),
                pow2(53 + dn) == pow2(53) * pow2(dn),
                den == pow2(dn),
        ;
    }
    crate::float::decimal::lemma_round_half_even_range(num, den, 0, pow2(53));
}

/// Reading the fields with shifts and masks.
proof fn lemma_fields_of(bits: u64)
    ensures
        ((bits >> 63u64) & 1u64) as nat == bits as nat / sign_unit(),
        ((bits >> 52u64) & 0x7FFu64) as nat == f64_biased(bits),
        (bits & 0xF_FFFF_FFFF_FFFFu64) as nat == f64_fraction(bits),
{
    assert((bits >> 63u64) & 1u64 == bits / 0x8000_0000_0000_0000u64) by (bit_vector);
    assert((bits >> 52u64) & 0x7FFu64 == (bits / 0x10_0000_0000_0000u64) % 2048u64) by (bit_vector);
    assert(bits & 0xF_FFFF_FFFF_FFFFu64 == bits % 0x10_0000_0000_0000u64) by (bit_vector);
}

impl BigFloat {
    /// Decode an IEEE 754 binary64 bit pattern (`f64::to_bits`) at `prec`
    /// bits, rounding half to even when `prec < 53`. NaN and the
    /// infinities are a `Parse` error; both zeros give the canonical zero.
    pub fn from_f64_bits(bits: u64, prec: u32) -> (r: Result<BigFloat, OxiNumError>)
        requires
            prec > 0,
        ensures
            from_f64_bits_result(bits, prec as nat, r),
    {
        proof {
            lemma_fields_of(bits);
        }
        let sign_bit = (bits >> 63) & 1;
        let biased_exp = ((bits >> 52) & 0x7FF) as i64;
        let fraction = bits & 0xF_FFFF_FFFF_FFFF;
        if biased_exp == 0x7FF {
            if fraction != 0 {
                return Err(OxiNumError::Parse(String::from_str("cannot encode NaN as BigFloat")));
            }
            return Err(OxiNumError::Parse(String::from_str("cannot encode infinity as BigFloat")));
        }
        if biased_exp == 0 && fraction == 0 {
            // Both +0.0 and -0.0 land at the canonical zero.
            return Ok(Self::zero(prec));
        }
        let sign = if sign_bit == 1 {
            Sign::Negative
        } else {
            Sign::Positive
        };
        let (mantissa_u64, unbiased_exp) = if biased_exp == 0 {
            // Subnormal: no implicit leading bit, exponent fixed at -1074.
            (fraction, -1074i64)
        } else {
            // Normal: implicit leading bit at position 52.
            (fraction | 0x10_0000_0000_0000, biased_exp - 1023 - 52)
        };
        proof {
            if biased_exp != 0 {
                assert(fraction | 0x10_0000_0000_0000u64 == fraction + 0x10_0000_0000_0000u64)
                    by (bit_vector)
                    requires
                        fraction < 0x10_0000_0000_0000u64,
                ;
            }
            assert(bits as nat / sign_unit() <= 1);
            assert(bits & 0xF_FFFF_FFFF_FFFFu64 < 0x10_0000_0000_0000u64) by (bit_vector);
            lemma2_to64();
            vstd::arithmetic::power2::lemma2_to64_rest();
            let m = mantissa_u64 as nat;
            assert(m < pow2(53));
            if nat_bit_length(m) > 53 {
                crate::bits_spec::lemma_bit_length_bound(m);
                vstd::arithmetic::power2::lemma_pow2_strictly_increases(53, (nat_bit_length(m) - 1) as nat);
            }
        }
        let mantissa = BigUint::from_u64(mantissa_u64);
        Ok(Self::from_parts(sign, mantissa, unbiased_exp, prec, RoundingMode::HalfEven))
    }

    /// The IEEE 754 binary64 bit pattern of the `f64` nearest to this value
    /// (ties to even), for `f64::from_bits`. Magnitudes past the largest
    /// finite `f64` by half a unit or more give `±∞`, and magnitudes below
    /// half the smallest subnormal give `±0`.
    pub fn to_f64_bits(&self) -> (r: u64)
        ensures
            r as nat == f64_bits_of(self),
    {
        proof {
            use_type_invariant(self);
            self.lemma_fields();
            lemma2_to64();
            vstd::arithmetic::power2::lemma2_to64_rest();
        }
        let sign_bit: u64 = if self.sign == Sign::Negative {
            1
        } else {
            0
        };
        let inf = sign_bit * 0x8000_0000_0000_0000 + 0x7FF0_0000_0000_0000;
        let zero = sign_bit * 0x8000_0000_0000_0000;
        match self.class {
            FloatClass::Nan => {
                return 0x7FF8_0000_0000_0000;
            },
            FloatClass::Infinite => {
                return inf;
            },
            FloatClass::Finite => {},
        }
        if self.is_zero() {
            return 0;
        }
        let bits = self.mantissa.bit_length();
        let top_bit_exp = sat_add(self.exponent, bits as i64 - 1);
        if top_bit_exp > 1023 {
            return inf;
        }
        if top_bit_exp < -1076 {
            // Below half the smallest subnormal: rounds to zero.
            return zero;
        }
        // The quantum binary64 keeps at this magnitude.
        let q: i64 = if top_bit_exp - 52 >= -1074 {
            top_bit_exp - 52
        } else {
            -1074
        };
        // Round |x| / 2^q half to even.
        let d = self.exponent - q;
        let n_big = if d >= 0 {
            self.mantissa.shl_bits(d as u64)
        } else {
            let den = pow2_big((0 - d) as u64);
            proof {
                lemma_pow2_pos((0 - d) as nat);
            }
            round_ratio_half_even(&self.mantissa, &den)
        };
        proof {
            if d >= 0 {
                let num = self.mant() * pow2(d as nat);
                assert(pos_part(d as int) == d as nat && neg_part(d as int) == 0);
                assert(num / 1 == num && num % 1 == 0);
            } else {
                assert(pos_part(d as int) == 0 && neg_part(d as int) == (0 - d) as nat);
                assert(self.mant() * 1 == self.mant());
            }
            lemma_quanta_bound(self.mant(), self.exp(), q as int);
        }
        let n0 = match n_big.to_u64() {
            Some(n) => n,
            None => {
                return inf;
            },
        };
        // A carry to 2^53 moves to the next binade.
        let (n, q) = if n0 == 0x20_0000_0000_0000 {
            (0x10_0000_0000_0000u64, q + 1)
        } else {
            (n0, q)
        };
        if q > 971 {
            return inf;
        }
        sign_bit * 0x8000_0000_0000_0000 + (q + 1074) as u64 * 0x10_0000_0000_0000 + n
    }
}

} // verus!
