//! Laws of `BigUint`, stated over the models its operations' contracts use.

use vstd::prelude::*;
use vstd::arithmetic::power2::{pow2, lemma_pow2_pos};
use vstd::arithmetic::power::{pow, lemma_pow0};
use vstd::arithmetic::div_mod::{lemma_fundamental_div_mod, lemma_mod_bound};

use crate::limbs::{canonical, limbs_val, lemma_canonical_unique};
use crate::bits_spec::{
    nat_bit, nat_bit_length, lemma_bit_high, lemma_bit_low, lemma_bit_length_bound,
    lemma_bits_determine, lemma_bit_shift,
};
use crate::uint::bytes::{bytes_val, canonical_bytes, lemma_bytes_canonical_unique};
use crate::limbs::lemma_div_add_multiple;

verus! {

/// Shifting left by `k` bits and then right by `k` bits gives the value back.
pub proof fn law_shl_then_shr(x: nat, k: nat)
    ensures
        (x * pow2(k)) / pow2(k) == x,
{
    lemma_pow2_pos(k);
    lemma_div_add_multiple(0, pow2(k), x);
    assert(x * pow2(k) == 0 + pow2(k) * x) by (nonlinear_arith);
}

/// Two canonical limb sequences of the same value are equal: the limbs of a
/// value (as `as_limbs` gives them) are unique.
pub proof fn law_limbs_unique(s: Seq<u64>, t: Seq<u64>)
    requires
        canonical(s),
        canonical(t),
        limbs_val(s) == limbs_val(t),
    ensures
        s == t,
{
    lemma_canonical_unique(s, t);
}

/// Little-endian byte strings without a most-significant zero byte are
/// unique for their value: `to_bytes_le` of `from_bytes_le(b)` gives `b`
/// back whenever `b` has no trailing zero byte.
pub proof fn law_bytes_le_unique(b1: Seq<u8>, b2: Seq<u8>)
    requires
        canonical_bytes(b1),
        canonical_bytes(b2),
        bytes_val(b1) == bytes_val(b2),
    ensures
        b1 == b2,
{
    lemma_bytes_canonical_unique(b1, b2);
}

/// The big-endian counterpart: byte strings without a leading zero byte
/// are unique for their value.
pub proof fn law_bytes_be_unique(b1: Seq<u8>, b2: Seq<u8>)
    requires
        canonical_bytes(b1.reverse()),
        canonical_bytes(b2.reverse()),
        bytes_val(b1.reverse()) == bytes_val(b2.reverse()),
    ensures
        b1 == b2,
{
    lemma_bytes_canonical_unique(b1.reverse(), b2.reverse());
    assert(b1 =~= b2) by {
        assert forall|i: int| 0 <= i < b1.len() implies b1[i] == b2[i] by {
            assert(b1.reverse()[b1.len() - 1 - i] == b1[i]);
            assert(b2.reverse()[b2.len() - 1 - i] == b2[i]);
        }
    }
}

/// Split `v` around bit `i`: `v == lo + 2^i u`.
proof fn lemma_split_at_bit(v: nat, i: nat)
    ensures
        v == v % pow2(i) + pow2(i) * (v / pow2(i)),
        v % pow2(i) < pow2(i),
        nat_bit(v, i) == ((v / pow2(i)) % 2 == 1),
{
    lemma_pow2_pos(i);
    lemma_fundamental_div_mod(v as int, pow2(i) as int);
    lemma_mod_bound(v as int, pow2(i) as int);
}

/// Parity facts of neighbours.
proof fn lemma_parity(u: nat)
    ensures
        u % 2 == 0 ==> (u + 1) % 2 == 1,
        u % 2 == 1 ==> u >= 1 && ((u - 1) as nat) % 2 == 0,
{
    lemma_fundamental_div_mod(u as int, 2);
    lemma_mod_bound(u as int, 2);
    let q = u / 2;
    if u % 2 == 0 {
        vstd::arithmetic::div_mod::lemma_fundamental_div_mod_converse((u + 1) as int, 2, q as int, 1);
    } else {
        vstd::arithmetic::div_mod::lemma_fundamental_div_mod_converse((u - 1) as int, 2, q as int, 0);
    }
}

/// Bits of `u + 1` and `u - 1` above bit 0 when bit 0 flips.
proof fn lemma_flip_low_bit(u: nat, j: nat)
    requires
        j > 0,
        u % 2 == 0,
    ensures
        nat_bit(u + 1, j) == nat_bit(u, j),
{
    lemma_bit_shift(u, 1, (j - 1) as nat);
    lemma_bit_shift(u + 1, 1, (j - 1) as nat);
    vstd::arithmetic::power2::lemma2_to64();
    assert((u + 1) / 2 == u / 2);
}

/// Setting bit `i` makes it set and leaves every other bit alone.
pub proof fn law_set_bit(v: nat, i: nat, j: nat)
    ensures
        nat_bit(if nat_bit(v, i) { v } else { v + pow2(i) }, i),
        j != i ==> nat_bit(if nat_bit(v, i) { v } else { v + pow2(i) }, j) == nat_bit(v, j),
{
    lemma_split_at_bit(v, i);
    let lo = v % pow2(i);
    let u = v / pow2(i);
    if !nat_bit(v, i) {
        let w = v + pow2(i);
        assert(w == lo + pow2(i) * (u + 1)) by (nonlinear_arith)
            requires
                v == lo + pow2(i) * u,
                w == v + pow2(i),
        ;
        lemma_bit_high(lo, u + 1, i, i);
        vstd::arithmetic::power2::lemma2_to64();
        assert((u + 1) / 1 == u + 1);
        assert(u % 2 == 0);
        lemma_parity(u);
        assert((u + 1) % 2 == 1);
        assert(nat_bit(u + 1, 0));
        assert(nat_bit(w, i));
        if j < i {
            lemma_bit_low(lo, u + 1, i, j);
            lemma_bit_low(lo, u, i, j);
        } else if j > i {
            lemma_bit_high(lo, u + 1, i, j);
            lemma_bit_high(lo, u, i, j);
            lemma_flip_low_bit(u, (j - i) as nat);
        }
    }
}

/// Clearing bit `i` makes it clear and leaves every other bit alone.
pub proof fn law_clear_bit(v: nat, i: nat, j: nat)
    ensures
        !nat_bit(if nat_bit(v, i) { (v - pow2(i)) as nat } else { v }, i),
        j != i ==> nat_bit(if nat_bit(v, i) { (v - pow2(i)) as nat } else { v }, j) == nat_bit(
            v,
            j,
        ),
{
    lemma_split_at_bit(v, i);
    let lo = v % pow2(i);
    let u = v / pow2(i);
    vstd::arithmetic::power2::lemma2_to64();
    if nat_bit(v, i) {
        assert(u % 2 == 1);
        lemma_parity(u);
        assert(u >= 1);
        assert(v >= pow2(i)) by (nonlinear_arith)
            requires
                v == lo + pow2(i) * u,
                u >= 1,
        ;
        let w = (v - pow2(i)) as nat;
        assert(w == lo + pow2(i) * ((u - 1) as nat)) by (nonlinear_arith)
            requires
                v == lo + pow2(i) * u,
                w == v - pow2(i),
                u >= 1,
        ;
        lemma_bit_high(lo, (u - 1) as nat, i, i);
        assert(((u - 1) as nat) / 1 == (u - 1) as nat);
        assert(((u - 1) as nat) % 2 == 0);
        assert(!nat_bit((u - 1) as nat, 0));
        if j < i {
            lemma_bit_low(lo, (u - 1) as nat, i, j);
            lemma_bit_low(lo, u, i, j);
        } else if j > i {
            lemma_bit_high(lo, (u - 1) as nat, i, j);
            lemma_bit_high(lo, u, i, j);
            lemma_flip_low_bit((u - 1) as nat, (j - i) as nat);
        }
    } else {
        assert(u / 1 == u);
    }
}

/// A value is determined by its bits, so the bitwise operations' contracts
/// fix their results.
pub proof fn law_bits_determine_value(x: nat, y: nat)
    requires
        forall|i: nat| nat_bit(x, i) == nat_bit(y, i),
    ensures
        x == y,
{
    lemma_bits_determine(x, y);
}

/// The bit length `k` of `x` is the least `k` with `x < 2^k`.
pub proof fn law_bit_length_bounds(x: nat)
    ensures
        x < pow2(nat_bit_length(x)),
        x > 0 ==> pow2((nat_bit_length(x) - 1) as nat) <= x,
{
    lemma_bit_length_bound(x);
}

/// Subtracting what was added gives the value back, and
/// `checked_sub` followed by adding back restores the minuend.
pub proof fn law_add_sub_inverse(a: nat, b: nat)
    ensures
        ((a + b) - b) as nat == a,
        a >= b ==> ((a - b) as nat) + b == a,
{
}

/// Quotient and remainder reassemble the dividend.
pub proof fn law_div_rem(x: nat, d: nat)
    requires
        d > 0,
    ensures
        x == (x / d) * d + x % d,
        x % d < d,
{
    lemma_fundamental_div_mod(x as int, d as int);
    lemma_mod_bound(x as int, d as int);
    assert(d * (x / d) == (x / d) * d) by (nonlinear_arith);
}

/// Every value raised to the power zero is one, zero included.
pub proof fn law_pow_zero(x: nat)
    ensures
        pow(x as int, 0) == 1,
{
    lemma_pow0(x as int);
}

} // verus!
