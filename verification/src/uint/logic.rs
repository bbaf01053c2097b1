//! Bitwise AND, OR and XOR of `BigUint`s, limb by limb, the shorter operand
//! padded with implicit zero limbs.

use vstd::prelude::*;

use crate::limbs::limbs_val;
use crate::bits_spec::nat_bit;
use super::bits::{lemma_val_bit, lemma_val_bit_high, lemma_u64_bit};
use super::{BigUint, normalize};

verus! {

/// Limb `k` of `s`, reading missing limbs as zero.
pub open spec fn limb_at(s: Seq<u64>, k: int) -> u64 {
    if 0 <= k < s.len() {
        s[k]
    } else {
        0
    }
}

/// Bit `i` of a limb sequence's value is bit `i % 64` of limb `i / 64`.
pub proof fn lemma_padded_bit(s: Seq<u64>, i: nat)
    ensures
        nat_bit(limbs_val(s), i) == nat_bit(limb_at(s, (i / 64) as int) as nat, i % 64),
{
    let k = i / 64;
    let b = i % 64;
    assert(i == 64 * k + b);
    if k < s.len() {
        lemma_val_bit(s, k as int, b);
    } else {
        lemma_val_bit_high(s, i);
        let bb = b as u64;
        lemma_u64_bit(0, bb);
        assert((0u64 >> bb) & 1u64 == 0u64) by (bit_vector);
    }
}

proof fn lemma_or_bits(x: u64, y: u64, b: u64)
    requires
        b < 64,
    ensures
        nat_bit((x | y) as nat, b as nat) == (nat_bit(x as nat, b as nat) || nat_bit(
            y as nat,
            b as nat,
        )),
{
    lemma_u64_bit(x, b);
    lemma_u64_bit(y, b);
    lemma_u64_bit(x | y, b);
    assert((((x | y) >> b) & 1u64 == 1u64) == (((x >> b) & 1u64 == 1u64) || ((y >> b) & 1u64
        == 1u64))) by (bit_vector);
}

proof fn lemma_and_bits(x: u64, y: u64, b: u64)
    requires
        b < 64,
    ensures
        nat_bit((x & y) as nat, b as nat) == (nat_bit(x as nat, b as nat) && nat_bit(
            y as nat,
            b as nat,
        )),
{
    lemma_u64_bit(x, b);
    lemma_u64_bit(y, b);
    lemma_u64_bit(x & y, b);
    assert((((x & y) >> b) & 1u64 == 1u64) == (((x >> b) & 1u64 == 1u64) && ((y >> b) & 1u64
        == 1u64))) by (bit_vector);
}

proof fn lemma_xor_bits(x: u64, y: u64, b: u64)
    requires
        b < 64,
    ensures
        nat_bit((x ^ y) as nat, b as nat) == (nat_bit(x as nat, b as nat) != nat_bit(
            y as nat,
            b as nat,
        )),
{
    lemma_u64_bit(x, b);
    lemma_u64_bit(y, b);
    lemma_u64_bit(x ^ y, b);
    assert((((x ^ y) >> b) & 1u64 == 1u64) == (((x >> b) & 1u64 == 1u64) != ((y >> b) & 1u64
        == 1u64))) by (bit_vector);
}

/// Apply `op` limb by limb, padding the shorter operand with zeros.
fn limbwise<F: Fn(u64, u64) -> u64>(a: &BigUint, b: &BigUint, op: F) -> (r: Vec<u64>)
    requires
        forall|x: u64, y: u64| op.requires((x, y)),
    ensures
        r@.len() == if a.limbs@.len() >= b.limbs@.len() {
            a.limbs@.len()
        } else {
            b.limbs@.len()
        },
        forall|k: int|
            0 <= k < r@.len() ==> op.ensures(
                (limb_at(a.limbs@, k), limb_at(b.limbs@, k)),
                #[trigger] r@[k],
            ),
{
    let n = if a.limbs.len() >= b.limbs.len() {
        a.limbs.len()
    } else {
        b.limbs.len()
    };
    let mut out: Vec<u64> = Vec::with_capacity(n);
    let mut i: usize = 0;
    while i < n
        invariant
            n == (if a.limbs@.len() >= b.limbs@.len() {
                a.limbs@.len()
            } else {
                b.limbs@.len()
            }),
            i <= n,
            out@.len() == i,
            forall|x: u64, y: u64| op.requires((x, y)),
            forall|k: int|
                0 <= k < i ==> op.ensures(
                    (limb_at(a.limbs@, k), limb_at(b.limbs@, k)),
                    #[trigger] out@[k],
                ),
        decreases n - i,
    {
        let av = if i < a.limbs.len() {
            a.limbs[i]
        } else {
            0
        };
        let bv = if i < b.limbs.len() {
            b.limbs[i]
        } else {
            0
        };
        let z = op(av, bv);
        out.push(z);
        i += 1;
    }
    out
}

impl BigUint {
    /// Bitwise AND (the result is bounded by the shorter operand).
    pub fn bitand_ref(&self, rhs: &BigUint) -> (r: BigUint)
        ensures
            forall|i: nat| nat_bit(r@, i) == (nat_bit(self@, i) && nat_bit(rhs@, i)),
    {
        proof {
            use_type_invariant(self);
            use_type_invariant(rhs);
        }
        let n = if self.limbs.len() <= rhs.limbs.len() {
            self.limbs.len()
        } else {
            rhs.limbs.len()
        };
        let mut out: Vec<u64> = Vec::with_capacity(n);
        let mut i: usize = 0;
        while i < n
            invariant
                n <= self.limbs.len(),
                n <= rhs.limbs.len(),
                n == self.limbs.len() || n == rhs.limbs.len(),
                i <= n,
                out@.len() == i,
                forall|k: int| 0 <= k < i ==> out@[k] == self.limbs@[k] & rhs.limbs@[k],
            decreases n - i,
        {
            out.push(self.limbs[i] & rhs.limbs[i]);
            i += 1;
        }
        let ghost raw = out@;
        normalize(&mut out);
        proof {
            assert forall|i: nat| nat_bit(limbs_val(out@), i) == (nat_bit(self@, i) && nat_bit(
                rhs@,
                i,
            )) by {
                let k = (i / 64) as int;
                let b = (i % 64) as u64;
                lemma_padded_bit(raw, i);
                lemma_padded_bit(self.limbs@, i);
                lemma_padded_bit(rhs.limbs@, i);
                if k < n {
                    lemma_and_bits(self.limbs@[k], rhs.limbs@[k], b);
                } else {
                    lemma_and_bits(limb_at(self.limbs@, k), limb_at(rhs.limbs@, k), b);
                    assert(limb_at(self.limbs@, k) == 0 || limb_at(rhs.limbs@, k) == 0);
                    lemma_u64_bit(0, b);
                    assert((0u64 >> b) & 1u64 == 0u64) by (bit_vector);
                }
            }
        }
        BigUint { limbs: out }
    }

    /// Bitwise OR.
    pub fn bitor_ref(&self, rhs: &BigUint) -> (r: BigUint)
        ensures
            forall|i: nat| nat_bit(r@, i) == (nat_bit(self@, i) || nat_bit(rhs@, i)),
    {
        proof {
            use_type_invariant(self);
            use_type_invariant(rhs);
        }
        let mut out = limbwise(self, rhs, |x: u64, y: u64| -> (z: u64)
            ensures
                z == x | y,
            { x | y });
        let ghost raw = out@;
        normalize(&mut out);
        proof {
            assert forall|i: nat| nat_bit(limbs_val(out@), i) == (nat_bit(self@, i) || nat_bit(
                rhs@,
                i,
            )) by {
                let k = (i / 64) as int;
                let b = (i % 64) as u64;
                lemma_padded_bit(raw, i);
                lemma_padded_bit(self.limbs@, i);
                lemma_padded_bit(rhs.limbs@, i);
                lemma_or_bits(limb_at(self.limbs@, k), limb_at(rhs.limbs@, k), b);
                if k >= raw.len() {
                    lemma_or_bits(0, 0, b);
                    assert(0u64 | 0u64 == 0u64) by (bit_vector);
                }
            }
        }
        BigUint { limbs: out }
    }

    /// Bitwise XOR.
    pub fn bitxor_ref(&self, rhs: &BigUint) -> (r: BigUint)
        ensures
            forall|i: nat| nat_bit(r@, i) == (nat_bit(self@, i) != nat_bit(rhs@, i)),
    {
        proof {
            use_type_invariant(self);
            use_type_invariant(rhs);
        }
        let mut out = limbwise(self, rhs, |x: u64, y: u64| -> (z: u64)
            ensures
                z == x ^ y,
            { x ^ y });
        let ghost raw = out@;
        normalize(&mut out);
        proof {
            assert forall|i: nat| nat_bit(limbs_val(out@), i) == (nat_bit(self@, i) != nat_bit(
                rhs@,
                i,
            )) by {
                let k = (i / 64) as int;
                let b = (i % 64) as u64;
                lemma_padded_bit(raw, i);
                lemma_padded_bit(self.limbs@, i);
                lemma_padded_bit(rhs.limbs@, i);
                lemma_xor_bits(limb_at(self.limbs@, k), limb_at(rhs.limbs@, k), b);
                if k >= raw.len() {
                    lemma_xor_bits(0, 0, b);
                    assert(0u64 ^ 0u64 == 0u64) by (bit_vector);
                }
            }
        }
        BigUint { limbs: out }
    }
}

} // verus!
