//! Conversion of `BigUint` to and from little- and big-endian byte strings.

use vstd::prelude::*;
use vstd::arithmetic::power2::{pow2, lemma_pow2_adds, lemma_pow2_pos, lemma2_to64};

use crate::limbs::{
    lemma_digit_unique, lemma_val_push, limb_pow, limbs_val,
};
use super::{BigUint, normalize};

verus! {

/// The number a little-endian byte string stands for.
pub open spec fn bytes_val(s: Seq<u8>) -> nat
    decreases s.len(),
{
    if s.len() == 0 {
        0
    } else {
        s[0] as nat + 256 * bytes_val(s.skip(1))
    }
}

/// A byte string without a most-significant zero byte.
pub open spec fn canonical_bytes(s: Seq<u8>) -> bool {
    s.len() == 0 || s.last() != 0
}

/// The integer whose eight little-endian bytes are `b`.
fn limb_from_le_bytes(b: [u8; 8]) -> (r: u64)
    ensures
        r as nat == bytes_val(b@),
{
    let ghost s = b@;
    let mut acc: u64 = 0;
    let mut i: usize = 8;
    proof {
        lemma2_to64();
        assert(s.skip(8) =~= Seq::<u8>::empty());
    }
    while i > 0
        invariant
            i <= 8,
            s == b@,
            s.len() == 8,
            acc as nat == bytes_val(s.skip(i as int)),
            acc < pow2(8 * (8 - i) as nat),
        decreases i,
    {
        proof {
            lemma_pow2_byte((8 - i) as nat);
            lemma2_to64();
            vstd::arithmetic::power2::lemma2_to64_rest();
            if i > 1 {
                vstd::arithmetic::power2::lemma_pow2_strictly_increases(
                    8 * (9 - i) as nat,
                    64,
                );
            }
            assert(s.skip(i - 1).skip(1) =~= s.skip(i as int));
        }
        acc = acc * 256 + b[i - 1] as u64;
        i = i - 1;
    }
    assert(s.skip(0) =~= s);
    acc
}

/// The eight little-endian bytes of `x`.
fn limb_to_le_bytes(x: u64) -> (r: [u8; 8])
    ensures
        bytes_val(r@) == x as nat,
{
    let r = [
        (x & 0xff) as u8,
        ((x >> 8u64) & 0xff) as u8,
        ((x >> 16u64) & 0xff) as u8,
        ((x >> 24u64) & 0xff) as u8,
        ((x >> 32u64) & 0xff) as u8,
        ((x >> 40u64) & 0xff) as u8,
        ((x >> 48u64) & 0xff) as u8,
        ((x >> 56u64) & 0xff) as u8,
    ];
    proof {
        assert(x == (x & 0xff) + 256 * (((x >> 8u64) & 0xff) + 256 * (((x >> 16u64) & 0xff) + 256
            * (((x >> 24u64) & 0xff) + 256 * (((x >> 32u64) & 0xff) + 256 * (((x >> 40u64) & 0xff)
            + 256 * (((x >> 48u64) & 0xff) + 256 * ((x >> 56u64) & 0xff)))))))) by (bit_vector);
        assert((x & 0xff) < 256 && ((x >> 8u64) & 0xff) < 256 && ((x >> 16u64) & 0xff) < 256 && ((x
            >> 24u64) & 0xff) < 256 && ((x >> 32u64) & 0xff) < 256 && ((x >> 40u64) & 0xff) < 256
            && ((x >> 48u64) & 0xff) < 256 && ((x >> 56u64) & 0xff) < 256) by (bit_vector);
        assert(r[0] as u64 == (x & 0xff));
        assert(r[1] as u64 == ((x >> 8u64) & 0xff));
        assert(r[2] as u64 == ((x >> 16u64) & 0xff));
        assert(r[3] as u64 == ((x >> 24u64) & 0xff));
        assert(r[4] as u64 == ((x >> 32u64) & 0xff));
        assert(r[5] as u64 == ((x >> 40u64) & 0xff));
        assert(r[6] as u64 == ((x >> 48u64) & 0xff));
        assert(r[7] as u64 == ((x >> 56u64) & 0xff));
        reveal_with_fuel(bytes_val, 9);
        assert(r@.skip(1) =~= seq![r[1], r[2], r[3], r[4], r[5], r[6], r[7]]);
        assert(r@.skip(1).skip(1) =~= seq![r[2], r[3], r[4], r[5], r[6], r[7]]);
        assert(r@.skip(1).skip(1).skip(1) =~= seq![r[3], r[4], r[5], r[6], r[7]]);
        assert(r@.skip(1).skip(1).skip(1).skip(1) =~= seq![r[4], r[5], r[6], r[7]]);
        assert(r@.skip(1).skip(1).skip(1).skip(1).skip(1) =~= seq![r[5], r[6], r[7]]);
        assert(r@.skip(1).skip(1).skip(1).skip(1).skip(1).skip(1) =~= seq![r[6], r[7]]);
        assert(r@.skip(1).skip(1).skip(1).skip(1).skip(1).skip(1).skip(1) =~= seq![r[7]]);
        assert(seq![r[7]].skip(1) =~= Seq::<u8>::empty());
    }
    r
}

proof fn lemma_pow2_byte(n: nat)
    ensures
        pow2(8 * (n + 1)) == 256 * pow2(8 * n),
{
    lemma_pow2_adds(8 * n, 8);
    lemma2_to64();
    assert(8 * (n + 1) == 8 * n + 8);
}

/// Appending a byte adds it at the next place value.
pub proof fn lemma_bytes_push(s: Seq<u8>, x: u8)
    ensures
        bytes_val(s.push(x)) == bytes_val(s) + x * pow2(8 * s.len()),
    decreases s.len(),
{
    lemma2_to64();
    if s.len() == 0 {
        assert(s.push(x).skip(1) =~= Seq::<u8>::empty());
        assert(bytes_val(Seq::<u8>::empty()) == 0);
        assert(8 * s.len() == 0);
    } else {
        let t = s.skip(1);
        assert(s.push(x).skip(1) =~= t.push(x));
        lemma_bytes_push(t, x);
        lemma_pow2_byte(t.len());
        let p = pow2(8 * t.len());
        assert(256 * (bytes_val(t) + x * p) == 256 * bytes_val(t) + x * (256 * p))
            by (nonlinear_arith);
    }
}

/// A string of `n` bytes is below `2^(8 n)`.
pub proof fn lemma_bytes_bound(s: Seq<u8>)
    ensures
        bytes_val(s) < pow2(8 * s.len()),
    decreases s.len(),
{
    lemma2_to64();
    if s.len() > 0 {
        let t = s.skip(1);
        lemma_bytes_bound(t);
        lemma_pow2_byte(t.len());
        let v = bytes_val(t);
        let p = pow2(8 * t.len());
        assert(s[0] as nat + 256 * v < 256 * p) by (nonlinear_arith)
            requires
                s[0] < 256,
                v < p,
        ;
    }
}

/// Concatenation puts the second string above the first.
pub proof fn lemma_bytes_concat(s: Seq<u8>, t: Seq<u8>)
    ensures
        bytes_val(s + t) == bytes_val(s) + pow2(8 * s.len()) * bytes_val(t),
    decreases t.len(),
{
    if t.len() == 0 {
        assert(s + t =~= s);
        assert(bytes_val(t) == 0);
    } else {
        let u = t.drop_last();
        let x = t.last();
        assert(s + t =~= (s + u).push(x));
        assert(t =~= u.push(x));
        lemma_bytes_concat(s, u);
        lemma_bytes_push(s + u, x);
        lemma_bytes_push(u, x);
        lemma_pow2_adds(8 * s.len(), 8 * u.len());
        assert(8 * (s + u).len() == 8 * s.len() + 8 * u.len());
        let p = pow2(8 * s.len());
        let q = pow2(8 * u.len());
        assert(p * (bytes_val(u) + x * q) == p * bytes_val(u) + x * (p * q)) by (nonlinear_arith);
    }
}

/// Trailing zero bytes do not change the value.
pub proof fn lemma_bytes_zero_tail(s: Seq<u8>, n: nat)
    ensures
        bytes_val(s + Seq::new(n, |i: int| 0u8)) == bytes_val(s),
    decreases n,
{
    if n > 0 {
        let z = Seq::new(n, |i: int| 0u8);
        let z1 = Seq::new((n - 1) as nat, |i: int| 0u8);
        assert(s + z =~= (s + z1).push(0));
        lemma_bytes_push(s + z1, 0);
        lemma_bytes_zero_tail(s, (n - 1) as nat);
    }
}

/// A canonical non-empty string is at least `2^(8 (n-1))`.
pub proof fn lemma_bytes_lower(s: Seq<u8>)
    requires
        s.len() > 0,
        s.last() != 0,
    ensures
        bytes_val(s) >= pow2(8 * ((s.len() - 1) as nat)),
    decreases s.len(),
{
    lemma2_to64();
    let t = s.skip(1);
    if s.len() == 1 {
        assert(s.last() == s[0]);
        assert(8 * 0nat == 0);
    } else {
        assert(t.last() == s.last());
        lemma_bytes_lower(t);
        lemma_pow2_byte((t.len() - 1) as nat);
        assert(256 * bytes_val(t) >= 256 * pow2(8 * ((t.len() - 1) as nat))) by (nonlinear_arith)
            requires
                bytes_val(t) >= pow2(8 * ((t.len() - 1) as nat)),
        ;
    }
}

/// Two canonical byte strings of the same value are equal.
pub proof fn lemma_bytes_canonical_unique(s: Seq<u8>, t: Seq<u8>)
    requires
        canonical_bytes(s),
        canonical_bytes(t),
        bytes_val(s) == bytes_val(t),
    ensures
        s == t,
    decreases s.len(),
{
    if s.len() == 0 && t.len() == 0 {
        assert(s =~= t);
    } else if s.len() == 0 {
        lemma_bytes_lower(t);
        lemma_pow2_pos(8 * ((t.len() - 1) as nat));
    } else if t.len() == 0 {
        lemma_bytes_lower(s);
        lemma_pow2_pos(8 * ((s.len() - 1) as nat));
    } else {
        lemma_digit_unique(
            s[0] as nat,
            bytes_val(s.skip(1)),
            t[0] as nat,
            bytes_val(t.skip(1)),
            256,
        );
        if s.len() > 1 {
            assert(s.skip(1).last() == s.last());
        }
        if t.len() > 1 {
            assert(t.skip(1).last() == t.last());
        }
        lemma_bytes_canonical_unique(s.skip(1), t.skip(1));
        assert(s =~= t) by {
            assert forall|i: int| 0 <= i < s.len() implies s[i] == t[i] by {
                if i > 0 {
                    assert(s[i] == s.skip(1)[i - 1]);
                    assert(t[i] == t.skip(1)[i - 1]);
                }
            }
        }
    }
}

/// A reversed copy of a byte slice.
fn reversed(v: &[u8]) -> (r: Vec<u8>)
    ensures
        r@ == v@.reverse(),
{
    let n = v.len();
    let mut out: Vec<u8> = Vec::with_capacity(n);
    let mut i: usize = 0;
    while i < n
        invariant
            n == v.len(),
            i <= n,
            out@.len() == i,
            forall|j: int| 0 <= j < i ==> out@[j] == v@[n - 1 - j],
        decreases n - i,
    {
        out.push(v[n - 1 - i]);
        i += 1;
    }
    assert(out@ =~= v@.reverse());
    out
}

impl BigUint {
    /// Construct from a little-endian byte sequence (least-significant byte first).
    pub fn from_bytes_le(bytes: &[u8]) -> (r: BigUint)
        ensures
            r@ == bytes_val(bytes@),
    {
        let len = bytes.len();
        let mut limbs: Vec<u64> = Vec::new();
        let mut start: usize = 0;
        proof {
            assert(bytes@.take(0) =~= Seq::<u8>::empty());
            assert(bytes_val(Seq::<u8>::empty()) == 0);
            assert(limbs_val(Seq::<u64>::empty()) == 0);
        }
        while start < len
            invariant
                len == bytes.len(),
                start <= len,
                start < len ==> start == 8 * limbs@.len(),
                limbs_val(limbs@) == bytes_val(bytes@.take(start as int)),
            decreases len - start,
        {
            let end = if len - start >= 8 {
                start + 8
            } else {
                len
            };
            let mut buf = [0u8; 8];
            let mut j: usize = 0;
            while start + j < end
                invariant
                    len == bytes.len(),
                    start < end <= len,
                    end - start <= 8,
                    j <= end - start,
                    buf@.len() == 8,
                    forall|k: int| 0 <= k < j ==> buf@[k] == bytes@[start + k],
                    forall|k: int| j <= k < 8 ==> buf@[k] == 0,
                decreases end - start - j,
            {
                buf[j] = bytes[start + j];
                j += 1;
            }
            let limb = limb_from_le_bytes(buf);
            proof {
                let chunk = bytes@.subrange(start as int, end as int);
                let clen = (end - start) as nat;
                assert(buf@ =~= chunk + Seq::new((8 - clen) as nat, |i: int| 0u8));
                lemma_bytes_zero_tail(chunk, (8 - clen) as nat);
                assert(bytes@.take(end as int) =~= bytes@.take(start as int) + chunk);
                lemma_bytes_concat(bytes@.take(start as int), chunk);
                lemma_val_push(limbs@, limb);
                assert(8 * (start as nat) == 64 * limbs@.len());
                assert(limb as nat == bytes_val(chunk));
                assert(limb_pow(limbs@.len()) == pow2(8 * (start as nat)));
                let pp = pow2(8 * (start as nat));
                let cv = bytes_val(chunk);
                assert(limb * pp == pp * cv) by (nonlinear_arith)
                    requires
                        limb == cv,
                ;
            }
            limbs.push(limb);
            start = end;
        }
        proof {
            assert(bytes@.take(len as int) =~= bytes@);
        }
        normalize(&mut limbs);
        BigUint { limbs }
    }

    /// Construct from a big-endian byte sequence (most-significant byte first).
    pub fn from_bytes_be(bytes: &[u8]) -> (r: BigUint)
        ensures
            r@ == bytes_val(bytes@.reverse()),
    {
        let le = reversed(bytes);
        Self::from_bytes_le(le.as_slice())
    }

    /// Convert to a little-endian byte sequence. Returns an empty vec for zero.
    pub fn to_bytes_le(&self) -> (r: Vec<u8>)
        ensures
            bytes_val(r@) == self@,
            canonical_bytes(r@),
    {
        proof {
            use_type_invariant(self);
        }
        let n = self.limbs.len();
        if n == 0 {
            proof {
                assert(bytes_val(Seq::<u8>::empty()) == 0);
            }
            return Vec::new();
        }
        let mut out: Vec<u8> = Vec::new();
        let mut i: usize = 0;
        proof {
            assert(self.limbs@.take(0) =~= Seq::<u64>::empty());
            assert(limbs_val(Seq::<u64>::empty()) == 0);
            assert(bytes_val(Seq::<u8>::empty()) == 0);
        }
        while i < n
            invariant
                n == self.limbs.len(),
                i <= n,
                out@.len() == 8 * i,
                bytes_val(out@) == limbs_val(self.limbs@.take(i as int)),
            decreases n - i,
        {
            let limb = self.limbs[i];
            let b = limb_to_le_bytes(limb);
            let ghost before = out@;
            let mut j: usize = 0;
            while j < 8
                invariant
                    j <= 8,
                    b@.len() == 8,
                    out@ =~= before + b@.take(j as int),
                decreases 8 - j,
            {
                out.push(b[j]);
                j += 1;
            }
            proof {
                assert(b@.take(8) =~= b@);
                assert(out@ =~= before + b@);
                lemma_bytes_concat(before, b@);
                assert(self.limbs@.take(i + 1) =~= self.limbs@.take(i as int).push(limb));
                lemma_val_push(self.limbs@.take(i as int), limb);
                assert(8 * before.len() == 64 * (i as nat));
                assert(limb_pow(i as nat) == pow2(8 * before.len()));
                let pp = pow2(8 * before.len());
                assert(limb * pp == pp * bytes_val(b@)) by (nonlinear_arith)
                    requires
                        limb == bytes_val(b@),
                ;
            }
            i += 1;
        }
        proof {
            assert(self.limbs@.take(n as int) =~= self.limbs@);
        }
        // Strip trailing zero bytes from the top.
        while out.len() > 0 && out[out.len() - 1] == 0
            invariant
                bytes_val(out@) == self@,
            decreases out.len(),
        {
            let ghost before = out@;
            out.pop();
            proof {
                assert(before =~= out@.push(0));
                lemma_bytes_push(out@, 0);
            }
        }
        out
    }

    /// Convert to a big-endian byte sequence. Returns an empty vec for zero.
    pub fn to_bytes_be(&self) -> (r: Vec<u8>)
        ensures
            bytes_val(r@.reverse()) == self@,
            canonical_bytes(r@.reverse()),
    {
        let le = self.to_bytes_le();
        let be = reversed(le.as_slice());
        proof {
            assert(be@.reverse() =~= le@);
        }
        be
    }
}

} // verus!
