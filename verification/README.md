# oxinum

Arbitrary-precision binary arithmetic, verified with Verus: an unsigned big
integer on 64-bit limbs, a signed big integer on top of it, and a binary
floating-point number `±mantissa · 2^exponent` with a per-value precision
and IEEE 754 special values.

Every operation states its result over a mathematical model (`nat` for
`BigUint`, `int` for `BigInt`, and class, sign, mantissa, exponent and
precision for `BigFloat`), and the proofs show that the code computes it.

## Layout

- `src/limbs.rs`, `src/bits_spec.rs` — the value of a limb sequence and the
  bit-level functions (bit, bit length, trailing zeros, population count).
- `src/uint.rs`, `src/uint/` — `BigUint`: construction, comparison,
  addition, subtraction, multiplication, powers, shifts, bit access, bitwise
  operators, byte conversions, long division, and the operator traits.
- `src/uint_laws.rs` — laws relating the `BigUint` operations.
- `src/bigint.rs` — `BigInt`, sign and magnitude.
- `src/float.rs`, `src/float/` — `BigFloat`: normalization and rounding
  (`spec.rs`), comparison (`cmp.rs`), addition and subtraction (`add.rs`),
  division (`div.rs`), the truncated remainder (`rem.rs`), integer conversions (`convert.rs`), IEEE 754 binary64
  bit patterns (`ieee.rs`), decimal scientific and engineering notation
  (`decimal.rs`, `format.rs`), the hexadecimal `%a` form and its parser
  (`hex.rs`, `hex_proofs.rs`), the operators (`ops.rs`) and the
  binary-splitting series terms for `exp`, `sin` and `cos` (`series.rs`).
- `src/float_laws.rs` — laws of `BigFloat`: exact encodings, uniqueness of
  the normalized form, the total order, negation, integer rounding, decimal
  digit counts, the rounding error bound, the precision and error of a
  quotient, nearest rounding to binary64 and its special cases,
  and the hexadecimal and binary64 round trips.
- `app/lib.rs` — what stays outside the verified core: `f64` values, the
  floating-point term-count estimates, serde support for `BigUint`, and
  `Display` adapters.
