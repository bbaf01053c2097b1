//! Arbitrary-precision binary arithmetic: an unsigned big integer on 64-bit
//! limbs and a binary floating-point number built on it.

pub mod limbs;
pub mod bits_spec;
pub mod uint;
pub mod uint_laws;
pub mod bigint;
pub mod error;
pub mod float;
pub mod float_laws;

