//! The error type of fallible operations.

use vstd::prelude::*;

verus! {

/// Errors of fallible numeric operations.
#[derive(Debug, PartialEq, Eq)]
pub enum OxiNumError {
    /// Division by zero.
    DivByZero,
    /// A malformed textual representation, with a description.
    Parse(String),
    /// A value out of the representable range.
    Overflow,
}

/// The result type of fallible operations.
pub type OxiNumResult<T> = Result<T, OxiNumError>;

} // verus!
