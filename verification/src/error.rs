//! The error values reported by the library.

use vstd::prelude::*;

verus! {

/// A value-carrying error: a kind together with a descriptive message.
///
/// `InvalidArg`, `InvalidRange` and `ConversionError` describe bad input
/// handed in by a caller; `OverflowError` reports that a divisor sum does
/// not fit into the numeric domain.
#[derive(Debug, PartialEq)]
pub enum AliquotError {
    InvalidArg(String),
    InvalidRange(String),
    ConversionError(String),
    OverflowError(String),
}

impl Clone for AliquotError {
    /// A copy of the error, equal to the original.
    fn clone(&self) -> (r: Self)
        ensures
            r == *self,
    {
        match self {
            AliquotError::InvalidArg(m) => AliquotError::InvalidArg(m.clone()),
            AliquotError::InvalidRange(m) => AliquotError::InvalidRange(m.clone()),
            AliquotError::ConversionError(m) => AliquotError::ConversionError(m.clone()),
            AliquotError::OverflowError(m) => AliquotError::OverflowError(m.clone()),
        }
    }
}

impl AliquotError {
    /// The descriptive message carried by the error, whatever its kind.
    pub open spec fn spec_message(&self) -> Seq<char> {
        match self {
            AliquotError::InvalidArg(m) => m@,
            AliquotError::InvalidRange(m) => m@,
            AliquotError::ConversionError(m) => m@,
            AliquotError::OverflowError(m) => m@,
        }
    }

    /// Returns the descriptive message carried by the error.
    pub fn message(&self) -> (r: &String)
        ensures
            r@ == self.spec_message(),
    {
        match self {
            AliquotError::InvalidArg(m) => m,
            AliquotError::InvalidRange(m) => m,
            AliquotError::ConversionError(m) => m,
            AliquotError::OverflowError(m) => m,
        }
    }
}

} // verus!
