//! The closed set of failure kinds raised when a byte buffer does not match
//! the expected shape.

use vstd::prelude::*;

verus! {

/// Errors that can occur during deserialization.
///
/// Decoding fails fast: the first failure anywhere in a composite traversal is
/// the failure of the whole operation, propagated unchanged.
#[derive(Clone, Copy, Debug, PartialEq, Eq, Structural)]
pub enum OrbyteError {
    /// Fewer bytes remain than the type requires.
    InvalidLength,
    /// A boolean byte is neither 0 nor 1.
    InvalidBool,
    /// Text bytes are not valid UTF-8.
    InvalidUtf8,
    /// A decoded 32-bit code point is not a valid character.
    InvalidChar,
    /// A sum-type tag matches no declared alternative.
    UnrecognizedTag,
}

} // verus!
