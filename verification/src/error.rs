//! The error kinds shared by all layers of the codec.

use vstd::prelude::*;

verus! {

/// Why a DER record was refused.
#[derive(Clone, Copy, Debug, PartialEq, Eq, Structural)]
pub enum Asn1DerError {
    /// The bytes are present but break a canonical-form rule.
    InvalidEncoding,
    /// The declared length and the bytes that are available disagree.
    LengthMismatch,
    /// The tag does not belong to the requested type.
    InvalidTag,
    /// The record is valid DER but outside the range this library represents.
    Unsupported,
}

} // verus!
