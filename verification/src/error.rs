use vstd::prelude::*;

verus! {

/// The ways an operation of this crate can fail.
#[derive(Debug, Clone, Copy, PartialEq, Eq, Structural)]
pub enum StarkError {
    /// The field modulus cannot support the requested operation.
    ConfigurationError,
    /// Inverse of zero, or division by a zero polynomial or scalar.
    ArithmeticError,
    /// Coordinate lists of different lengths, or an index outside a tree.
    ShapeError,
    /// The transcript ended, or was malformed, where a message was expected.
    ProtocolError,
    /// A Merkle opening or a fold-consistency check did not hold.
    VerificationFailure,
}

} // verus!
