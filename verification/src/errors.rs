//! The ways in which building or running the cipher can fail.

use franklin_crypto::bellman::SynthesisError;
use vstd::prelude::*;

verus! {

#[verifier::external_type_specification]
#[verifier::external_body]
pub struct ExSynthesisError(SynthesisError);

/// Why an operation of the cipher did not produce its result.
#[derive(Debug)]
pub enum CipherError {
    /// No pair of vectors with pairwise distinct entries was drawn within
    /// the allowed number of attempts.
    SamplingExhausted,
    /// Two entries of the vectors that define the matrix coincide.
    VectorCollision,
    /// The operation is defined for a state of three elements only.
    UnsupportedSize,
    /// The determinant of the matrix is zero, so it has no inverse.
    SingularMatrix,
    /// The matrix has no row of the index asked for.
    RowOutOfRange,
    /// An equality that the circuit must enforce does not hold of the
    /// values at hand: the circuit cannot be satisfied.
    ConstraintViolation,
    /// The constraint system reported a failure of its own.
    Backend(SynthesisError),
}

} // verus!
