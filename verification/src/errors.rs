use vstd::prelude::*;

verus! {

/// Errors raised by the matrix kernel and the estimators.
///
/// The first three are precondition violations detected at operation time;
/// `NotPositiveDefinite` is raised by the Cholesky factorization (and by the
/// inversion built on it) when the input is not a valid information matrix;
/// `ValueOutOfRange` is raised when a computed fixed-point value does not fit
/// the representable range. All are fatal: no operation retries or recovers.
#[derive(Clone, Copy, Debug, PartialEq, Eq, Structural)]
pub enum MatrixError {
    InvalidDimension,
    DimensionMismatch,
    IndexOutOfRange,
    NotPositiveDefinite,
    ValueOutOfRange,
}

} // verus!
