use vstd::prelude::*;

verus! {

/// Errors reported by the document detector.
#[derive(Debug)]
pub enum DocQuadError {
    /// The buffer layout is invalid: the stride is shorter than a row, or the
    /// data does not hold `height` rows of `stride` bytes.
    InvalidBuffer,
    /// A memory view could not be built.
    MappingError(String),
    /// The edge detector could not be set up or run.
    EdgeDetectionError,
    /// No document quadrilateral was found.
    NoQuadFound,
    /// An internal geometry error.
    GeometryError,
    /// Rows with an inconsistent stride.
    StrideMismatch(String),
}

} // verus!
