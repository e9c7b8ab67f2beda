//! Errors raised by shape and layout logic.
use vstd::prelude::*;

verus! {

/// Errors of tensor metadata operations.
#[derive(Debug, Clone)]
pub enum Error {
    /// A shape, index or stride description is invalid.
    InvalidShape(String),
    /// The number of elements of a shape exceeds `limit`.
    TensorTooLarge { limit: usize, requested: usize },
    /// Two shapes cannot be broadcast against each other.
    ShapeMismatch { lhs: Vec<usize>, rhs: Vec<usize> },
    /// Two element counts that had to agree differ.
    SizeMismatch { expected: usize, actual: usize },
    /// A list of axes is invalid for the rank it is used with.
    InvalidAxes(String),
}

impl Error {
    /// Builds an `InvalidShape` error from a message.
    pub fn invalid_shape(msg: &str) -> (e: Error)
        ensures
            e matches Error::InvalidShape(m) && m@ == msg@,
    {
        Error::InvalidShape(String::from_str(msg))
    }
}

} // verus!
