//! Errors of autodiff tensors.
use vstd::prelude::*;

verus! {

/// Errors raised by autodiff tensor operations.
#[derive(Debug)]
pub enum TensorError {
    /// The shapes of the operands do not fit the operation.
    Shape(String),
    /// A backward pass cannot start from this tensor.
    Backward(String),
}

} // verus!
