//! Errors of the neural-network layer.
use vstd::prelude::*;

verus! {

/// Errors raised by stores, state dictionaries and layers.
#[derive(Debug)]
pub enum Error {
    /// A tensor has the wrong shape.
    Shape(String),
    /// A store or state dictionary is in a state that forbids the operation.
    State(String),
    /// Reading data failed.
    Io(String),
}

} // verus!
