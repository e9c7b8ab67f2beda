//! The interface of layers.
use vstd::prelude::*;
use crate::nn::error::Error;

verus! {

/// A layer: maps an input to an output, in training mode or not.
pub trait Module: Send + Sync {
    type Input;
    type Output;

    fn forward(&self, x: Self::Input, train: bool) -> Result<Self::Output, Error>;
}

} // verus!
