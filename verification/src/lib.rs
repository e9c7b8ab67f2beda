//! Tensor metadata, shape algebra and training utilities, verified with Verus.
//!
//! The crate is layered like this:
//! - `shape`, `layout`, `index`, `dtype`, `error`, `small_vec`: validated
//!   shapes, strided layouts and index expressions of tensors;
//! - `autodiff`: the shape rules of autodiff operations and the bookkeeping
//!   of no-grad regions;
//! - `nn`: the naming rules of parameter stores, the matching of state
//!   dictionaries against stores, the initialisation generator and layers;
//! - `data`, `datasets`: shuffling of sample indices and the MNIST file format.
use vstd::prelude::*;

pub mod error;
pub mod small_vec;
pub mod shape;
pub mod dtype;
pub mod layout;
pub mod index;
pub mod data;
pub mod nn;
pub mod autodiff;
pub mod datasets;
mod text;

pub use dtype::DType;
pub use error::Error;
pub use index::TensorIndex;
pub use layout::{Layout, LayoutKind, TensorIndexer};
pub use shape::ConcreteShape;

verus! {

} // verus!
