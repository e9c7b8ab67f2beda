//! Shape rules and gradient-mode bookkeeping of the autodiff tensor.
pub mod error;
pub mod grad;
pub mod ops;
