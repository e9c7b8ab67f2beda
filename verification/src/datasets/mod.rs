//! Dataset file formats.
pub mod mnist;
