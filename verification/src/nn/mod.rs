//! Parameter stores, state dictionaries and layers.
pub mod error;
pub mod init;
pub mod store;
pub mod state_dict;
pub mod linear;
pub mod module;
