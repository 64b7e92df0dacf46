//! A local registry of SSH tunnel definitions.
//!
//! The library holds the data model for tunnel definitions, the registry
//! that stores them keyed by id, the textual persistence codec, and the
//! state machine that drives a single connection attempt. All I/O (files,
//! sockets, the operator's terminal) is left to the surrounding program.

pub mod attempt;
pub mod codec;
pub mod registry;
pub mod tunnel;

pub use tunnel::default_timeout;
