//! A declarative auto-patcher for a live audio routing graph.
//!
//! The crate expands a small connection-pattern language into an ordered list
//! of desired (output port, input port) pairs, and reconciles a routing graph
//! against that list so that each desired pair ends up exclusively connected.

pub mod pattern;
pub mod reconcile;
pub mod signal;
pub mod text;
