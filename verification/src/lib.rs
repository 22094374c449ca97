//! Browsing of a curated set of directory trees through stateful cursors.
//!
//! The crate holds the pieces that carry the rules of the system: the
//! namespace that maps client-visible paths to real ones, the cursor table
//! that a client navigates with, the course of a connection, and the framing
//! of messages on a byte stream. Reading the host filesystem and the network
//! is left to the caller, who hands over what was read.

pub mod connection;
pub mod fs;
pub mod wire;
