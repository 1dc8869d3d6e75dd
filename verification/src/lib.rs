//! A verified model of a broadcast relay's connection registry.
//!
//! The relay accepts connections, assigns each a fresh identifier, and fans a
//! payload out to every registered connection whenever one of them signals
//! activity. This crate holds the verified core: the registry of live
//! connections, the best-effort broadcast policy, and the session state
//! machine that drives one connection from registration to removal. The
//! socket and scheduler glue around it stays outside the library and feeds it
//! plain values.

pub mod connections;
pub mod session;
