//! Domain-block enforcement and access-monitoring engine.
//!
//! The library contains the verified core of a host firewall manager:
//! validation of domain and IP literals, parsing of resolver and firewall
//! command output, deterministic compilation of block/unblock rules, the
//! blocked-domain store with its JSON persistence format, a time-bounded
//! reverse-lookup cache, and the access-monitor decision logic with
//! notification cooldowns. All I/O (command execution, files, UI events)
//! lives outside the library and exchanges plain values with it.

pub mod cache;
pub mod command;
pub mod compile;
pub mod error;
pub mod monitor;
pub mod persist;
pub mod resolver;
pub mod rules;
pub mod store;
pub mod text;
pub mod validate;

use vstd::prelude::*;

verus! {

/// Startup elevation hook; privilege handling is left to the host process.
pub fn elevate_at_startup() {
}

} // verus!
