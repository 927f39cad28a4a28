//! Error types of the engine.
//!
//! `FirewallError` covers command execution and parsing of firewall
//! state; `ResolutionError` is raised when both lookup methods are
//! exhausted and carries both underlying failure messages.

use vstd::prelude::*;

verus! {

/// Failure of a firewall command or of parsing its output.
#[derive(Debug)]
pub enum FirewallError {
    CommandError(String),
    ParseError(String),
    AdminRequired(String),
}

impl FirewallError {
    /// The rendered form of the error.
    pub open spec fn spec_message(&self) -> Seq<char> {
        match self {
            FirewallError::CommandError(m) => "Command Error: "@ + m@,
            FirewallError::ParseError(m) => "Parse Error: "@ + m@,
            FirewallError::AdminRequired(m) => "Admin Required: "@ + m@,
        }
    }

    /// Renders the error as text.
    pub fn message(&self) -> (r: String)
        ensures
            r@ == self.spec_message(),
    {
        match self {
            FirewallError::CommandError(m) => {
                let mut s = String::from_str("Command Error: ");
                s.append(m.as_str());
                s
            },
            FirewallError::ParseError(m) => {
                let mut s = String::from_str("Parse Error: ");
                s.append(m.as_str());
                s
            },
            FirewallError::AdminRequired(m) => {
                let mut s = String::from_str("Admin Required: ");
                s.append(m.as_str());
                s
            },
        }
    }
}

/// Both lookup methods failed; the two messages say how each failed.
#[derive(Debug)]
pub struct ResolutionError {
    pub primary: String,
    pub fallback: String,
}

impl ResolutionError {
    /// The rendered form of the error, naming both failures.
    pub open spec fn spec_message(&self) -> Seq<char> {
        "Failed to resolve domain: "@ + self.primary@ + "; "@ + self.fallback@
    }

    /// Renders the error as text.
    pub fn message(&self) -> (r: String)
        ensures
            r@ == self.spec_message(),
    {
        let mut s = String::from_str("Failed to resolve domain: ");
        s.append(self.primary.as_str());
        s.append("; ");
        s.append(self.fallback.as_str());
        s
    }
}

} // verus!
