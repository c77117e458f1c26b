//! The errors that the dissector reports while it follows a conversation.
use vstd::prelude::*;
use vstd::string::StringExecFns;

verus! {

/// The conversation does not follow the protocol: its packets came in an
/// order that a Tezos peer-to-peer stream never takes.
#[derive(Clone, Copy, Debug, PartialEq, Eq, Structural)]
pub struct NotT3z0sStreamError;

impl NotT3z0sStreamError {
    /// The message shown for this error.
    pub fn message(&self) -> (s: String)
        ensures
            s@ == "not a t3z0s stream"@,
    {
        String::from_str("not a t3z0s stream")
    }
}

/// No node identity is configured, so the conversation cannot be decrypted.
#[derive(Clone, Copy, Debug, PartialEq, Eq, Structural)]
pub struct T3z0sNodeIdentityNotLoadedError;

impl T3z0sNodeIdentityNotLoadedError {
    /// The message shown for this error.
    pub fn message(&self) -> (s: String)
        ensures
            s@ == "t3z0s node identity not loaded"@,
    {
        String::from_str("t3z0s node identity not loaded")
    }
}

} // verus!
