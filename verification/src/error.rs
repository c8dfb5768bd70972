//! The library's error taxonomy.
//!
//! Recoverable per-message errors are contained at the handler boundary:
//! the message is dropped and the node keeps running. Only the startup
//! errors (`NotInit`, `SelfNotInTopology`) are fatal to the process.

use vstd::prelude::*;

verus! {

/// Everything a handler of this library can fail with.
#[derive(Clone, Copy, Debug, PartialEq, Eq, Structural)]
pub enum NodeError {
    /// A reply was requested to a message that carries no `msg_id`,
    /// so there is nothing to correlate the reply to.
    NoMsgId,
    /// The first inbound message was not an `init` request; the node
    /// cannot establish its identity. Fatal at startup.
    NotInit,
    /// A reply-only payload variant arrived where a request was expected.
    /// The message is dropped after reporting.
    UnexpectedReply,
    /// A topology update did not list this node; a node must be able to
    /// locate itself in its own topology. Fatal.
    SelfNotInTopology,
}

impl NodeError {
    /// A short human-readable description, for the process's diagnostics.
    pub fn describe(&self) -> &'static str {
        match self {
            NodeError::NoMsgId => "request carries no msg_id to reply to",
            NodeError::NotInit => "first message was not an init request",
            NodeError::UnexpectedReply => "reply-only message where a request was expected",
            NodeError::SelfNotInTopology => "this node is absent from the supplied topology",
        }
    }
}

} // verus!
