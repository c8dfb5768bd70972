//! The output channel's bookkeeping: assigning monotonically increasing
//! local message ids and building correctly correlated replies.
//!
//! The `Sender` owns the id counter alone; actually serializing a prepared
//! envelope onto a transport is the embedding program's job. `send` stamps
//! an id and advances the counter, so an id, once issued, is never reused,
//! even if the write that follows fails.

use crate::error::NodeError;
use crate::message::{Body, Message};
use vstd::prelude::*;

verus! {

/// The single-writer output side of a node: a monotonic id counter.
pub struct Sender {
    id: usize,
}

impl Sender {
    /// The next id this sender will assign.
    pub closed spec fn spec_id(&self) -> usize {
        self.id
    }

    /// A sender that has issued no ids yet.
    pub fn new() -> (s: Sender)
        ensures
            s.spec_id() == 0,
    {
        Sender { id: 0 }
    }

    /// The next id this sender will assign.
    pub fn get_id(&self) -> (r: usize)
        ensures
            r == self.spec_id(),
    {
        self.id
    }

    /// Prepares `message` for the wire: optionally stamps `body.msg_id`
    /// with the next local id, and advances the counter exactly once
    /// whether or not an id was requested.
    pub fn send<T>(&mut self, message: Message<T>, include_id: bool) -> (m: Message<T>)
        requires
            old(self).spec_id() < usize::MAX,
        ensures
            final(self).spec_id() == old(self).spec_id() + 1,
            m.src == message.src,
            m.dest == message.dest,
            m.body.in_reply_to == message.body.in_reply_to,
            m.body.msg_type == message.body.msg_type,
            m.body.msg_id == (if include_id {
                Some(old(self).spec_id())
            } else {
                message.body.msg_id
            }),
    {
        let mut message = message;
        if include_id {
            message.body.msg_id = Some(self.id);
        }
        self.id = self.id + 1;
        message
    }

    /// Builds the response to `request`: `src` and `dest` swapped,
    /// `in_reply_to` set to the request's `msg_id`, and a fresh local id
    /// assigned. Fails when the request carries no `msg_id`: there is
    /// nothing to correlate a reply to. Every call advances the counter
    /// exactly once, success or not, so an id, once considered, is never
    /// reused.
    pub fn reply<T>(&mut self, request: Message<T>, msg_type: T) -> (r: Result<
        Message<T>,
        NodeError,
    >)
        requires
            old(self).spec_id() < usize::MAX,
        ensures
            final(self).spec_id() == old(self).spec_id() + 1,
            request.body.msg_id is None ==> (r matches Err(e) && e == NodeError::NoMsgId),
            request.body.msg_id matches Some(mid) ==> (r matches Ok(m) && m.src == request.dest
                && m.dest == request.src && m.body.in_reply_to == Some(mid) && m.body.msg_id
                == Some(old(self).spec_id()) && m.body.msg_type == msg_type),
    {
        let in_reply_to = match request.body.msg_id {
            Some(mid) => mid,
            None => {
                self.id = self.id + 1;
                return Err(NodeError::NoMsgId);
            },
        };
        let response = Message {
            src: request.dest,
            dest: request.src,
            body: Body { msg_id: None, in_reply_to: Some(in_reply_to), msg_type },
        };
        Ok(self.send(response, true))
    }
}

impl Default for Sender {
    /// A sender that has issued no ids yet.
    fn default() -> (s: Sender)
        ensures
            s.spec_id() == 0,
    {
        Sender::new()
    }
}

} // verus!
