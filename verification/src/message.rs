//! The request/reply envelope that wraps every payload on the wire.
//!
//! A `Message` carries a source and destination node name and a `Body`;
//! the body pairs an optional correlation id (`msg_id` / `in_reply_to`)
//! with the protocol-specific payload.

use vstd::prelude::*;

verus! {

/// The body of an envelope: correlation ids plus the tagged payload.
pub struct Body<Type> {
    pub msg_id: Option<usize>,
    pub in_reply_to: Option<usize>,
    pub msg_type: Type,
}

/// One envelope of the wire protocol: `{src, dest, body}`.
pub struct Message<Type> {
    pub src: String,
    pub dest: String,
    pub body: Body<Type>,
}

} // verus!
