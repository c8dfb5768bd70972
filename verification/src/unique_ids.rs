//! The unique-id generation protocol: each `generate` request is
//! answered with a globally unique identifier, drawn from time and
//! randomness rather than from any cross-node coordination.

use crate::error::NodeError;
use crate::init_state::{Init, Initable};
use crate::message::{Body, Message};
use crate::sender::Sender;
use vstd::prelude::*;

verus! {

/// The closed payload set of the unique-id protocol. On the wire the
/// identifier field of `GenerateOk` is named `id`.
pub enum UniqueIdMessage {
    Generate,
    GenerateOk { guid: String },
}

/// The generator keeps no state.
pub struct UniqueIdsState {}

impl Initable for UniqueIdsState {
    fn with_init(_init: Init) -> Self {
        UniqueIdsState {  }
    }
}

/// Relies on ulid::Ulid::generate and Ulid::to_string: a fresh
/// identifier, encoded as exactly 26 Crockford base32 characters. The
/// value depends on the clock and on randomness, so nothing more is
/// assumed of it.
#[verifier::external_body]
fn generate_ulid_string() -> (r: String)
    ensures
        r@.len() == 26,
{
    ulid::Ulid::generate().to_string()
}

/// Reacts to one inbound unique-id message. A `generate` request with a
/// `msg_id` yields the correlated `generate_ok` reply carrying a fresh
/// 26-character identifier; one without a `msg_id` cannot be answered
/// and is dropped. Receiving the reply-only `generate_ok` is a protocol
/// violation.
pub fn handle_message(input: &Message<UniqueIdMessage>, sender: &mut Sender) -> (r: Result<
    Option<Message<UniqueIdMessage>>,
    NodeError,
>)
    requires
        old(sender).spec_id() < usize::MAX,
    ensures
        input.body.msg_type is GenerateOk ==> (r matches Err(e) && e
            == NodeError::UnexpectedReply && final(sender).spec_id() == old(sender).spec_id()),
        input.body.msg_type is Generate && input.body.msg_id is None ==> (r matches Ok(o)
            && o is None && final(sender).spec_id() == old(sender).spec_id()),
        input.body.msg_type is Generate ==> (input.body.msg_id matches Some(mid) ==> (
        r matches Ok(o) && o matches Some(m) && m.src == input.dest && m.dest == input.src
            && m.body.in_reply_to == Some(mid) && m.body.msg_id == Some(old(sender).spec_id())
            && (m.body.msg_type matches UniqueIdMessage::GenerateOk { guid } && guid@.len()
            == 26) && final(sender).spec_id() == old(sender).spec_id() + 1)),
{
    match &input.body.msg_type {
        UniqueIdMessage::Generate => {
            match input.body.msg_id {
                Some(mid) => {
                    let guid = generate_ulid_string();
                    let response = Message {
                        src: input.dest.clone(),
                        dest: input.src.clone(),
                        body: Body {
                            msg_id: None,
                            in_reply_to: Some(mid),
                            msg_type: UniqueIdMessage::GenerateOk { guid },
                        },
                    };
                    Ok(Some(sender.send(response, true)))
                },
                None => Ok(None),
            }
        },
        UniqueIdMessage::GenerateOk { .. } => Err(NodeError::UnexpectedReply),
    }
}

} // verus!
