//! The echo responder: the simplest protocol hosted on the core, useful
//! as a liveness check. An `echo` request is answered by `echo_ok`
//! carrying the same text back.

use crate::error::NodeError;
use crate::init_state::{Init, Initable};
use crate::message::{Body, Message};
use crate::sender::Sender;
use vstd::prelude::*;

verus! {

/// The closed payload set of the echo protocol.
pub enum EchoMessage {
    Echo { echo: String },
    EchoOk { echo: String },
}

/// The echo responder keeps no state.
pub struct EchoState {}

impl Initable for EchoState {
    fn with_init(_init: Init) -> Self {
        EchoState {  }
    }
}

/// Reacts to one inbound echo-protocol message. An `echo` request with a
/// `msg_id` yields the correlated `echo_ok` reply carrying the same
/// text; one without a `msg_id` cannot be answered and is dropped.
/// Receiving the reply-only `echo_ok` is a protocol violation.
pub fn handle_message(input: &Message<EchoMessage>, sender: &mut Sender) -> (r: Result<
    Option<Message<EchoMessage>>,
    NodeError,
>)
    requires
        old(sender).spec_id() < usize::MAX,
    ensures
        input.body.msg_type is EchoOk ==> (r matches Err(e) && e == NodeError::UnexpectedReply
            && final(sender).spec_id() == old(sender).spec_id()),
        input.body.msg_type is Echo && input.body.msg_id is None ==> (r matches Ok(o)
            && o is None && final(sender).spec_id() == old(sender).spec_id()),
        input.body.msg_type matches EchoMessage::Echo { echo } ==> (
        input.body.msg_id matches Some(mid) ==> (r matches Ok(o) && o matches Some(m) && m.src
            == input.dest && m.dest == input.src && m.body.in_reply_to == Some(mid)
            && m.body.msg_id == Some(old(sender).spec_id()) && (
        m.body.msg_type matches EchoMessage::EchoOk { echo: text } && text@ == echo@)
            && final(sender).spec_id() == old(sender).spec_id() + 1)),
{
    match &input.body.msg_type {
        EchoMessage::Echo { echo } => {
            match input.body.msg_id {
                Some(mid) => {
                    let response = Message {
                        src: input.dest.clone(),
                        dest: input.src.clone(),
                        body: Body {
                            msg_id: None,
                            in_reply_to: Some(mid),
                            msg_type: EchoMessage::EchoOk { echo: echo.clone() },
                        },
                    };
                    Ok(Some(sender.send(response, true)))
                },
                None => Ok(None),
            }
        },
        EchoMessage::EchoOk { .. } => Err(NodeError::UnexpectedReply),
    }
}

} // verus!
