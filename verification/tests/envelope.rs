use symmetrical_octo_potato::error::NodeError;
use symmetrical_octo_potato::message::{Body, Message};
use symmetrical_octo_potato::sender::Sender;

fn request(msg_id: Option<usize>, text: &str) -> Message<String> {
    Message {
        src: "c1".to_string(),
        dest: "n1".to_string(),
        body: Body { msg_id, in_reply_to: None, msg_type: text.to_string() },
    }
}

#[test]
fn send_assigns_monotonic_ids() {
    let mut sender = Sender::new();
    assert_eq!(sender.get_id(), 0);
    let first = sender.send(request(None, "a"), true);
    let second = sender.send(request(None, "b"), true);
    assert_eq!(first.body.msg_id, Some(0));
    assert_eq!(second.body.msg_id, Some(1));
    assert_eq!(sender.get_id(), 2);
}

#[test]
fn send_without_id_still_advances_counter() {
    let mut sender = Sender::new();
    let out = sender.send(request(Some(9), "a"), false);
    assert_eq!(out.body.msg_id, Some(9));
    assert_eq!(sender.get_id(), 1);
}

#[test]
fn reply_correlates_and_assigns_fresh_id() {
    // a request with msg_id 7 gets a response with in_reply_to 7 and a
    // freshly assigned id distinct from 7
    let mut sender = Sender::new();
    let response = sender.reply(request(Some(7), "ping"), "pong".to_string()).unwrap();
    assert_eq!(response.body.in_reply_to, Some(7));
    assert_eq!(response.body.msg_id, Some(0));
    assert_ne!(response.body.msg_id, Some(7));
    assert_eq!(response.src, "n1");
    assert_eq!(response.dest, "c1");
    assert_eq!(response.body.msg_type, "pong".to_string());
    assert_eq!(sender.get_id(), 1);
}

#[test]
fn reply_without_msg_id_fails_but_still_consumes_an_id() {
    let mut sender = Sender::new();
    let result = sender.reply(request(None, "ping"), "pong".to_string());
    assert!(matches!(result, Err(NodeError::NoMsgId)));
    // the counter advances on every call, success or not
    assert_eq!(sender.get_id(), 1);
}

#[test]
fn default_sender_starts_at_zero() {
    let sender = Sender::default();
    assert_eq!(sender.get_id(), 0);
}
