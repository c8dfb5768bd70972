use symmetrical_octo_potato::error::NodeError;
use symmetrical_octo_potato::init_state::{handle_init, Init, InitMessage, InitState};
use symmetrical_octo_potato::message::{Body, Message};
use symmetrical_octo_potato::sender::Sender;
use symmetrical_octo_potato::unique_ids::UniqueIdsState;

fn init_request(msg_id: Option<usize>) -> Message<InitMessage> {
    Message {
        src: "c0".to_string(),
        dest: "n1".to_string(),
        body: Body {
            msg_id,
            in_reply_to: None,
            msg_type: InitMessage::Init(Init {
                node_id: "n1".to_string(),
                node_ids: vec!["n1".to_string(), "n2".to_string()],
            }),
        },
    }
}

#[test]
fn handshake_yields_exactly_one_init_ok() {
    // the first message {type:"init", node_id:"n1", node_ids:["n1","n2"]}
    // yields one init_ok reply correlated to it and nothing else
    let mut sender = Sender::new();
    let (state, reply) = handle_init::<UniqueIdsState>(init_request(Some(1)), &mut sender).unwrap();
    assert!(matches!(reply.body.msg_type, InitMessage::InitOk));
    assert_eq!(reply.body.in_reply_to, Some(1));
    assert_eq!(reply.body.msg_id, Some(0));
    assert_eq!(reply.src, "n1");
    assert_eq!(reply.dest, "c0");
    // exactly one id was issued: the reply's
    assert_eq!(sender.get_id(), 1);
    assert_eq!(state.get_init().node_id, "n1");
    let neighbors = state.get_neighbors();
    assert_eq!(neighbors.len(), 2);
    assert!(neighbors.contains(&"n1".to_string()));
    assert!(neighbors.contains(&"n2".to_string()));
}

#[test]
fn non_init_first_message_is_fatal() {
    let mut sender = Sender::new();
    let not_init = Message {
        src: "c0".to_string(),
        dest: "n1".to_string(),
        body: Body { msg_id: Some(1), in_reply_to: None, msg_type: InitMessage::InitOk },
    };
    let result = handle_init::<UniqueIdsState>(not_init, &mut sender);
    assert!(matches!(result, Err(NodeError::NotInit)));
    assert_eq!(sender.get_id(), 0);
}

#[test]
fn init_without_msg_id_cannot_be_acknowledged() {
    let mut sender = Sender::new();
    let result = handle_init::<UniqueIdsState>(init_request(None), &mut sender);
    assert!(matches!(result, Err(NodeError::NoMsgId)));
    // the failed reply still consumed an id
    assert_eq!(sender.get_id(), 1);
}

#[test]
fn duplicate_node_ids_are_deduplicated() {
    let init = Init {
        node_id: "n1".to_string(),
        node_ids: vec!["n1".to_string(), "n2".to_string(), "n2".to_string()],
    };
    let state = InitState::<UniqueIdsState>::from_init(init);
    assert_eq!(state.get_neighbors().len(), 2);
}

#[test]
fn update_neighbor_adds_once() {
    let init = Init { node_id: "n1".to_string(), node_ids: vec!["n1".to_string()] };
    let mut state = InitState::<UniqueIdsState>::from_init(init);
    state.update_neighbor(&"n5".to_string());
    state.update_neighbor(&"n5".to_string());
    let neighbors = state.get_neighbors();
    assert_eq!(neighbors.len(), 2);
    assert!(neighbors.contains(&"n5".to_string()));
}
