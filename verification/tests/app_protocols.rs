use symmetrical_octo_potato::broadcast::{handle_message as handle_broadcast, BroadcastMessage, BroadcastState};
use symmetrical_octo_potato::echo::{handle_message as handle_echo, EchoMessage};
use symmetrical_octo_potato::error::NodeError;
use symmetrical_octo_potato::grow_only_counter::{handle_message as handle_counter, GrowOnlyMessage, GrowOnlyState};
use symmetrical_octo_potato::init_state::{Init, InitState};
use symmetrical_octo_potato::message::{Body, Message};
use symmetrical_octo_potato::sender::Sender;
use symmetrical_octo_potato::unique_ids::{handle_message as handle_unique, UniqueIdMessage};

fn envelope<T>(msg_id: Option<usize>, payload: T) -> Message<T> {
    Message {
        src: "c1".to_string(),
        dest: "n1".to_string(),
        body: Body { msg_id, in_reply_to: None, msg_type: payload },
    }
}

fn node_state<S: symmetrical_octo_potato::init_state::Initable>() -> InitState<S> {
    InitState::from_init(Init {
        node_id: "n1".to_string(),
        node_ids: vec!["n1".to_string(), "n2".to_string()],
    })
}

#[test]
fn echo_replies_with_same_text() {
    let mut sender = Sender::new();
    let input = envelope(Some(3), EchoMessage::Echo { echo: "hello".to_string() });
    let reply = handle_echo(&input, &mut sender).unwrap().unwrap();
    assert_eq!(reply.body.in_reply_to, Some(3));
    assert_eq!(reply.body.msg_id, Some(0));
    assert_eq!(reply.src, "n1");
    assert_eq!(reply.dest, "c1");
    match reply.body.msg_type {
        EchoMessage::EchoOk { echo } => assert_eq!(echo, "hello"),
        EchoMessage::Echo { .. } => panic!("expected an echo_ok"),
    }
}

#[test]
fn echo_rejects_reply_only_variant() {
    let mut sender = Sender::new();
    let input = envelope(Some(3), EchoMessage::EchoOk { echo: "hello".to_string() });
    let result = handle_echo(&input, &mut sender);
    assert!(matches!(result, Err(NodeError::UnexpectedReply)));
    assert_eq!(sender.get_id(), 0);
}

#[test]
fn counter_sums_added_deltas() {
    // Add{delta:3} then Add{delta:4}, then Read{} answers {value: 7}
    let mut sender = Sender::new();
    let mut state = node_state::<GrowOnlyState>();
    let add3 = envelope(Some(1), GrowOnlyMessage::Add { delta: 3 });
    let reply = handle_counter(&add3, &mut sender, &mut state).unwrap().unwrap();
    assert!(matches!(reply.body.msg_type, GrowOnlyMessage::AddOk));
    assert_eq!(reply.body.in_reply_to, Some(1));
    let add4 = envelope(Some(2), GrowOnlyMessage::Add { delta: 4 });
    let reply = handle_counter(&add4, &mut sender, &mut state).unwrap().unwrap();
    assert!(matches!(reply.body.msg_type, GrowOnlyMessage::AddOk));
    let read = envelope(Some(3), GrowOnlyMessage::Read { key: None });
    let reply = handle_counter(&read, &mut sender, &mut state).unwrap().unwrap();
    assert_eq!(reply.body.in_reply_to, Some(3));
    match reply.body.msg_type {
        GrowOnlyMessage::ReadOk { value } => assert_eq!(value, 7),
        _ => panic!("expected a read_ok"),
    }
}

#[test]
fn counter_rejects_keyed_reads_and_replies() {
    let mut sender = Sender::new();
    let mut state = node_state::<GrowOnlyState>();
    let keyed = envelope(Some(1), GrowOnlyMessage::Read { key: Some("k".to_string()) });
    assert!(matches!(
        handle_counter(&keyed, &mut sender, &mut state),
        Err(NodeError::UnexpectedReply)
    ));
    let stray = envelope(Some(2), GrowOnlyMessage::AddOk);
    assert!(matches!(
        handle_counter(&stray, &mut sender, &mut state),
        Err(NodeError::UnexpectedReply)
    ));
    let stray = envelope(Some(3), GrowOnlyMessage::ReadOk { value: 9 });
    assert!(matches!(
        handle_counter(&stray, &mut sender, &mut state),
        Err(NodeError::UnexpectedReply)
    ));
    assert_eq!(sender.get_id(), 0);
}

#[test]
fn unique_ids_are_26_characters_and_distinct() {
    let mut sender = Sender::new();
    let first = handle_unique(&envelope(Some(1), UniqueIdMessage::Generate), &mut sender)
        .unwrap()
        .unwrap();
    let second = handle_unique(&envelope(Some(2), UniqueIdMessage::Generate), &mut sender)
        .unwrap()
        .unwrap();
    let (a, b) = match (first.body.msg_type, second.body.msg_type) {
        (UniqueIdMessage::GenerateOk { guid: a }, UniqueIdMessage::GenerateOk { guid: b }) => (a, b),
        _ => panic!("expected two generate_ok replies"),
    };
    assert_eq!(a.chars().count(), 26);
    assert_eq!(b.chars().count(), 26);
    assert_ne!(a, b);
}

#[test]
fn unique_ids_rejects_reply_only_variant() {
    let mut sender = Sender::new();
    let stray = envelope(Some(1), UniqueIdMessage::GenerateOk { guid: "x".to_string() });
    assert!(matches!(handle_unique(&stray, &mut sender), Err(NodeError::UnexpectedReply)));
}

#[test]
fn broadcast_stores_and_reads_back() {
    let mut sender = Sender::new();
    let mut state = node_state::<BroadcastState>();
    let b5 = envelope(Some(1), BroadcastMessage::Broadcast { message: 5 });
    let reply = handle_broadcast(&b5, &mut sender, &mut state).unwrap().unwrap();
    assert!(matches!(reply.body.msg_type, BroadcastMessage::BroadcastOk));
    let b9 = envelope(Some(2), BroadcastMessage::Broadcast { message: 9 });
    handle_broadcast(&b9, &mut sender, &mut state).unwrap();
    let read = envelope(Some(3), BroadcastMessage::Read);
    let reply = handle_broadcast(&read, &mut sender, &mut state).unwrap().unwrap();
    match reply.body.msg_type {
        BroadcastMessage::ReadOk { messages } => assert_eq!(messages, vec![5, 9]),
        _ => panic!("expected a read_ok"),
    }
}

#[test]
fn topology_replaces_neighbors() {
    let mut sender = Sender::new();
    let mut state = node_state::<BroadcastState>();
    let topology = vec![
        ("n1".to_string(), vec!["n3".to_string(), "n4".to_string()]),
        ("n2".to_string(), vec!["n1".to_string()]),
    ];
    let input = envelope(Some(1), BroadcastMessage::Topology { topology });
    let reply = handle_broadcast(&input, &mut sender, &mut state).unwrap().unwrap();
    assert!(matches!(reply.body.msg_type, BroadcastMessage::TopologyOk));
    let neighbors = state.get_neighbors();
    assert!(neighbors.contains(&"n3".to_string()));
    assert!(neighbors.contains(&"n4".to_string()));
}

#[test]
fn topology_without_this_node_is_fatal() {
    let mut sender = Sender::new();
    let mut state = node_state::<BroadcastState>();
    let topology = vec![("n2".to_string(), vec!["n1".to_string()])];
    let input = envelope(Some(1), BroadcastMessage::Topology { topology });
    let result = handle_broadcast(&input, &mut sender, &mut state);
    assert!(matches!(result, Err(NodeError::SelfNotInTopology)));
}

#[test]
fn requests_without_msg_id_are_dropped_silently() {
    let mut sender = Sender::new();
    let mut state = node_state::<GrowOnlyState>();
    let add = envelope(None, GrowOnlyMessage::Add { delta: 3 });
    let reply = handle_counter(&add, &mut sender, &mut state).unwrap();
    assert!(reply.is_none());
    // the delta was still accepted, and no id was issued
    assert_eq!(sender.get_id(), 0);
    let read = envelope(Some(1), GrowOnlyMessage::Read { key: None });
    let reply = handle_counter(&read, &mut sender, &mut state).unwrap().unwrap();
    match reply.body.msg_type {
        GrowOnlyMessage::ReadOk { value } => assert_eq!(value, 3),
        _ => panic!("expected a read_ok"),
    }
}

#[test]
fn every_error_describes_itself() {
    for error in [
        NodeError::NoMsgId,
        NodeError::NotInit,
        NodeError::UnexpectedReply,
        NodeError::SelfNotInTopology,
    ] {
        assert!(!error.describe().is_empty());
    }
}

#[test]
fn broadcast_rejects_reply_only_variants() {
    let mut sender = Sender::new();
    let mut state = node_state::<BroadcastState>();
    for stray in [
        BroadcastMessage::BroadcastOk,
        BroadcastMessage::ReadOk { messages: vec![] },
        BroadcastMessage::TopologyOk,
    ] {
        let input = envelope(Some(1), stray);
        assert!(matches!(
            handle_broadcast(&input, &mut sender, &mut state),
            Err(NodeError::UnexpectedReply)
        ));
    }
}
