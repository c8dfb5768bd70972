use symmetrical_octo_potato::broadcast::BroadcastState;
use symmetrical_octo_potato::gossip::{gossip, handle_msg, GossipMessage, GossipState};
use symmetrical_octo_potato::init_state::{Init, InitState};
use symmetrical_octo_potato::log::LogKey;
use symmetrical_octo_potato::message::Message;
use symmetrical_octo_potato::sender::Sender;
use symmetrical_octo_potato::store::Store;

type Node = (InitState<BroadcastState>, GossipState, Sender);

fn make_node(name: &str, all: &[&str]) -> Node {
    let init = Init {
        node_id: name.to_string(),
        node_ids: all.iter().map(|s| s.to_string()).collect(),
    };
    let state = InitState::<BroadcastState>::from_init(init);
    let known = GossipState::from_state(&state);
    (state, known, Sender::new())
}

fn key(node: &str, counter: usize) -> LogKey {
    LogKey { node: node.to_string(), counter }
}

fn holds(node: &Node, k: &LogKey) -> bool {
    node.0.get_inner().get_log().contains_key(k)
}

#[test]
fn tick_pushes_only_to_others() {
    let mut n1 = make_node("n1", &["n1", "n2"]);
    n1.0.get_inner_mut().get_log_mut().insert(&41);
    let msgs = gossip(&mut n1.2, &n1.0, &mut n1.1);
    // one neighbor other than itself, one message
    assert_eq!(msgs.len(), 1);
    assert_eq!(msgs[0].dest, "n2");
    assert_eq!(msgs[0].src, "n1");
    assert_eq!(msgs[0].body.msg_id, Some(0));
    assert_eq!(msgs[0].body.in_reply_to, None);
    match &msgs[0].body.msg_type {
        GossipMessage::Gossip { seen } => {
            assert_eq!(seen.len(), 1);
            assert_eq!(seen[0].1, 41);
        },
        GossipMessage::GossipOk { .. } => panic!("a tick never sends an acknowledgment"),
    }
}

#[test]
fn covered_neighbor_gets_no_gossip() {
    // once n2 is known to have seen everything held, the next tick
    // sends it nothing
    let mut n1 = make_node("n1", &["n1", "n2"]);
    n1.0.get_inner_mut().get_log_mut().insert(&41);
    n1.1.record_seen(&"n2".to_string(), &vec![(key("n1", 0), 41)]);
    let msgs = gossip::<usize, BroadcastState>(&mut n1.2, &n1.0, &mut n1.1);
    assert_eq!(msgs.len(), 0);
}

#[test]
fn empty_log_gossips_nothing() {
    let mut n1 = make_node("n1", &["n1", "n2", "n3"]);
    let msgs = gossip::<usize, BroadcastState>(&mut n1.2, &n1.0, &mut n1.1);
    assert_eq!(msgs.len(), 0);
}

#[test]
fn inbound_gossip_merges_and_acknowledges() {
    let mut n1 = make_node("n1", &["n1", "n2"]);
    n1.0.get_inner_mut().get_log_mut().insert(&10);
    let inbound = Message {
        src: "n2".to_string(),
        dest: "n1".to_string(),
        body: symmetrical_octo_potato::message::Body {
            msg_id: Some(5),
            in_reply_to: None,
            msg_type: GossipMessage::Gossip { seen: vec![(key("n2", 0), 20)] },
        },
    };
    let reply = handle_msg(&inbound, &mut n1.2, &mut n1.0, &mut n1.1).unwrap();
    // the remote entry was merged
    assert!(holds(&n1, &key("n2", 0)));
    assert_eq!(n1.0.get_inner().get_log().get(&key("n2", 0)), Some(&20));
    // the acknowledgment correlates and piggybacks the local delta
    assert_eq!(reply.src, "n1");
    assert_eq!(reply.dest, "n2");
    assert_eq!(reply.body.in_reply_to, Some(5));
    match &reply.body.msg_type {
        GossipMessage::GossipOk { seen } => {
            assert_eq!(seen.len(), 2);
            assert_eq!(seen[0].1, 10);
            assert_eq!(seen[1].1, 20);
        },
        GossipMessage::Gossip { .. } => panic!("a reply is always an acknowledgment"),
    }
}

#[test]
fn inbound_gossip_ok_merges_silently() {
    let mut n1 = make_node("n1", &["n1", "n2"]);
    let inbound = Message {
        src: "n2".to_string(),
        dest: "n1".to_string(),
        body: symmetrical_octo_potato::message::Body {
            msg_id: Some(5),
            in_reply_to: None,
            msg_type: GossipMessage::GossipOk { seen: vec![(key("n2", 0), 20)] },
        },
    };
    let reply = handle_msg(&inbound, &mut n1.2, &mut n1.0, &mut n1.1);
    assert!(reply.is_none());
    assert!(holds(&n1, &key("n2", 0)));
}

fn deliver(nodes: &mut [Node], names: &[&str], msg: &Message<GossipMessage<usize>>) -> Option<Message<GossipMessage<usize>>> {
    let at = names.iter().position(|n| *n == msg.dest)?;
    let node = &mut nodes[at];
    handle_msg(msg, &mut node.2, &mut node.0, &mut node.1)
}

fn run_rounds(nodes: &mut [Node], names: &[&str], drop_to: Option<&str>, rounds: usize) {
    for _ in 0..rounds {
        let mut in_flight = Vec::new();
        for node in nodes.iter_mut() {
            in_flight.extend(gossip(&mut node.2, &node.0, &mut node.1));
        }
        // deliver pushes, then their acknowledgments
        let mut replies = Vec::new();
        for msg in &in_flight {
            if Some(msg.dest.as_str()) == drop_to {
                continue; // this peer is unreachable
            }
            if let Some(reply) = deliver(nodes, names, msg) {
                replies.push(reply);
            }
        }
        for msg in &replies {
            if Some(msg.dest.as_str()) == drop_to {
                continue;
            }
            let _ = deliver(nodes, names, msg);
        }
    }
}

#[test]
fn connected_topology_converges() {
    // a line n1 - n2 - n3: after enough ticks every log holds the union
    let names = ["n1", "n2", "n3"];
    let mut nodes = vec![
        make_node("n1", &["n1", "n2"]),
        make_node("n2", &["n1", "n2", "n3"]),
        make_node("n3", &["n2", "n3"]),
    ];
    nodes[0].0.get_inner_mut().get_log_mut().insert(&100);
    nodes[1].0.get_inner_mut().get_log_mut().insert(&200);
    nodes[2].0.get_inner_mut().get_log_mut().insert(&300);
    run_rounds(&mut nodes, &names, None, 4);
    for node in &nodes {
        for (owner, counter) in [("n1", 0), ("n2", 0), ("n3", 0)] {
            assert!(holds(node, &key(owner, counter)));
        }
        assert_eq!(node.0.get_inner().get_log().values().len(), 3);
    }
}

#[test]
fn unreachable_peer_does_not_block_the_rest() {
    // every send to n2 fails; n1 and n3 still converge with each other
    let names = ["n1", "n2", "n3"];
    let mut nodes = vec![
        make_node("n1", &["n1", "n2", "n3"]),
        make_node("n2", &["n1", "n2", "n3"]),
        make_node("n3", &["n1", "n2", "n3"]),
    ];
    nodes[0].0.get_inner_mut().get_log_mut().insert(&100);
    nodes[2].0.get_inner_mut().get_log_mut().insert(&300);
    run_rounds(&mut nodes, &names, Some("n2"), 4);
    assert!(holds(&nodes[0], &key("n3", 0)));
    assert!(holds(&nodes[2], &key("n1", 0)));
    // and each tick kept preparing a push for the unreachable peer too
    let first = &mut nodes[0];
    let msgs = gossip(&mut first.2, &first.0, &mut first.1);
    assert!(msgs.iter().any(|m| m.dest == "n2"));
}
