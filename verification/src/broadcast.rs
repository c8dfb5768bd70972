//! The set-broadcast protocol: `broadcast` appends a value to the
//! replicated log, `read` answers with everything held, and `topology`
//! replaces this node's neighbor set with the adjacency list the
//! harness supplies for it.

use crate::error::NodeError;
use crate::init_state::{Init, InitState, Initable};
use crate::log::Log;
use crate::message::{Body, Message};
use crate::sender::Sender;
use crate::store::Store;
use vstd::prelude::*;

verus! {

/// The closed payload set of the broadcast protocol.
pub enum BroadcastMessage {
    Broadcast { message: usize },
    BroadcastOk,
    Read,
    ReadOk { messages: Vec<usize> },
    Topology { topology: Vec<(String, Vec<String>)> },
    TopologyOk,
}

/// Per-node state of the broadcast service: the replicated log of every
/// value broadcast anywhere in the cluster.
pub struct BroadcastState {
    messages: Log<usize>,
}

impl Store<usize> for BroadcastState {
    closed spec fn log_spec(&self) -> Log<usize> {
        self.messages
    }

    fn get_log(&self) -> (l: &Log<usize>) {
        &self.messages
    }

    fn get_log_mut(&mut self) -> (l: &mut Log<usize>) {
        &mut self.messages
    }
}

impl Initable for BroadcastState {
    fn with_init(init: Init) -> Self {
        BroadcastState { messages: Log::with_init(init) }
    }
}

/// The neighbor list an adjacency list supplies for `node`: the first
/// entry keyed by it, if any.
pub open spec fn spec_topology_of(
    topology: Seq<(String, Vec<String>)>,
    node: Seq<char>,
) -> Option<Vec<String>>
    decreases topology.len(),
{
    if topology.len() == 0 {
        None
    } else if topology[0].0@ == node {
        Some(topology[0].1)
    } else {
        spec_topology_of(topology.drop_first(), node)
    }
}

/// Looks `node` up in an adjacency list.
fn topology_of<'a>(topology: &'a Vec<(String, Vec<String>)>, node: &String) -> (r: Option<
    &'a Vec<String>,
>)
    ensures
        r matches Some(l) ==> spec_topology_of(topology@, node@) == Some(*l),
        r is None ==> spec_topology_of(topology@, node@) is None,
{
    let n = topology.len();
    let mut i: usize = 0;
    proof {
        assert(topology@.skip(0) =~= topology@);
    }
    while i < n
        invariant
            n == topology@.len(),
            i <= n,
            spec_topology_of(topology@.skip(i as int), node@) == spec_topology_of(
                topology@,
                node@,
            ),
        decreases n - i,
    {
        proof {
            assert(topology@.skip(i as int)[0] == topology@[i as int]);
            assert(topology@.skip(i as int).drop_first() =~= topology@.skip(i + 1));
        }
        if topology[i].0.eq(node) {
            return Some(&topology[i].1);
        }
        i = i + 1;
    }
    proof {
        assert(topology@.skip(n as int) =~= Seq::<(String, Vec<String>)>::empty());
    }
    None
}

/// Reacts to one inbound broadcast-protocol message.
///
/// A `broadcast` request is acknowledged with `broadcast_ok` (when it
/// carries a `msg_id`) and its value is inserted into the log under a
/// fresh local key. A `read` request is answered with `read_ok`
/// carrying every value held. A `topology` request replaces this
/// node's neighbor set with the names its adjacency list supplies for
/// this node, acknowledged with `topology_ok`; an adjacency list that
/// omits this node is the fatal error `SelfNotInTopology`. The
/// reply-only variants are protocol violations: reported, nothing
/// changed.
pub fn handle_message(
    input: &Message<BroadcastMessage>,
    sender: &mut Sender,
    state: &mut InitState<BroadcastState>,
) -> (r: Result<Option<Message<BroadcastMessage>>, NodeError>)
    requires
        old(sender).spec_id() < usize::MAX,
        old(state).wf(),
        old(state).spec_state().log_spec().wf(),
        old(state).spec_state().log_spec().spec_counter() < usize::MAX,
    ensures
        final(state).wf(),
        final(state).spec_node_id() == old(state).spec_node_id(),
        final(state).spec_node_ids() == old(state).spec_node_ids(),
        final(state).spec_state().log_spec().wf(),
        final(state).spec_state().log_spec().spec_node() == old(
            state,
        ).spec_state().log_spec().spec_node(),
        !(input.body.msg_type is Topology) ==> final(state).spec_neighbors() == old(
            state,
        ).spec_neighbors(),
        !(input.body.msg_type is Broadcast) ==> final(state).spec_state() == old(
            state,
        ).spec_state(),
        input.body.msg_type matches BroadcastMessage::Broadcast { message } ==> ({
            let log0 = old(state).spec_state().log_spec();
            let log1 = final(state).spec_state().log_spec();
            &&& log1.spec_counter() == log0.spec_counter() + 1
            &&& (log0.fresh_local_keys() ==> log1.fresh_local_keys() && !log0@.contains_key(
                (log0.spec_node(), log0.spec_counter()),
            ) && log1@ == log0@.insert((log0.spec_node(), log0.spec_counter()), message))
            &&& (input.body.msg_id matches Some(mid) ==> (r matches Ok(o) && o matches Some(m)
                && m.src == input.dest && m.dest == input.src && m.body.in_reply_to == Some(mid)
                && m.body.msg_id == Some(old(sender).spec_id())
                && m.body.msg_type is BroadcastOk && final(sender).spec_id() == old(
                sender,
            ).spec_id() + 1))
            &&& (input.body.msg_id is None ==> (r matches Ok(o) && o is None
                && final(sender).spec_id() == old(sender).spec_id()))
        }),
        input.body.msg_type is Read ==> ({
            &&& (input.body.msg_id matches Some(mid) ==> (r matches Ok(o) && o matches Some(m)
                && m.src == input.dest && m.dest == input.src && m.body.in_reply_to == Some(mid)
                && m.body.msg_id == Some(old(sender).spec_id()) && (
            m.body.msg_type matches BroadcastMessage::ReadOk { messages } && messages@ == old(
                state,
            ).spec_state().log_spec().spec_values()) && final(sender).spec_id() == old(
                sender,
            ).spec_id() + 1))
            &&& (input.body.msg_id is None ==> (r matches Ok(o) && o is None
                && final(sender).spec_id() == old(sender).spec_id()))
        }),
        input.body.msg_type matches BroadcastMessage::Topology { topology } ==> ({
            let looked = spec_topology_of(topology@, old(state).spec_node_id());
            &&& (looked is None ==> (r matches Err(e) && e == NodeError::SelfNotInTopology
                && final(state).spec_neighbors() == old(state).spec_neighbors()
                && final(sender).spec_id() == old(sender).spec_id()))
            &&& (looked matches Some(list) ==> ((forall|s: Seq<char>| #[trigger]
                final(state).spec_neighbors().contains(s) == (old(
                    state,
                ).spec_neighbors().contains(s) || list.deep_view().contains(s))) && (
            input.body.msg_id matches Some(mid) ==> (r matches Ok(o) && o matches Some(m)
                && m.src == input.dest && m.dest == input.src && m.body.in_reply_to == Some(mid)
                && m.body.msg_id == Some(old(sender).spec_id())
                && m.body.msg_type is TopologyOk && final(sender).spec_id() == old(
                sender,
            ).spec_id() + 1)) && (input.body.msg_id is None ==> (r matches Ok(o) && o is None
                && final(sender).spec_id() == old(sender).spec_id()))))
        }),
        input.body.msg_type is BroadcastOk || input.body.msg_type is ReadOk
            || input.body.msg_type is TopologyOk ==> (r matches Err(e) && e
            == NodeError::UnexpectedReply && final(sender).spec_id() == old(sender).spec_id()),
{
    match &input.body.msg_type {
        BroadcastMessage::Broadcast { message } => {
            let reply = match input.body.msg_id {
                Some(mid) => {
                    let response = Message {
                        src: input.dest.clone(),
                        dest: input.src.clone(),
                        body: Body {
                            msg_id: None,
                            in_reply_to: Some(mid),
                            msg_type: BroadcastMessage::BroadcastOk,
                        },
                    };
                    Some(sender.send(response, true))
                },
                None => None,
            };
            let value = *message;
            let inner = state.get_inner_mut();
            let log = inner.get_log_mut();
            let _ = log.insert(&value);
            Ok(reply)
        },
        BroadcastMessage::Read => {
            match input.body.msg_id {
                Some(mid) => {
                    let messages = state.get_inner().get_log().values();
                    let response = Message {
                        src: input.dest.clone(),
                        dest: input.src.clone(),
                        body: Body {
                            msg_id: None,
                            in_reply_to: Some(mid),
                            msg_type: BroadcastMessage::ReadOk { messages },
                        },
                    };
                    Ok(Some(sender.send(response, true)))
                },
                None => Ok(None),
            }
        },
        BroadcastMessage::Topology { topology } => {
            let node = state.get_init().node_id.clone();
            let listed = match topology_of(topology, &node) {
                Some(listed) => listed,
                None => {
                    return Err(NodeError::SelfNotInTopology);
                },
            };
            let reply = match input.body.msg_id {
                Some(mid) => {
                    let response = Message {
                        src: input.dest.clone(),
                        dest: input.src.clone(),
                        body: Body {
                            msg_id: None,
                            in_reply_to: Some(mid),
                            msg_type: BroadcastMessage::TopologyOk,
                        },
                    };
                    Some(sender.send(response, true))
                },
                None => None,
            };
            let ghost names = listed.deep_view();
            let ghost pre = state.spec_neighbors();
            let n = listed.len();
            let mut i: usize = 0;
            while i < n
                invariant
                    n == listed@.len(),
                    names == listed.deep_view(),
                    pre == old(state).spec_neighbors(),
                    i <= n,
                    state.wf(),
                    state.spec_node_id() == old(state).spec_node_id(),
                    state.spec_node_ids() == old(state).spec_node_ids(),
                    state.spec_state() == old(state).spec_state(),
                    forall|s: Seq<char>| #[trigger]
                        state.spec_neighbors().contains(s) == (pre.contains(s) || names.take(
                            i as int,
                        ).contains(s)),
                decreases n - i,
            {
                let ghost mid_neighbors = state.spec_neighbors();
                state.update_neighbor(&listed[i]);
                proof {
                    let taken = names.take(i + 1);
                    assert(taken.drop_last() =~= names.take(i as int));
                    assert(taken.last() == names[i as int]);
                    assert(listed@[i as int]@ == names[i as int]);
                    assert forall|s: Seq<char>| #[trigger] state.spec_neighbors().contains(s)
                        == (pre.contains(s) || taken.contains(s)) by {
                        if state.spec_neighbors().contains(s) {
                            if mid_neighbors.contains(s) {
                                if !pre.contains(s) {
                                    let l = choose|l: int|
                                        0 <= l < names.take(i as int).len() && names.take(
                                            i as int,
                                        )[l] == s;
                                    assert(taken[l] == s);
                                }
                            } else {
                                assert(s == names[i as int]);
                                assert(taken[i as int] == s);
                            }
                        }
                        if pre.contains(s) || taken.contains(s) {
                            if taken.contains(s) && !pre.contains(s) {
                                let l = choose|l: int| 0 <= l < taken.len() && taken[l] == s;
                                if l < i {
                                    assert(names.take(i as int)[l] == s);
                                    assert(names.take(i as int).contains(s));
                                    assert(mid_neighbors.contains(s));
                                } else {
                                    assert(s == names[i as int]);
                                }
                            } else {
                                assert(mid_neighbors.contains(s));
                            }
                            if mid_neighbors.contains(s) {
                                let l = choose|l: int|
                                    0 <= l < mid_neighbors.len() && mid_neighbors[l] == s;
                                assert(state.spec_neighbors()[l] == s);
                            } else {
                                assert(s == names[i as int]);
                                assert(state.spec_neighbors() == mid_neighbors.push(s));
                                assert(state.spec_neighbors()[mid_neighbors.len() as int] == s);
                            }
                        }
                    }
                }
                i = i + 1;
            }
            proof {
                assert(names.take(n as int) =~= names);
            }
            Ok(reply)
        },
        BroadcastMessage::BroadcastOk => Err(NodeError::UnexpectedReply),
        BroadcastMessage::ReadOk { .. } => Err(NodeError::UnexpectedReply),
        BroadcastMessage::TopologyOk => Err(NodeError::UnexpectedReply),
    }
}

} // verus!
