//! Node identity and topology: the `init` handshake payload, the state it
//! seeds, and the mutable neighbor set the gossip engine reads.
//!
//! A node starts uninitialized; the first well-formed inbound message must
//! be an `init` request. Handling it constructs the application state,
//! seeds the neighbor set from the full node list, and produces the
//! `init_ok` reply. Any other first message is a fatal startup error.

use crate::error::NodeError;
use crate::message::Message;
use crate::sender::Sender;
use vstd::prelude::*;

verus! {

/// The payload of the mandatory first message: this node's name and the
/// full initial node set of the cluster.
pub struct Init {
    pub node_id: String,
    pub node_ids: Vec<String>,
}

impl Clone for Init {
    fn clone(&self) -> (r: Init)
        ensures
            r.node_id@ == self.node_id@,
            r.node_ids.deep_view() == self.node_ids.deep_view(),
    {
        Init { node_id: self.node_id.clone(), node_ids: self.node_ids.clone() }
    }
}

/// Application state that can be constructed from an `Init` payload.
/// Every per-node state type the library hosts implements this, so the
/// generic machinery can build it at handshake time.
pub trait Initable: Sized {
    fn with_init(init: Init) -> Self;
}

/// Whether some element of `v` reads `name`.
pub fn contains_name(v: &Vec<String>, name: &String) -> (r: bool)
    ensures
        r == v.deep_view().contains(name@),
{
    let n = v.len();
    let mut i: usize = 0;
    while i < n
        invariant
            n == v.len(),
            i <= n,
            forall|j: int| 0 <= j < i ==> v.deep_view()[j] != name@,
        decreases n - i,
    {
        if v[i].eq(name) {
            assert(v.deep_view()[i as int] == name@);
            return true;
        }
        i = i + 1;
    }
    assert(!v.deep_view().contains(name@)) by {
        if v.deep_view().contains(name@) {
            let j = choose|j: int| 0 <= j < v.deep_view().len() && v.deep_view()[j] == name@;
        }
    }
    false
}

/// A node's top-level owned aggregate: its immutable identity from the
/// handshake, the application state built from it, and the mutable
/// neighbor set the gossip engine reads.
pub struct InitState<S: Initable> {
    init: Init,
    state: S,
    neighborhood: Vec<String>,
}

impl<S: Initable> InitState<S> {
    /// This node's own name.
    pub closed spec fn spec_node_id(&self) -> Seq<char> {
        self.init.node_id@
    }

    /// The full initial node set, as received.
    pub closed spec fn spec_node_ids(&self) -> Seq<Seq<char>> {
        self.init.node_ids.deep_view()
    }

    /// The current neighbor names, in first-contact order.
    pub closed spec fn spec_neighbors(&self) -> Seq<Seq<char>> {
        self.neighborhood.deep_view()
    }

    /// The application state owned by this node.
    pub closed spec fn spec_state(&self) -> S {
        self.state
    }

    /// The neighbor set holds no name twice.
    pub open spec fn wf(&self) -> bool {
        forall|i: int, j: int|
            0 <= i < j < self.spec_neighbors().len() ==> self.spec_neighbors()[i]
                != self.spec_neighbors()[j]
    }

    /// Builds the node's aggregate from the handshake payload: application
    /// state constructed from it, and the neighbor set seeded with every
    /// distinct name of the initial node list.
    pub fn from_init(init: Init) -> (r: InitState<S>)
        ensures
            r.wf(),
            r.spec_node_id() == init.node_id@,
            r.spec_node_ids() == init.node_ids.deep_view(),
            forall|s: Seq<char>| #[trigger]
                r.spec_neighbors().contains(s) == init.node_ids.deep_view().contains(s),
    {
        let ghost all = init.node_ids.deep_view();
        let mut neighborhood: Vec<String> = Vec::new();
        let n = init.node_ids.len();
        let mut i: usize = 0;
        while i < n
            invariant
                n == init.node_ids.len(),
                all == init.node_ids.deep_view(),
                i <= n,
                forall|a: int, b: int|
                    0 <= a < b < neighborhood.deep_view().len() ==> neighborhood.deep_view()[a]
                        != neighborhood.deep_view()[b],
                forall|s: Seq<char>| #[trigger]
                    neighborhood.deep_view().contains(s) == all.take(i as int).contains(s),
            decreases n - i,
        {
            let ghost pre = neighborhood.deep_view();
            let name = init.node_ids[i].clone();
            let ghost nv = name@;
            assert(nv == all[i as int]);
            if !contains_name(&neighborhood, &name) {
                neighborhood.push(name);
                proof {
                    assert(neighborhood.deep_view() =~= pre.push(nv));
                }
            }
            proof {
                let taken = all.take(i + 1);
                let now = neighborhood.deep_view();
                assert(taken[i as int] == nv);
                assert forall|s: Seq<char>| #[trigger] now.contains(s) == taken.contains(s) by {
                    if now.contains(s) {
                        let j = choose|j: int| 0 <= j < now.len() && now[j] == s;
                        if j < pre.len() {
                            assert(pre[j] == s);
                            assert(pre.contains(s));
                            let l = choose|l: int|
                                0 <= l < all.take(i as int).len() && all.take(i as int)[l] == s;
                            assert(taken[l] == s);
                        } else {
                            assert(s == nv);
                        }
                        assert(taken.contains(s));
                    }
                    if taken.contains(s) {
                        let j = choose|j: int| 0 <= j < taken.len() && taken[j] == s;
                        if j < i {
                            assert(all.take(i as int)[j] == s);
                            assert(all.take(i as int).contains(s));
                            assert(pre.contains(s) == all.take(i as int).contains(s));
                            let l = choose|l: int| 0 <= l < pre.len() && pre[l] == s;
                            assert(now[l] == s);
                        } else {
                            assert(s == nv);
                            if pre.contains(nv) {
                                let l = choose|l: int| 0 <= l < pre.len() && pre[l] == nv;
                                assert(now[l] == nv);
                            } else {
                                assert(now[now.len() - 1] == nv);
                            }
                        }
                        assert(now.contains(s));
                    }
                }
            }
            i = i + 1;
        }
        proof {
            assert(all.take(n as int) =~= all);
        }
        let state = S::with_init(init.clone());
        InitState { init, state, neighborhood }
    }

    /// The current neighbor set.
    pub fn get_neighbors(&self) -> (r: &Vec<String>)
        ensures
            r.deep_view() == self.spec_neighbors(),
    {
        &self.neighborhood
    }

    /// Adds `val` to the neighbor set if it is not already a neighbor.
    pub fn update_neighbor(&mut self, val: &String)
        requires
            old(self).wf(),
        ensures
            final(self).wf(),
            final(self).spec_node_id() == old(self).spec_node_id(),
            final(self).spec_node_ids() == old(self).spec_node_ids(),
            final(self).spec_state() == old(self).spec_state(),
            final(self).spec_neighbors() == (if old(self).spec_neighbors().contains(val@) {
                old(self).spec_neighbors()
            } else {
                old(self).spec_neighbors().push(val@)
            }),
    {
        if !contains_name(&self.neighborhood, val) {
            let owned = val.clone();
            self.neighborhood.push(owned);
            proof {
                assert(self.neighborhood.deep_view() =~= old(self).spec_neighbors().push(val@));
            }
        }
    }

    /// This node's identity as the handshake delivered it.
    pub fn get_init(&self) -> (r: &Init)
        ensures
            r.node_id@ == self.spec_node_id(),
            r.node_ids.deep_view() == self.spec_node_ids(),
    {
        &self.init
    }

    /// The application state, read-only.
    pub fn get_inner(&self) -> (r: &S)
        ensures
            *r == self.spec_state(),
    {
        &self.state
    }

    /// The application state, for mutation; identity and neighbors are
    /// untouched by whatever the caller does through it.
    pub fn get_inner_mut(&mut self) -> (r: &mut S)
        ensures
            *r == old(self).spec_state(),
            final(self).spec_state() == *final(r),
            final(self).spec_node_id() == old(self).spec_node_id(),
            final(self).spec_node_ids() == old(self).spec_node_ids(),
            final(self).spec_neighbors() == old(self).spec_neighbors(),
    {
        &mut self.state
    }
}

/// The closed payload set of the handshake protocol.
pub enum InitMessage {
    Init(Init),
    InitOk,
}

/// Reacts to the first inbound message. An `init` request yields the
/// node's constructed state and the `init_ok` reply to send, correlated
/// to the request; anything else is the fatal startup error `NotInit`.
/// An `init` request that carries no `msg_id` cannot be acknowledged and
/// fails with `NoMsgId`.
pub fn handle_init<S: Initable>(input: Message<InitMessage>, sender: &mut Sender) -> (r: Result<
    (InitState<S>, Message<InitMessage>),
    NodeError,
>)
    requires
        old(sender).spec_id() < usize::MAX,
    ensures
        input.body.msg_type is InitOk ==> (r matches Err(e) && e == NodeError::NotInit
            && final(sender).spec_id() == old(sender).spec_id()),
        input.body.msg_type is Init && input.body.msg_id is None ==> (r matches Err(e)
            && e == NodeError::NoMsgId && final(sender).spec_id() == old(sender).spec_id() + 1),
        input.body.msg_type matches InitMessage::Init(init) ==> (input.body.msg_id matches Some(
            mid,
        ) ==> (r matches Ok((st, reply)) && reply.src == input.dest && reply.dest == input.src
            && reply.body.in_reply_to == Some(mid) && reply.body.msg_id == Some(
            old(sender).spec_id(),
        ) && reply.body.msg_type is InitOk && final(sender).spec_id() == old(sender).spec_id() + 1
            && st.wf() && st.spec_node_id() == init.node_id@ && st.spec_node_ids()
            == init.node_ids.deep_view() && (forall|s: Seq<char>| #[trigger]
            st.spec_neighbors().contains(s) == init.node_ids.deep_view().contains(s)))),
{
    let init = match &input.body.msg_type {
        InitMessage::Init(init_ref) => init_ref.clone(),
        InitMessage::InitOk => {
            return Err(NodeError::NotInit);
        },
    };
    let reply = match sender.reply(input, InitMessage::InitOk) {
        Ok(reply) => reply,
        Err(e) => {
            return Err(e);
        },
    };
    let st = InitState::<S>::from_init(init);
    Ok((st, reply))
}

} // verus!
