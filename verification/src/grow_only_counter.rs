//! The grow-only counter protocol: `add` accumulates deltas into the
//! replicated log, `read` answers with their sum. Because each delta is
//! a log entry under a globally unique key, replicas converge on the
//! same multiset of deltas and therefore on the same total.

use crate::error::NodeError;
use crate::init_state::{Init, InitState, Initable};
use crate::log::{Log, LogKey};
use crate::message::{Body, Message};
use crate::sender::Sender;
use crate::store::Store;
use vstd::prelude::*;

verus! {

/// The closed payload set of the grow-only counter protocol.
pub enum GrowOnlyMessage {
    Add { delta: usize },
    Read { key: Option<String> },
    AddOk,
    ReadOk { value: usize },
}

/// Per-node state of the counter: the replicated log of accepted deltas.
pub struct GrowOnlyState {
    operations: Log<usize>,
}

impl Store<usize> for GrowOnlyState {
    closed spec fn log_spec(&self) -> Log<usize> {
        self.operations
    }

    fn get_log(&self) -> (l: &Log<usize>) {
        &self.operations
    }

    fn get_log_mut(&mut self) -> (l: &mut Log<usize>) {
        &mut self.operations
    }
}

impl Initable for GrowOnlyState {
    fn with_init(init: Init) -> Self {
        GrowOnlyState { operations: Log::with_init(init) }
    }
}

/// The mathematical sum of a value sequence.
pub open spec fn sum_of(vals: Seq<usize>) -> int
    decreases vals.len(),
{
    if vals.len() == 0 {
        0
    } else {
        sum_of(vals.drop_last()) + vals.last()
    }
}

/// The total a log of deltas denotes.
pub open spec fn log_total(log: Log<usize>) -> int {
    sum_of(log.spec_entries().map_values(|p: (LogKey, usize)| p.1))
}

/// The counter's current value: the sum of every delta the log holds,
/// saturating at the machine's limit.
pub fn counter_value(log: &Log<usize>) -> (r: usize)
    ensures
        log_total(*log) <= usize::MAX ==> r == log_total(*log),
        log_total(*log) > usize::MAX ==> r == usize::MAX,
{
    let ghost all = log.spec_entries().map_values(|p: (LogKey, usize)| p.1);
    let n = log.num_entries();
    let mut r: usize = 0;
    let mut i: usize = 0;
    while i < n
        invariant
            n == log.spec_entries().len(),
            all == log.spec_entries().map_values(|p: (LogKey, usize)| p.1),
            i <= n,
            sum_of(all.take(i as int)) <= usize::MAX ==> r == sum_of(all.take(i as int)),
            sum_of(all.take(i as int)) > usize::MAX ==> r == usize::MAX,
        decreases n - i,
    {
        let v = log.entry_at(i).1;
        proof {
            assert(all.take(i + 1).drop_last() =~= all.take(i as int));
            assert(all.take(i + 1).last() == all[i as int]);
            assert(all[i as int] == log.spec_entries()[i as int].1);
        }
        r = r.saturating_add(v);
        i = i + 1;
    }
    proof {
        assert(all.take(n as int) =~= all);
    }
    r
}

/// Reacts to one inbound counter message.
///
/// An `add` request is acknowledged with `add_ok` (when it carries a
/// `msg_id`) and its delta is inserted into the log under a fresh local
/// key. A keyless `read` request is answered with `read_ok` carrying
/// the sum of every delta held. A keyed `read` and the reply-only
/// variants are protocol violations: reported, nothing changed.
pub fn handle_message(
    input: &Message<GrowOnlyMessage>,
    sender: &mut Sender,
    state: &mut InitState<GrowOnlyState>,
) -> (r: Result<Option<Message<GrowOnlyMessage>>, NodeError>)
    requires
        old(sender).spec_id() < usize::MAX,
        old(state).spec_state().log_spec().wf(),
        old(state).spec_state().log_spec().spec_counter() < usize::MAX,
    ensures
        final(state).spec_node_id() == old(state).spec_node_id(),
        final(state).spec_node_ids() == old(state).spec_node_ids(),
        final(state).spec_neighbors() == old(state).spec_neighbors(),
        final(state).spec_state().log_spec().wf(),
        final(state).spec_state().log_spec().spec_node() == old(
            state,
        ).spec_state().log_spec().spec_node(),
        !(input.body.msg_type is Add) ==> final(state).spec_state() == old(state).spec_state(),
        input.body.msg_type matches GrowOnlyMessage::Add { delta } ==> ({
            let log0 = old(state).spec_state().log_spec();
            let log1 = final(state).spec_state().log_spec();
            &&& log1.spec_counter() == log0.spec_counter() + 1
            &&& (log0.fresh_local_keys() ==> log1.fresh_local_keys() && !log0@.contains_key(
                (log0.spec_node(), log0.spec_counter()),
            ) && log1@ == log0@.insert((log0.spec_node(), log0.spec_counter()), delta))
            &&& (input.body.msg_id matches Some(mid) ==> (r matches Ok(o) && o matches Some(m)
                && m.src == input.dest && m.dest == input.src && m.body.in_reply_to == Some(mid)
                && m.body.msg_id == Some(old(sender).spec_id()) && m.body.msg_type is AddOk
                && final(sender).spec_id() == old(sender).spec_id() + 1))
            &&& (input.body.msg_id is None ==> (r matches Ok(o) && o is None
                && final(sender).spec_id() == old(sender).spec_id()))
        }),
        input.body.msg_type matches GrowOnlyMessage::Read { key } ==> (key is None ==> ({
            let total = log_total(old(state).spec_state().log_spec());
            &&& (input.body.msg_id matches Some(mid) ==> (r matches Ok(o) && o matches Some(m)
                && m.src == input.dest && m.dest == input.src && m.body.in_reply_to == Some(mid)
                && m.body.msg_id == Some(old(sender).spec_id()) && (
            m.body.msg_type matches GrowOnlyMessage::ReadOk { value } && (total <= usize::MAX
                ==> value == total) && (total > usize::MAX ==> value == usize::MAX))
                && final(sender).spec_id() == old(sender).spec_id() + 1))
            &&& (input.body.msg_id is None ==> (r matches Ok(o) && o is None
                && final(sender).spec_id() == old(sender).spec_id()))
        })),
        input.body.msg_type matches GrowOnlyMessage::Read { key } ==> (key is Some ==> (
        r matches Err(e) && e == NodeError::UnexpectedReply && final(sender).spec_id() == old(
            sender,
        ).spec_id())),
        input.body.msg_type is AddOk || input.body.msg_type is ReadOk ==> (r matches Err(e) && e
            == NodeError::UnexpectedReply && final(sender).spec_id() == old(sender).spec_id()),
{
    match &input.body.msg_type {
        GrowOnlyMessage::Add { delta } => {
            let reply = match input.body.msg_id {
                Some(mid) => {
                    let response = Message {
                        src: input.dest.clone(),
                        dest: input.src.clone(),
                        body: Body {
                            msg_id: None,
                            in_reply_to: Some(mid),
                            msg_type: GrowOnlyMessage::AddOk,
                        },
                    };
                    Some(sender.send(response, true))
                },
                None => None,
            };
            let d = *delta;
            let inner = state.get_inner_mut();
            let log = inner.get_log_mut();
            let inserted = log.insert(&d);
            match inserted {
                Some(v) => {
                    state.get_inner_mut().new_value(&v);
                },
                None => {},
            }
            Ok(reply)
        },
        GrowOnlyMessage::Read { key: None } => {
            match input.body.msg_id {
                Some(mid) => {
                    let value = counter_value(state.get_inner().get_log());
                    let response = Message {
                        src: input.dest.clone(),
                        dest: input.src.clone(),
                        body: Body {
                            msg_id: None,
                            in_reply_to: Some(mid),
                            msg_type: GrowOnlyMessage::ReadOk { value },
                        },
                    };
                    Ok(Some(sender.send(response, true)))
                },
                None => Ok(None),
            }
        },
        GrowOnlyMessage::Read { key: Some(_) } => Err(NodeError::UnexpectedReply),
        GrowOnlyMessage::AddOk => Err(NodeError::UnexpectedReply),
        GrowOnlyMessage::ReadOk { .. } => Err(NodeError::UnexpectedReply),
    }
}

} // verus!
