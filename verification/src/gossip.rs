//! The gossip anti-entropy engine: per-neighbor "known" tracking, the
//! diffing that decides what to send, and the handlers for inbound
//! `gossip` / `gossip_ok` traffic.
//!
//! Each node periodically pushes to every neighbor exactly the log
//! entries it does not believe that neighbor has seen, and merges
//! whatever arrives. Because the log is a grow-only map with
//! first-insert-wins merging, re-sends and reorderings are harmless, and
//! a stale "known" cache only ever costs redundant traffic, never data.

use crate::init_state::{InitState, Initable};
use crate::log::{key_eq, map_of, merge_map, seq_has_key, Log, LogKey};
use crate::message::{Body, Message};
use crate::sender::Sender;
use crate::store::Store;
use vstd::prelude::*;

verus! {

/// The closed payload set of the gossip protocol. `Gossip` pushes a
/// delta; `GossipOk` acknowledges one and piggybacks a counter-delta.
pub enum GossipMessage<T> {
    Gossip { seen: Vec<(LogKey, T)> },
    GossipOk { seen: Vec<(LogKey, T)> },
}

/// The keys carried by a key list, as a set.
pub open spec fn key_set(keys: Seq<LogKey>) -> Set<(Seq<char>, int)> {
    Set::new(|k: (Seq<char>, int)| exists|i: int| 0 <= i < keys.len() && keys[i]@ == k)
}

/// The keys carried by an entry list, as a set.
pub open spec fn seen_key_set<T>(seen: Seq<(LogKey, T)>) -> Set<(Seq<char>, int)> {
    Set::new(|k: (Seq<char>, int)| seq_has_key(seen, k))
}

/// The entries of `entries` whose keys are not in `ks`: what a neighbor
/// with known-set `ks` is still missing.
pub open spec fn spec_delta<T>(
    entries: Seq<(LogKey, T)>,
    ks: Set<(Seq<char>, int)>,
) -> Seq<(LogKey, T)> {
    entries.filter(|p: (LogKey, T)| !ks.contains(p.0@))
}

/// Whether `keys` carries `key`.
fn keys_contain(keys: &Vec<LogKey>, key: &LogKey) -> (r: bool)
    ensures
        r == key_set(keys@).contains(key@),
{
    let n = keys.len();
    let mut i: usize = 0;
    while i < n
        invariant
            n == keys@.len(),
            i <= n,
            forall|j: int| 0 <= j < i ==> keys@[j]@ != key@,
        decreases n - i,
    {
        if key_eq(&keys[i], key) {
            assert(keys@[i as int]@ == key@);
            return true;
        }
        i = i + 1;
    }
    assert(!key_set(keys@).contains(key@)) by {
        if key_set(keys@).contains(key@) {
            let j = choose|j: int| 0 <= j < keys@.len() && keys@[j]@ == key@;
        }
    }
    false
}

/// The per-process gossip cache: for each peer, the keys that peer is
/// believed to have seen. A local belief only: when it is stale the next
/// tick re-sends data the peer already holds, which its merge discards.
pub struct GossipState {
    known: Vec<(String, Vec<LogKey>)>,
}

impl GossipState {
    /// Whether the cache holds an entry for `p`.
    pub closed spec fn has_peer(&self, p: Seq<char>) -> bool {
        exists|i: int| 0 <= i < self.known@.len() && self.known@[i].0@ == p
    }

    /// The keys peer `p` is believed to have seen; empty for a peer never
    /// contacted.
    pub closed spec fn known_of(&self, p: Seq<char>) -> Set<(Seq<char>, int)> {
        if self.has_peer(p) {
            let i = choose|i: int| 0 <= i < self.known@.len() && self.known@[i].0@ == p;
            key_set(self.known@[i].1@)
        } else {
            Set::empty()
        }
    }

    /// No peer has two cache entries.
    pub closed spec fn wf(&self) -> bool {
        forall|i: int, j: int|
            0 <= i < j < self.known@.len() ==> self.known@[i].0@ != self.known@[j].0@
    }

    /// Under `wf`, the entry at index `i` is the one `known_of` reads.
    proof fn lemma_known_of_at(&self, i: int)
        requires
            self.wf(),
            0 <= i < self.known@.len(),
        ensures
            self.has_peer(self.known@[i].0@),
            self.known_of(self.known@[i].0@) == key_set(self.known@[i].1@),
    {
        let p = self.known@[i].0@;
        assert(self.has_peer(p));
        let j = choose|j: int| 0 <= j < self.known@.len() && self.known@[j].0@ == p;
        assert(j == i);
    }

    /// The index of `peer`'s cache entry, if it has one.
    fn peer_index(&self, peer: &String) -> (r: Option<usize>)
        ensures
            r matches Some(i) ==> i < self.known@.len() && self.known@[i as int].0@ == peer@,
            r is None ==> !self.has_peer(peer@),
    {
        let n = self.known.len();
        let mut i: usize = 0;
        while i < n
            invariant
                n == self.known@.len(),
                i <= n,
                forall|j: int| 0 <= j < i ==> self.known@[j].0@ != peer@,
            decreases n - i,
        {
            if self.known[i].0.eq(peer) {
                return Some(i);
            }
            i = i + 1;
        }
        None
    }

    /// Finds `peer`'s cache entry, creating an empty one on first
    /// contact; the believed-known sets themselves do not change.
    fn ensure_peer(&mut self, peer: &String) -> (i: usize)
        requires
            old(self).wf(),
        ensures
            final(self).wf(),
            i < final(self).known@.len(),
            final(self).known@[i as int].0@ == peer@,
            forall|p: Seq<char>| #[trigger] final(self).known_of(p) == old(self).known_of(p),
            forall|p: Seq<char>| #[trigger]
                final(self).has_peer(p) == (old(self).has_peer(p) || p == peer@),
    {
        match self.peer_index(peer) {
            Some(i) => {
                proof {
                    assert forall|p: Seq<char>| #[trigger]
                        self.has_peer(p) == (self.has_peer(p) || p == peer@) by {
                        if p == peer@ {
                            assert(self.known@[i as int].0@ == p);
                        }
                    }
                }
                i
            },
            None => {
                let ghost pre = self.known@;
                let empty_keys: Vec<LogKey> = Vec::new();
                self.known.push((peer.clone(), empty_keys));
                let i = self.known.len() - 1;
                proof {
                    let post = self.known@;
                    assert(post.len() == pre.len() + 1);
                    assert(post[i as int].0@ == peer@);
                    assert(forall|j: int| 0 <= j < pre.len() ==> post[j] == pre[j]);
                    assert forall|p: Seq<char>| #[trigger]
                        self.has_peer(p) == (old(self).has_peer(p) || p == peer@) by {
                        if old(self).has_peer(p) {
                            let j = choose|j: int| 0 <= j < pre.len() && pre[j].0@ == p;
                            assert(post[j].0@ == p);
                        }
                        if self.has_peer(p) && p != peer@ {
                            let j = choose|j: int| 0 <= j < post.len() && post[j].0@ == p;
                            assert(j < pre.len());
                            assert(old(self).has_peer(p));
                        }
                    }
                    assert forall|p: Seq<char>| #[trigger]
                        self.known_of(p) == old(self).known_of(p) by {
                        if p == peer@ {
                            assert(!old(self).has_peer(p));
                            self.lemma_known_of_at(i as int);
                            assert(key_set(post[i as int].1@) =~= Set::<(Seq<char>, int)>::empty());
                        } else if old(self).has_peer(p) {
                            let j = choose|j: int| 0 <= j < pre.len() && pre[j].0@ == p;
                            old(self).lemma_known_of_at(j);
                            self.lemma_known_of_at(j);
                        }
                    }
                }
                i
            },
        }
    }

    /// Records every key of `seen` as now known by `peer`, creating the
    /// peer's cache entry on first contact.
    pub fn record_seen<T: Copy>(&mut self, peer: &String, seen: &Vec<(LogKey, T)>)
        requires
            old(self).wf(),
        ensures
            final(self).wf(),
            final(self).known_of(peer@) == old(self).known_of(peer@) + seen_key_set(seen@),
            forall|p: Seq<char>|
                p != peer@ ==> #[trigger] final(self).known_of(p) == old(self).known_of(p),
            forall|p: Seq<char>| #[trigger]
                final(self).has_peer(p) == (old(self).has_peer(p) || p == peer@),
    {
        let i = self.ensure_peer(peer);
        let ghost mid = *self;
        let mut entry = self.known.remove(i);
        let ghost base = key_set(entry.1@);
        proof {
            mid.lemma_known_of_at(i as int);
            assert(base == mid.known_of(peer@));
        }
        let n = seen.len();
        let mut j: usize = 0;
        while j < n
            invariant
                n == seen@.len(),
                j <= n,
                entry.0@ == peer@,
                self.known@ == mid.known@.remove(i as int),
                key_set(entry.1@) =~= base + seen_key_set(seen@.take(j as int)),
            decreases n - j,
        {
            let ghost before = entry.1@;
            if !keys_contain(&entry.1, &seen[j].0) {
                entry.1.push(seen[j].0.clone());
            }
            proof {
                let taken = seen@.take(j + 1);
                assert(taken.drop_last() =~= seen@.take(j as int));
                assert(taken.last() == seen@[j as int]);
                assert forall|k: (Seq<char>, int)| #[trigger] key_set(entry.1@).contains(k)
                    == (base + seen_key_set(taken)).contains(k) by {
                    let now = entry.1@;
                    if key_set(now).contains(k) {
                        let l = choose|l: int| 0 <= l < now.len() && now[l]@ == k;
                        if l < before.len() {
                            assert(key_set(before).contains(k));
                        } else {
                            assert(k == seen@[j as int].0@);
                            assert(seq_has_key(taken, k)) by {
                                assert(taken[j as int].0@ == k);
                            }
                        }
                    }
                    if key_set(before).contains(k) {
                        let l = choose|l: int| 0 <= l < before.len() && before[l]@ == k;
                        assert(now[l]@ == k);
                    }
                    if seq_has_key(taken, k) {
                        let l = choose|l: int| 0 <= l < taken.len() && taken[l].0@ == k;
                        if l < j {
                            assert(seen@.take(j as int)[l].0@ == k);
                            assert(seq_has_key(seen@.take(j as int), k));
                        } else {
                            assert(k == seen@[j as int].0@);
                            if key_set(before).contains(k) {
                            } else {
                                assert(entry.1@.last()@ == k);
                            }
                        }
                    }
                    if seq_has_key(seen@.take(j as int), k) {
                        let l = choose|l: int|
                            0 <= l < seen@.take(j as int).len() && seen@.take(j as int)[l].0@ == k;
                        assert(taken[l].0@ == k);
                    }
                }
            }
            j = j + 1;
        }
        proof {
            assert(seen@.take(n as int) =~= seen@);
        }
        let ghost list_final = entry.1@;
        self.known.insert(i, entry);
        proof {
            assert(self.known@ =~= mid.known@.update(i as int, self.known@[i as int]));
            assert(self.known@[i as int].0@ == peer@);
            assert(key_set(self.known@[i as int].1@) == key_set(list_final));
            assert(self.wf()) by {
                assert(forall|l: int|
                    0 <= l < self.known@.len() ==> self.known@[l].0@ == mid.known@[l].0@);
            }
            self.lemma_known_of_at(i as int);
            assert(final(self).known_of(peer@) =~= old(self).known_of(peer@) + seen_key_set(
                seen@,
            ));
            assert forall|p: Seq<char>| p != peer@ implies #[trigger] self.known_of(p) == mid
                .known_of(p) by {
                if mid.has_peer(p) {
                    let l = choose|l: int| 0 <= l < mid.known@.len() && mid.known@[l].0@ == p;
                    assert(l != i);
                    assert(self.known@[l] == mid.known@[l]);
                    mid.lemma_known_of_at(l);
                    self.lemma_known_of_at(l);
                } else {
                    assert(!self.has_peer(p)) by {
                        if self.has_peer(p) {
                            let l = choose|l: int|
                                0 <= l < self.known@.len() && self.known@[l].0@ == p;
                            assert(mid.known@[l].0@ == p);
                        }
                    }
                }
            }
            assert forall|p: Seq<char>| #[trigger]
                self.has_peer(p) == (old(self).has_peer(p) || p == peer@) by {
                if self.has_peer(p) {
                    let l = choose|l: int| 0 <= l < self.known@.len() && self.known@[l].0@ == p;
                    assert(mid.known@[l].0@ == p);
                    assert(mid.has_peer(p));
                }
                if mid.has_peer(p) {
                    let l = choose|l: int| 0 <= l < mid.known@.len() && mid.known@[l].0@ == p;
                    assert(self.known@[l].0@ == p);
                }
            }
        }
    }

    /// The entries of `log` that `peer` is not believed to have seen:
    /// the delta the next gossip to `peer` would carry.
    pub fn delta<T: Copy>(&self, log: &Log<T>, peer: &String) -> (r: Vec<(LogKey, T)>)
        requires
            self.wf(),
        ensures
            r@ == spec_delta(log.spec_entries(), self.known_of(peer@)),
    {
        let ghost ks = self.known_of(peer@);
        let empty_keys: Vec<LogKey> = Vec::new();
        let keys: &Vec<LogKey> = match self.peer_index(peer) {
            Some(i) => {
                proof {
                    self.lemma_known_of_at(i as int);
                }
                &self.known[i].1
            },
            None => {
                proof {
                    assert(key_set(empty_keys@) =~= Set::<(Seq<char>, int)>::empty());
                }
                &empty_keys
            },
        };
        assert(key_set(keys@) == ks);
        let ghost entries = log.spec_entries();
        let n = log.num_entries();
        let mut r: Vec<(LogKey, T)> = Vec::new();
        let mut j: usize = 0;
        while j < n
            invariant
                n == entries.len(),
                entries == log.spec_entries(),
                ks == key_set(keys@),
                j <= n,
                r@ == spec_delta(entries.take(j as int), ks),
            decreases n - j,
        {
            let entry = log.entry_at(j);
            proof {
                reveal(Seq::filter);
                assert(entries.take(j + 1).drop_last() =~= entries.take(j as int));
                assert(entries.take(j + 1).last() == entries[j as int]);
            }
            if !keys_contain(keys, &entry.0) {
                r.push((entry.0.clone(), entry.1));
                assert(r@ =~= spec_delta(entries.take(j + 1), ks));
            } else {
                assert(r@ =~= spec_delta(entries.take(j + 1), ks));
            }
            j = j + 1;
        }
        proof {
            assert(entries.take(n as int) =~= entries);
        }
        r
    }

    /// A fresh cache with an empty believed-known set for every node of
    /// the initial topology.
    pub fn from_state<S: Initable>(state: &InitState<S>) -> (r: GossipState)
        ensures
            r.wf(),
            forall|p: Seq<char>| #[trigger] r.has_peer(p) == state.spec_node_ids().contains(p),
            forall|p: Seq<char>| #[trigger] r.known_of(p) == Set::<(Seq<char>, int)>::empty(),
    {
        let init = state.get_init();
        let ghost all = init.node_ids.deep_view();
        let mut r = GossipState { known: Vec::new() };
        assert(forall|p: Seq<char>| !(#[trigger] r.has_peer(p)));
        let n = init.node_ids.len();
        let mut i: usize = 0;
        while i < n
            invariant
                n == init.node_ids.len(),
                all == init.node_ids.deep_view(),
                r.wf(),
                i <= n,
                forall|p: Seq<char>| #[trigger] r.has_peer(p) == all.take(i as int).contains(p),
                forall|p: Seq<char>| #[trigger] r.known_of(p) == Set::<(Seq<char>, int)>::empty(),
            decreases n - i,
        {
            let ghost pre = r;
            let _ = r.ensure_peer(&init.node_ids[i]);
            proof {
                let taken = all.take(i + 1);
                assert(taken.drop_last() =~= all.take(i as int));
                assert(taken.last() == all[i as int]);
                assert forall|p: Seq<char>| #[trigger] r.has_peer(p) == taken.contains(p) by {
                    if r.has_peer(p) {
                        if pre.has_peer(p) {
                            let l = choose|l: int|
                                0 <= l < all.take(i as int).len() && all.take(i as int)[l] == p;
                            assert(taken[l] == p);
                        } else {
                            assert(taken[i as int] == p);
                        }
                    }
                    if taken.contains(p) {
                        let l = choose|l: int| 0 <= l < taken.len() && taken[l] == p;
                        if l < i {
                            assert(all.take(i as int)[l] == p);
                            assert(all.take(i as int).contains(p));
                        }
                    }
                }
            }
            i = i + 1;
        }
        proof {
            assert(all.take(n as int) =~= all);
        }
        r
    }
}

/// The entry list a gossip payload carries, whichever variant it is.
pub open spec fn seen_of<T>(m: GossipMessage<T>) -> Seq<(LogKey, T)> {
    match m {
        GossipMessage::Gossip { seen } => seen@,
        GossipMessage::GossipOk { seen } => seen@,
    }
}

/// An owned copy of an entry list.
fn clone_entries<T: Copy>(seen: &Vec<(LogKey, T)>) -> (r: Vec<(LogKey, T)>)
    ensures
        r@ == seen@,
{
    let n = seen.len();
    let mut r: Vec<(LogKey, T)> = Vec::new();
    let mut i: usize = 0;
    while i < n
        invariant
            n == seen@.len(),
            i <= n,
            r@ =~= seen@.take(i as int),
        decreases n - i,
    {
        r.push((seen[i].0.clone(), seen[i].1));
        proof {
            assert(r@ =~= seen@.take(i + 1));
        }
        i = i + 1;
    }
    proof {
        assert(seen@.take(n as int) =~= seen@);
    }
    r
}

/// Reacts to one inbound gossip-protocol message from peer `input.src`.
///
/// Both variants merge every carried entry into the local log (an
/// idempotent no-op for keys already held) and record the carried keys
/// as now known by the sender. A `Gossip` request is additionally
/// acknowledged: the reply is a `GossipOk` carrying the request's
/// entries plus every local entry the peer is not believed to have —
/// a second anti-entropy round piggybacked onto the acknowledgment. A
/// `Gossip` without a `msg_id` cannot be acknowledged and is only
/// merged; a `GossipOk` is never answered.
pub fn handle_msg<T: Copy, S: Store<T> + Initable>(
    input: &Message<GossipMessage<T>>,
    sender: &mut Sender,
    state: &mut InitState<S>,
    known_ctx: &mut GossipState,
) -> (reply: Option<Message<GossipMessage<T>>>)
    requires
        old(state).spec_state().log_spec().wf(),
        old(known_ctx).wf(),
        old(sender).spec_id() < usize::MAX,
    ensures
        final(state).spec_node_id() == old(state).spec_node_id(),
        final(state).spec_node_ids() == old(state).spec_node_ids(),
        final(state).spec_neighbors() == old(state).spec_neighbors(),
        final(known_ctx).wf(),
        final(state).spec_state().log_spec().wf(),
        final(state).spec_state().log_spec().spec_node() == old(
            state,
        ).spec_state().log_spec().spec_node(),
        final(state).spec_state().log_spec().spec_counter() == old(
            state,
        ).spec_state().log_spec().spec_counter(),
        final(state).spec_state().log_spec()@ == merge_map(
            old(state).spec_state().log_spec()@,
            seen_of(input.body.msg_type),
        ),
        final(known_ctx).known_of(input.src@) == old(known_ctx).known_of(input.src@)
            + seen_key_set(seen_of(input.body.msg_type)),
        forall|p: Seq<char>|
            p != input.src@ ==> #[trigger] final(known_ctx).known_of(p) == old(
                known_ctx,
            ).known_of(p),
        forall|p: Seq<char>| #[trigger]
            final(known_ctx).has_peer(p) == (old(known_ctx).has_peer(p) || p == input.src@),
        input.body.msg_type is GossipOk ==> reply is None
            && final(sender).spec_id() == old(sender).spec_id(),
        input.body.msg_type is Gossip && input.body.msg_id is None ==> reply is None
            && final(sender).spec_id() == old(sender).spec_id(),
        input.body.msg_type matches GossipMessage::Gossip { seen } ==> (
        input.body.msg_id matches Some(mid) ==> (reply matches Some(m) && m.src == input.dest
            && m.dest == input.src && m.body.in_reply_to == Some(mid) && m.body.msg_id == Some(
            old(sender).spec_id(),
        ) && final(sender).spec_id() == old(sender).spec_id() + 1 && (
        m.body.msg_type matches GossipMessage::GossipOk { seen: ack } && ack@ == spec_delta(
            old(state).spec_state().log_spec().spec_entries(),
            old(known_ctx).known_of(input.src@) + seen_key_set(seen@),
        ) + seen@))),
{
    match &input.body.msg_type {
        GossipMessage::Gossip { seen } => {
            known_ctx.record_seen(&input.src, seen);
            let mut ack = known_ctx.delta(state.get_inner().get_log(), &input.src);
            let inner = state.get_inner_mut();
            let log = inner.get_log_mut();
            log.merge(seen);
            match input.body.msg_id {
                Some(mid) => {
                    let mut tail = clone_entries(seen);
                    ack.append(&mut tail);
                    let response = Message {
                        src: input.dest.clone(),
                        dest: input.src.clone(),
                        body: Body {
                            msg_id: None,
                            in_reply_to: Some(mid),
                            msg_type: GossipMessage::GossipOk { seen: ack },
                        },
                    };
                    Some(sender.send(response, true))
                },
                None => None,
            }
        },
        GossipMessage::GossipOk { seen } => {
            known_ctx.record_seen(&input.src, seen);
            let inner = state.get_inner_mut();
            let log = inner.get_log_mut();
            log.merge(seen);
            None
        },
    }
}

/// One periodic anti-entropy tick: for every neighbor other than this
/// node itself, computes the delta of the local log against that
/// neighbor's believed-known set and, where the delta is not empty,
/// prepares a fire-and-forget `Gossip` push carrying exactly it. A
/// neighbor that is owed nothing gets no message; every neighbor owed
/// something gets one, each computed and stamped independently, so a
/// peer whose sends keep failing cannot starve the others.
pub fn gossip<T: Copy, S: Store<T> + Initable>(
    sender: &mut Sender,
    state: &InitState<S>,
    known_ctx: &mut GossipState,
) -> (msgs: Vec<Message<GossipMessage<T>>>)
    requires
        old(known_ctx).wf(),
        old(sender).spec_id() + state.spec_neighbors().len() <= usize::MAX,
    ensures
        final(known_ctx).wf(),
        forall|p: Seq<char>| #[trigger]
            final(known_ctx).known_of(p) == old(known_ctx).known_of(p),
        msgs@.len() <= state.spec_neighbors().len(),
        final(sender).spec_id() == old(sender).spec_id() + msgs@.len(),
        forall|i: int|
            0 <= i < msgs@.len() ==> {
                let m = #[trigger] msgs@[i];
                &&& state.spec_neighbors().contains(m.dest@)
                &&& m.dest@ != state.spec_node_id()
                &&& m.src@ == state.spec_node_id()
                &&& m.body.in_reply_to is None
                &&& m.body.msg_id == Some((old(sender).spec_id() + i) as usize)
                &&& (m.body.msg_type matches GossipMessage::Gossip { seen } && seen@
                    == spec_delta(
                    state.spec_state().log_spec().spec_entries(),
                    old(known_ctx).known_of(m.dest@),
                ) && seen@.len() > 0)
            },
        forall|n: Seq<char>|
            state.spec_neighbors().contains(n) && n != state.spec_node_id() && spec_delta(
                state.spec_state().log_spec().spec_entries(),
                old(known_ctx).known_of(n),
            ).len() > 0 ==> exists|i: int| 0 <= i < msgs@.len() && #[trigger] msgs@[i].dest@ == n,
{
    let init = state.get_init();
    let log = state.get_inner().get_log();
    let neighbors = state.get_neighbors();
    let ghost entries = state.spec_state().log_spec().spec_entries();
    let n = neighbors.len();
    let mut msgs: Vec<Message<GossipMessage<T>>> = Vec::new();
    let mut i: usize = 0;
    while i < n
        invariant
            n == state.spec_neighbors().len(),
            neighbors.deep_view() == state.spec_neighbors(),
            init.node_id@ == state.spec_node_id(),
            log.spec_entries() == entries,
            entries == state.spec_state().log_spec().spec_entries(),
            i <= n,
            known_ctx.wf(),
            forall|p: Seq<char>| #[trigger]
                known_ctx.known_of(p) == old(known_ctx).known_of(p),
            msgs@.len() <= i,
            sender.spec_id() == old(sender).spec_id() + msgs@.len(),
            old(sender).spec_id() + n <= usize::MAX,
            forall|l: int|
                0 <= l < msgs@.len() ==> {
                    let m = #[trigger] msgs@[l];
                    &&& state.spec_neighbors().contains(m.dest@)
                    &&& m.dest@ != state.spec_node_id()
                    &&& m.src@ == state.spec_node_id()
                    &&& m.body.in_reply_to is None
                    &&& m.body.msg_id == Some((old(sender).spec_id() + l) as usize)
                    &&& (m.body.msg_type matches GossipMessage::Gossip { seen } && seen@
                        == spec_delta(entries, old(known_ctx).known_of(m.dest@)) && seen@.len()
                        > 0)
                },
            forall|nb: Seq<char>|
                state.spec_neighbors().take(i as int).contains(nb) && nb
                    != state.spec_node_id() && spec_delta(
                    entries,
                    old(known_ctx).known_of(nb),
                ).len() > 0 ==> exists|l: int|
                    0 <= l < msgs@.len() && #[trigger] msgs@[l].dest@ == nb,
        decreases n - i,
    {
        let nb = &neighbors[i];
        assert(nb@ == state.spec_neighbors()[i as int]);
        let ghost pre_msgs = msgs@;
        if !nb.eq(&init.node_id) {
            let _ = known_ctx.ensure_peer(nb);
            let seen = known_ctx.delta(log, nb);
            if seen.len() > 0 {
                let m = Message {
                    src: init.node_id.clone(),
                    dest: nb.clone(),
                    body: Body {
                        msg_id: None,
                        in_reply_to: None,
                        msg_type: GossipMessage::Gossip { seen },
                    },
                };
                let m = sender.send(m, true);
                msgs.push(m);
            }
        }
        proof {
            let taken = state.spec_neighbors().take(i + 1);
            assert(taken.drop_last() =~= state.spec_neighbors().take(i as int));
            assert(taken.last() == state.spec_neighbors()[i as int]);
            assert forall|nbv: Seq<char>|
                taken.contains(nbv) && nbv != state.spec_node_id() && spec_delta(
                    entries,
                    old(known_ctx).known_of(nbv),
                ).len() > 0 implies exists|l: int|
                0 <= l < msgs@.len() && #[trigger] msgs@[l].dest@ == nbv by {
                let j = choose|j: int| 0 <= j < taken.len() && taken[j] == nbv;
                if j < i {
                    assert(state.spec_neighbors().take(i as int)[j] == nbv);
                    assert(state.spec_neighbors().take(i as int).contains(nbv));
                    let l = choose|l: int| 0 <= l < pre_msgs.len() && pre_msgs[l].dest@ == nbv;
                    assert(msgs@[l].dest@ == nbv);
                } else {
                    assert(nbv == state.spec_neighbors()[i as int]);
                    assert(msgs@[msgs@.len() - 1].dest@ == nbv);
                }
            }
        }
        i = i + 1;
    }
    proof {
        assert(state.spec_neighbors().take(n as int) =~= state.spec_neighbors());
    }
    msgs
}

/// Whether an entry list carries `k` after filtering against `ks`:
/// exactly when the unfiltered list carries it and `ks` does not.
pub proof fn lemma_delta_has_key<T>(
    entries: Seq<(LogKey, T)>,
    ks: Set<(Seq<char>, int)>,
    k: (Seq<char>, int),
)
    ensures
        seq_has_key(spec_delta(entries, ks), k) <==> (seq_has_key(entries, k) && !ks.contains(
            k,
        )),
    decreases entries.len(),
{
    reveal(Seq::filter);
    let pred = |p: (LogKey, T)| !ks.contains(p.0@);
    if entries.len() > 0 {
        let prefix = entries.drop_last();
        let last = entries.last();
        lemma_delta_has_key(prefix, ks, k);
        if seq_has_key(spec_delta(entries, ks), k) {
            let l = choose|l: int|
                0 <= l < spec_delta(entries, ks).len() && spec_delta(entries, ks)[l].0@ == k;
            if pred(last) && l == spec_delta(entries, ks).len() - 1 {
                assert(entries[entries.len() - 1].0@ == k);
            } else {
                assert(spec_delta(prefix, ks)[l].0@ == k);
                let j = choose|j: int| 0 <= j < prefix.len() && prefix[j].0@ == k;
                assert(entries[j].0@ == k);
            }
        }
        if seq_has_key(entries, k) && !ks.contains(k) {
            let j = choose|j: int| 0 <= j < entries.len() && entries[j].0@ == k;
            if j < entries.len() - 1 {
                assert(prefix[j].0@ == k);
                let l = choose|l: int|
                    0 <= l < spec_delta(prefix, ks).len() && spec_delta(prefix, ks)[l].0@ == k;
                assert(spec_delta(entries, ks)[l].0@ == k);
            } else {
                assert(pred(last));
                assert(spec_delta(entries, ks).last().0@ == k);
            }
        }
    }
}

/// No redundant gossip: when a neighbor's believed-known set already
/// covers every key the log holds, the delta to push is empty, so the
/// next tick sends that neighbor nothing.
pub proof fn lemma_covered_delta_empty<T>(entries: Seq<(LogKey, T)>, ks: Set<(Seq<char>, int)>)
    requires
        forall|i: int| 0 <= i < entries.len() ==> ks.contains(#[trigger] entries[i].0@),
    ensures
        spec_delta(entries, ks).len() == 0,
    decreases entries.len(),
{
    reveal(Seq::filter);
    if entries.len() > 0 {
        let prefix = entries.drop_last();
        assert(forall|i: int| 0 <= i < prefix.len() ==> ks.contains(#[trigger] prefix[i].0@));
        lemma_covered_delta_empty(prefix, ks);
    }
}

/// Convergence of one full anti-entropy exchange. Node `a` ticks and
/// pushes its delta to node `b`; `b` merges it, records it, and
/// acknowledges with the pushed entries plus its own counter-delta,
/// exactly as `handle_msg` does; `a` merges the acknowledgment.
/// Whenever neither side's belief about the other credits it with a
/// key it does not hold, both replicas afterwards hold exactly the
/// union of the two key sets: one round trip reconciles the pair.
pub proof fn lemma_exchange_converges<T>(
    a: Seq<(LogKey, T)>,
    b: Seq<(LogKey, T)>,
    known_a: Set<(Seq<char>, int)>,
    known_b: Set<(Seq<char>, int)>,
)
    requires
        forall|k: (Seq<char>, int)| #[trigger] known_a.contains(k) ==> seq_has_key(b, k),
        forall|k: (Seq<char>, int)| #[trigger] known_b.contains(k) ==> seq_has_key(a, k),
    ensures
        forall|k: (Seq<char>, int)| #[trigger]
            merge_map(
                map_of(a),
                spec_delta(b, known_b + seen_key_set(spec_delta(a, known_a))) + spec_delta(
                    a,
                    known_a,
                ),
            ).contains_key(k) <==> (seq_has_key(a, k) || seq_has_key(b, k)),
        forall|k: (Seq<char>, int)| #[trigger]
            merge_map(map_of(b), spec_delta(a, known_a)).contains_key(k) <==> (seq_has_key(a, k)
                || seq_has_key(b, k)),
{
    let push = spec_delta(a, known_a);
    let counter_delta = spec_delta(b, known_b + seen_key_set(push));
    let ack = counter_delta + push;
    assert forall|k: (Seq<char>, int)| #[trigger]
        merge_map(map_of(a), ack).contains_key(k) <==> (seq_has_key(a, k) || seq_has_key(
        b,
        k,
    )) by {
        crate::log::lemma_map_of_contains(a, k);
        crate::log::lemma_map_of_contains(b, k);
        crate::log::lemma_merge_map_contains(map_of(a), ack, k);
        crate::log::lemma_has_key_concat(counter_delta, push, k);
        lemma_delta_has_key(a, known_a, k);
        lemma_delta_has_key(b, known_b + seen_key_set(push), k);
    }
    assert forall|k: (Seq<char>, int)| #[trigger]
        merge_map(map_of(b), push).contains_key(k) <==> (seq_has_key(a, k) || seq_has_key(
        b,
        k,
    )) by {
        crate::log::lemma_map_of_contains(a, k);
        crate::log::lemma_map_of_contains(b, k);
        crate::log::lemma_merge_map_contains(map_of(b), push, k);
        lemma_delta_has_key(a, known_a, k);
    }
}

/// Convergence of one anti-entropy push: if the sender's belief about
/// the receiver never credits it with a key it does not hold, then after
/// the receiver merges the pushed delta it holds every key either side
/// held; nothing is lost by sending only the delta.
pub proof fn lemma_delta_merge_covers<T>(
    receiver: Map<(Seq<char>, int), T>,
    entries: Seq<(LogKey, T)>,
    ks: Set<(Seq<char>, int)>,
)
    requires
        forall|k: (Seq<char>, int)| #[trigger] ks.contains(k) ==> receiver.contains_key(k),
    ensures
        forall|k: (Seq<char>, int)| #[trigger]
            merge_map(receiver, spec_delta(entries, ks)).contains_key(k) <==> (
            receiver.contains_key(k) || seq_has_key(entries, k)),
        forall|k: (Seq<char>, int)|
            receiver.contains_key(k) ==> merge_map(receiver, spec_delta(entries, ks))[k]
                == #[trigger] receiver[k],
{
    assert forall|k: (Seq<char>, int)| #[trigger]
        merge_map(receiver, spec_delta(entries, ks)).contains_key(k) <==> (
        receiver.contains_key(k) || seq_has_key(entries, k)) by {
        crate::log::lemma_merge_map_contains(receiver, spec_delta(entries, ks), k);
        lemma_delta_has_key(entries, ks, k);
    }
    assert forall|k: (Seq<char>, int)| receiver.contains_key(k) implies merge_map(
        receiver,
        spec_delta(entries, ks),
    )[k] == #[trigger] receiver[k] by {
        crate::log::lemma_merge_map_base_wins(receiver, spec_delta(entries, ks), k);
    }
}

} // verus!
