//! A toolkit for building message-passing nodes that participate in a
//! simulated distributed cluster.
//!
//! Each node receives line-delimited JSON requests and emits replies
//! and requests of its own, all framed by the request/reply envelope of
//! [`message`] and correlated by the monotonic ids of [`sender`]. A
//! node learns its identity and the cluster's node set from the
//! mandatory `init` handshake of [`init_state`], then keeps one
//! replicated, append-only keyed log ([`log`]) eventually consistent
//! across the cluster through the gossip anti-entropy engine of
//! [`gossip`]. Application protocols — an echo responder, a grow-only
//! counter, a set-broadcast service, a unique-id generator — plug into
//! the core through the [`store`] capability.
//!
//! The embedding program owns all transport and scheduling; everything
//! here is pure logic on plain values, specified by contracts: merges
//! are proved idempotent and commutative, locally synthesized keys are
//! proved globally unique, and a gossip tick is proved to push exactly
//! the entries each neighbor is missing.

pub mod broadcast;
pub mod echo;
pub mod error;
pub mod gossip;
pub mod grow_only_counter;
pub mod init_state;
pub mod log;
pub mod message;
pub mod sender;
pub mod store;
pub mod unique_ids;
pub mod wire_key;
