//! # raft-io
//!
//! An implementation of the Raft consensus algorithm, built as a clean,
//! embeddable library rather than a framework.
//!
//! The protocol core is a deterministic state machine: you feed it [`Event`]s
//! (logical ticks, inbound [`Message`]s, client requests) and it returns
//! [`Action`]s (send these messages, apply this committed command). Time,
//! networking and storage are the caller's concern, injected through the
//! [`RaftLog`] and [`RaftTransport`] trait seams. The core contains no wall
//! clock and no I/O, so an entire cluster's behaviour can be reproduced from a
//! seed and a sequence of events.
//!
//! ## What is proved
//!
//! What the code does is stated in contracts and proved. A node's step is the
//! function [`NodeModel::step`](model::NodeModel::step) on its mathematical
//! model, and everything in its log is durable before it hands anything out.
//! [`effects`] says of each kind of event what it is for and what comes of it,
//! [`laws`] what every step of a node keeps, [`runs`] what holds of a node over any
//! sequence of events and restarts, and [`guarantees`] what every run of
//! a cluster keeps, through lost, repeated and reordered messages, crashes
//! and changes of the voters: a term has at most one leader, logs match, leaders
//! have what was committed, and all nodes apply the same commands.
//!
//! ## The three tiers
//!
//! - [`RaftNode::new`] with a [`RaftConfig`] and the in-memory [`MemoryLog`].
//! - [`RaftConfig`]'s builder for tuning election and heartbeat timing.
//! - The [`RaftLog`] / [`RaftTransport`] traits for plugging in a durable store
//!   or a real transport.

pub mod cluster;
pub mod config;
pub mod effects;
pub mod error;
pub mod framing;
pub mod guarantees;
pub mod laws;
pub mod log;
pub mod members;
pub mod message;
pub mod model;
pub mod node;
pub mod rng;
pub mod runs;
pub mod safety;
pub mod steps;
pub mod transport;
pub mod types;
pub mod upkeep;
pub mod wal_log;

pub use crate::config::RaftConfig;
pub use crate::error::Error;
pub use crate::log::{MemoryLog, RaftLog};
pub use crate::message::{
    AppendEntries, AppendEntriesReply, InstallSnapshot, InstallSnapshotReply, Message, PreVote,
    PreVoteReply, RequestVote, RequestVoteReply, TimeoutNow,
};
pub use crate::node::{Action, Event, RaftNode};
pub use crate::transport::{MemoryTransport, RaftTransport};
pub use crate::types::{
    EntryKind, HardState, Index, LogEntry, NodeId, Role, Snapshot, Term,
};
