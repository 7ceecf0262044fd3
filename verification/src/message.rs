//! The RPC messages nodes exchange.
//!
//! [`RequestVote`] drives elections, preceded by the [`PreVote`] probe;
//! [`AppendEntries`] replicates the log and doubles as the leader's heartbeat;
//! [`InstallSnapshot`] catches up a follower whose next entry is gone; and
//! [`TimeoutNow`] hands leadership over. The protocol core never sends these
//! itself: it emits an action carrying a [`Message`], and the caller delivers
//! it. Contracts speak of a message through its [`MessageModel`].

use crate::types::{clone_entries, EntryModel, Index, LogEntry, NodeId, Snapshot, SnapshotModel, Term};
use vstd::prelude::*;

verus! {

/// A candidate's request for a vote in an election.
///
/// A recipient grants its vote only if it has not already voted in this term
/// and the candidate's log is at least as up to date as its own.
#[derive(Clone, Copy, Debug, PartialEq, Eq, Structural)]
pub struct RequestVote {
    /// The candidate's term.
    pub term: Term,
    /// The candidate requesting the vote.
    pub candidate: NodeId,
    /// Index of the candidate's last log entry.
    pub last_log_index: Index,
    /// Term of the candidate's last log entry.
    pub last_log_term: Term,
    /// A forced election, part of a leadership transfer. A recipient honours it
    /// even while it still recognises an active leader.
    pub force: bool,
}

/// A candidate's probe, sent before a real election.
///
/// It asks whether the recipient would vote for the candidate, and changes no
/// state on either side.
#[derive(Clone, Copy, Debug, PartialEq, Eq, Structural)]
pub struct PreVote {
    /// The hypothetical term the candidate would campaign at. A recipient
    /// neither stores it nor steps down for it.
    pub term: Term,
    /// The candidate seeking the pre-vote.
    pub candidate: NodeId,
    /// Index of the candidate's last log entry.
    pub last_log_index: Index,
    /// Term of the candidate's last log entry.
    pub last_log_term: Term,
}

/// A peer's response to a [`PreVote`].
#[derive(Clone, Copy, Debug, PartialEq, Eq, Structural)]
pub struct PreVoteReply {
    /// The responder's current term, unchanged by the pre-vote.
    pub term: Term,
    /// Whether the responder would grant a real vote under these conditions.
    pub vote_granted: bool,
    /// The node that produced this reply.
    pub from: NodeId,
}

/// A peer's response to a [`RequestVote`].
///
/// `from` names the responder so the candidate can count distinct votes without
/// depending on transport-level addressing.
#[derive(Clone, Copy, Debug, PartialEq, Eq, Structural)]
pub struct RequestVoteReply {
    /// The responder's current term, for the candidate to update itself.
    pub term: Term,
    /// Whether the responder granted its vote.
    pub vote_granted: bool,
    /// The node that produced this reply.
    pub from: NodeId,
}

/// The leader's replicate-and-heartbeat RPC.
///
/// With no entries it is a pure heartbeat. The `prev_log_index` /
/// `prev_log_term` pair lets the follower verify that its log matches the
/// leader's up to that point before accepting anything new.
#[derive(Debug, PartialEq, Eq)]
pub struct AppendEntries {
    /// The leader's term.
    pub term: Term,
    /// The leader sending the RPC, so followers can record it.
    pub leader: NodeId,
    /// Index of the log entry immediately preceding the new ones.
    pub prev_log_index: Index,
    /// Term of the entry at `prev_log_index`.
    pub prev_log_term: Term,
    /// Entries to store (empty for a heartbeat).
    pub entries: Vec<LogEntry>,
    /// The leader's commit index, so followers can advance their own.
    pub leader_commit: Index,
}

/// A follower's response to an [`AppendEntries`].
///
/// On a rejection the `conflict_*` fields let the leader skip the follower's
/// next index back by a whole term in one round trip. They are `0` on success.
#[derive(Clone, Copy, Debug, PartialEq, Eq, Structural)]
pub struct AppendEntriesReply {
    /// The follower's current term, for the leader to update itself.
    pub term: Term,
    /// Whether the follower accepted the RPC.
    pub success: bool,
    /// The node that produced this reply.
    pub from: NodeId,
    /// Highest log index the follower now matches with the leader.
    pub match_index: Index,
    /// On rejection, the index the leader should probe next: the follower's
    /// first index of `conflict_term`, its log length plus one when the log is
    /// simply too short, or one past what it has committed when its snapshot
    /// covers `prev_log_index`.
    pub conflict_index: Index,
    /// On rejection, the term of the follower's entry at `prev_log_index`, or
    /// `0` when the follower can read no entry there.
    pub conflict_term: Term,
}

/// A leader's transfer of a [`Snapshot`] to a follower too far behind to
/// replicate entry by entry.
#[derive(Debug, PartialEq, Eq)]
pub struct InstallSnapshot {
    /// The leader's term.
    pub term: Term,
    /// The leader sending the snapshot.
    pub leader: NodeId,
    /// The snapshot to install.
    pub snapshot: Snapshot,
}

/// A follower's response to an [`InstallSnapshot`].
#[derive(Clone, Copy, Debug, PartialEq, Eq, Structural)]
pub struct InstallSnapshotReply {
    /// The follower's current term, for the leader to update itself.
    pub term: Term,
    /// The node that produced this reply.
    pub from: NodeId,
    /// The index through which the follower now covers the log.
    pub last_index: Index,
}

/// A leader's signal telling the target of a leadership transfer to start an
/// election immediately.
#[derive(Clone, Copy, Debug, PartialEq, Eq, Structural)]
pub struct TimeoutNow {
    /// The leader's term.
    pub term: Term,
    /// The leader handing off leadership.
    pub leader: NodeId,
}

/// Any message a node can send or receive.
///
/// The enum is `#[non_exhaustive]`: variants may be added at the end, so a
/// `match` over it must hold a wildcard arm.
#[non_exhaustive]
#[derive(Debug, PartialEq, Eq)]
pub enum Message {
    /// A candidate is probing for support before a real election.
    PreVote(PreVote),
    /// A peer is answering a pre-vote probe.
    PreVoteReply(PreVoteReply),
    /// A candidate is asking for a vote.
    RequestVote(RequestVote),
    /// A peer is answering a vote request.
    RequestVoteReply(RequestVoteReply),
    /// A leader is replicating entries or sending a heartbeat.
    AppendEntries(AppendEntries),
    /// A follower is answering an append.
    AppendEntriesReply(AppendEntriesReply),
    /// A leader is shipping a snapshot to a far-behind follower.
    InstallSnapshot(InstallSnapshot),
    /// A follower is acknowledging an installed snapshot.
    InstallSnapshotReply(InstallSnapshotReply),
    /// A leader is handing off leadership, telling the target to campaign now.
    TimeoutNow(TimeoutNow),
}

/// The mathematical content of an [`AppendEntries`].
#[verifier::ext_equal]
pub struct AppendModel {
    pub term: Term,
    pub leader: NodeId,
    pub prev_log_index: Index,
    pub prev_log_term: Term,
    pub entries: Seq<EntryModel>,
    pub leader_commit: Index,
}

impl View for AppendEntries {
    type V = AppendModel;

    open spec fn view(&self) -> AppendModel {
        AppendModel {
            term: self.term,
            leader: self.leader,
            prev_log_index: self.prev_log_index,
            prev_log_term: self.prev_log_term,
            entries: crate::types::entry_models(self.entries@),
            leader_commit: self.leader_commit,
        }
    }
}

impl Clone for AppendEntries {
    fn clone(&self) -> (r: Self)
        ensures
            r@ == self@,
    {
        AppendEntries {
            term: self.term,
            leader: self.leader,
            prev_log_index: self.prev_log_index,
            prev_log_term: self.prev_log_term,
            entries: clone_entries(self.entries.as_slice()),
            leader_commit: self.leader_commit,
        }
    }
}

/// The mathematical content of an [`InstallSnapshot`].
#[verifier::ext_equal]
pub struct InstallModel {
    pub term: Term,
    pub leader: NodeId,
    pub snapshot: SnapshotModel,
}

impl View for InstallSnapshot {
    type V = InstallModel;

    open spec fn view(&self) -> InstallModel {
        InstallModel { term: self.term, leader: self.leader, snapshot: self.snapshot@ }
    }
}

impl Clone for InstallSnapshot {
    fn clone(&self) -> (r: Self)
        ensures
            r@ == self@,
    {
        InstallSnapshot {
            term: self.term,
            leader: self.leader,
            snapshot: self.snapshot.clone(),
        }
    }
}

/// The mathematical content of a [`Message`].
#[verifier::ext_equal]
pub enum MessageModel {
    PreVote(PreVote),
    PreVoteReply(PreVoteReply),
    RequestVote(RequestVote),
    RequestVoteReply(RequestVoteReply),
    AppendEntries(AppendModel),
    AppendEntriesReply(AppendEntriesReply),
    InstallSnapshot(InstallModel),
    InstallSnapshotReply(InstallSnapshotReply),
    TimeoutNow(TimeoutNow),
}

impl View for Message {
    type V = MessageModel;

    open spec fn view(&self) -> MessageModel {
        match *self {
            Message::PreVote(m) => MessageModel::PreVote(m),
            Message::PreVoteReply(m) => MessageModel::PreVoteReply(m),
            Message::RequestVote(m) => MessageModel::RequestVote(m),
            Message::RequestVoteReply(m) => MessageModel::RequestVoteReply(m),
            Message::AppendEntries(m) => MessageModel::AppendEntries(m@),
            Message::AppendEntriesReply(m) => MessageModel::AppendEntriesReply(m),
            Message::InstallSnapshot(m) => MessageModel::InstallSnapshot(m@),
            Message::InstallSnapshotReply(m) => MessageModel::InstallSnapshotReply(m),
            Message::TimeoutNow(m) => MessageModel::TimeoutNow(m),
        }
    }
}

impl Clone for Message {
    fn clone(&self) -> (r: Self)
        ensures
            r@ == self@,
    {
        match self {
            Message::PreVote(m) => Message::PreVote(*m),
            Message::PreVoteReply(m) => Message::PreVoteReply(*m),
            Message::RequestVote(m) => Message::RequestVote(*m),
            Message::RequestVoteReply(m) => Message::RequestVoteReply(*m),
            Message::AppendEntries(m) => Message::AppendEntries(m.clone()),
            Message::AppendEntriesReply(m) => Message::AppendEntriesReply(*m),
            Message::InstallSnapshot(m) => Message::InstallSnapshot(m.clone()),
            Message::InstallSnapshotReply(m) => Message::InstallSnapshotReply(*m),
            Message::TimeoutNow(m) => Message::TimeoutNow(*m),
        }
    }
}

impl MessageModel {
    /// The term the message carries, whatever its variant.
    pub open spec fn term(self) -> Term {
        match self {
            MessageModel::PreVote(m) => m.term,
            MessageModel::PreVoteReply(m) => m.term,
            MessageModel::RequestVote(m) => m.term,
            MessageModel::RequestVoteReply(m) => m.term,
            MessageModel::AppendEntries(m) => m.term,
            MessageModel::AppendEntriesReply(m) => m.term,
            MessageModel::InstallSnapshot(m) => m.term,
            MessageModel::InstallSnapshotReply(m) => m.term,
            MessageModel::TimeoutNow(m) => m.term,
        }
    }
}

impl Message {
    /// Returns the term carried by the message, whatever its variant.
    #[must_use]
    pub fn term(&self) -> (r: Term)
        ensures
            r == self@.term(),
    {
        match self {
            Message::PreVote(m) => m.term,
            Message::PreVoteReply(m) => m.term,
            Message::RequestVote(m) => m.term,
            Message::RequestVoteReply(m) => m.term,
            Message::AppendEntries(m) => m.term,
            Message::AppendEntriesReply(m) => m.term,
            Message::InstallSnapshot(m) => m.term,
            Message::InstallSnapshotReply(m) => m.term,
            Message::TimeoutNow(m) => m.term,
        }
    }
}

} // verus!
