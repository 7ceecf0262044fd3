//! Core value types shared across the protocol.
//!
//! These are deliberately plain: a [`NodeId`], the monotonic [`Term`] and
//! [`Index`] counters, the [`Role`] a node currently plays, a single
//! [`LogEntry`], the [`HardState`] that Raft requires to survive a restart and
//! the [`Snapshot`] that stands for a compacted log prefix. Contracts speak of
//! entries and snapshots through their models, [`EntryModel`] and
//! [`SnapshotModel`].

use crate::members::sort_ids;
use vstd::bytes::{u64_from_le_bytes, u64_to_le_bytes};
use vstd::prelude::*;

verus! {

/// Identifier for a node in the cluster.
///
/// Identifiers are opaque to the protocol; any scheme is fine as long as each
/// node in a cluster has a distinct, stable value.
pub type NodeId = u64;

/// A Raft term: a monotonically increasing logical clock.
///
/// Terms partition time into epochs, each beginning with an election. Term `0`
/// is the initial value before any election.
pub type Term = u64;

/// Position of an entry in the replicated log.
///
/// Indices are 1-based: the first appended entry has index `1`, and index `0`
/// is the sentinel meaning "before the first entry" (with term `0`).
pub type Index = u64;

/// The role a node currently plays in the consensus protocol.
///
/// A node is always in exactly one role. It starts as a follower, may become a
/// candidate when it stops hearing from a leader, and becomes a leader if it
/// wins an election.
#[derive(Clone, Copy, Debug, PartialEq, Eq, Hash, Structural)]
pub enum Role {
    /// Passive replica: serves the leader and votes in elections.
    Follower,
    /// Standing for election in the current term, collecting votes.
    Candidate,
    /// Won the election for the current term; drives replication.
    Leader,
}

/// What a log entry carries.
#[derive(Clone, Copy, Debug, PartialEq, Eq, Hash, Structural)]
pub enum EntryKind {
    /// An application command: ordered and replicated, never interpreted.
    Normal,
    /// A cluster configuration: adopted by the protocol, never applied.
    Config,
}

/// A single entry in the replicated log.
///
/// A [`Normal`](EntryKind::Normal) entry's command is opaque bytes that the
/// application decodes when the entry is applied. A
/// [`Config`](EntryKind::Config) entry's command encodes the voting members.
/// The term in which the leader created the entry and its index in the log
/// together identify it.
#[derive(Debug, PartialEq, Eq)]
pub struct LogEntry {
    /// Term in which the leader created this entry.
    pub term: Term,
    /// 1-based position of this entry in the log.
    pub index: Index,
    /// Whether the command is the application's or a configuration.
    pub kind: EntryKind,
    /// The command bytes.
    pub command: Vec<u8>,
}

/// The mathematical content of a [`LogEntry`].
#[verifier::ext_equal]
pub struct EntryModel {
    pub term: Term,
    pub index: Index,
    pub kind: EntryKind,
    pub command: Seq<u8>,
}

impl View for LogEntry {
    type V = EntryModel;

    open spec fn view(&self) -> EntryModel {
        EntryModel {
            term: self.term,
            index: self.index,
            kind: self.kind,
            command: self.command@,
        }
    }
}

/// The configuration encoding: each id as eight little-endian bytes, one after
/// the other.
pub open spec fn members_bytes(ids: Seq<u64>) -> Seq<u8>
    decreases ids.len(),
{
    if ids.len() == 0 {
        Seq::empty()
    } else {
        members_bytes(ids.drop_last()) + vstd::bytes::spec_u64_to_le_bytes(ids.last())
    }
}

/// The ids that `bytes` encodes: one per whole group of eight bytes. A trailing
/// partial group is ignored.
pub open spec fn members_from_bytes(bytes: Seq<u8>) -> Seq<u64> {
    Seq::new(
        (bytes.len() / 8) as nat,
        |i: int| vstd::bytes::spec_u64_from_le_bytes(bytes.subrange(8 * i, 8 * i + 8)),
    )
}

impl EntryModel {
    /// A command entry.
    pub open spec fn normal(term: Term, index: Index, command: Seq<u8>) -> EntryModel {
        EntryModel { term, index, kind: EntryKind::Normal, command }
    }

    /// A configuration entry for the members `ids`, in ascending order.
    pub open spec fn config(term: Term, index: Index, ids: Seq<u64>) -> EntryModel {
        EntryModel {
            term,
            index,
            kind: EntryKind::Config,
            command: members_bytes(crate::members::sorted_ids(ids)),
        }
    }

    /// The voting members the entry carries; `None` for a command.
    pub open spec fn members(self) -> Option<Seq<u64>> {
        if self.kind == EntryKind::Config {
            Some(members_from_bytes(self.command))
        } else {
            None
        }
    }
}

/// Encoding a configuration and reading it back gives the ids unchanged.
pub proof fn lemma_members_round_trip(ids: Seq<u64>)
    ensures
        members_bytes(ids).len() == 8 * ids.len(),
        members_from_bytes(members_bytes(ids)) == ids,
    decreases ids.len(),
{
    vstd::bytes::lemma_auto_spec_u64_to_from_le_bytes();
    if ids.len() > 0 {
        let short = ids.drop_last();
        lemma_members_round_trip(short);
        let bytes = members_bytes(ids);
        let head = members_bytes(short);
        let tail = vstd::bytes::spec_u64_to_le_bytes(ids.last());
        assert(bytes == head + tail);
        assert forall|i: int| 0 <= i < ids.len() implies members_from_bytes(bytes)[i] == ids[i] by {
            if i < short.len() {
                assert(bytes.subrange(8 * i, 8 * i + 8) =~= head.subrange(8 * i, 8 * i + 8));
                assert(members_from_bytes(head)[i] == short[i]);
            } else {
                assert(bytes.subrange(8 * i, 8 * i + 8) =~= tail);
            }
        }
        assert(members_from_bytes(bytes) =~= ids);
    } else {
        assert(members_from_bytes(members_bytes(ids)) =~= ids);
    }
}

/// A configuration entry gives back exactly the members it was made from, in
/// ascending order, each once.
pub proof fn law_config_entry_carries_its_members(term: Term, index: Index, ids: Seq<u64>)
    ensures
        EntryModel::config(term, index, ids).members() == Some(crate::members::sorted_ids(ids)),
        crate::members::ascending(crate::members::sorted_ids(ids)),
        forall|x: u64| #[trigger]
            crate::members::sorted_ids(ids).contains(x) <==> ids.contains(x),
{
    crate::members::lemma_sorted_ids(ids);
    lemma_members_round_trip(crate::members::sorted_ids(ids));
}

/// A configuration is the ids one after the other, each as eight little-endian bytes.
/// Reading takes every whole group of eight bytes for an id, in order, and ignores what
/// is left over.
pub proof fn law_the_bytes_of_a_configuration(ids: Seq<u64>, bytes: Seq<u8>, i: int)
    ensures
        members_bytes(ids).len() == 8 * ids.len(),
        0 <= i < ids.len() ==> members_bytes(ids).subrange(8 * i, 8 * i + 8)
            == vstd::bytes::spec_u64_to_le_bytes(ids[i]),
        members_from_bytes(bytes).len() == bytes.len() / 8,
        0 <= i < bytes.len() / 8 ==> vstd::bytes::spec_u64_to_le_bytes(members_from_bytes(bytes)[i])
            == bytes.subrange(8 * i, 8 * i + 8),
    decreases ids.len(),
{
    vstd::bytes::lemma_auto_spec_u64_to_from_le_bytes();
    lemma_members_round_trip(ids);
    if 0 <= i < ids.len() {
        let short = ids.drop_last();
        let head = members_bytes(short);
        lemma_members_round_trip(short);
        if i < short.len() {
            law_the_bytes_of_a_configuration(short, bytes, i);
            assert(members_bytes(ids).subrange(8 * i, 8 * i + 8) =~= head.subrange(
                8 * i,
                8 * i + 8,
            ));
        } else {
            assert(members_bytes(ids).subrange(8 * i, 8 * i + 8)
                =~= vstd::bytes::spec_u64_to_le_bytes(ids.last()));
        }
    }
}

impl LogEntry {
    /// Creates a command entry at `index` in `term` carrying `command`.
    #[must_use]
    pub fn new(term: Term, index: Index, command: Vec<u8>) -> (r: Self)
        ensures
            r@ == EntryModel::normal(term, index, command@),
    {
        LogEntry { term, index, kind: EntryKind::Normal, command }
    }

    /// Creates a configuration entry at `index` in `term` for the voting
    /// `members`.
    ///
    /// The ids are encoded in ascending order, each as a little-endian `u64`.
    #[must_use]
    pub fn config(term: Term, index: Index, members: &[NodeId]) -> (r: Self)
        ensures
            r@ == EntryModel::config(term, index, members@),
    {
        let ids = sort_ids(members);
        let mut command: Vec<u8> = Vec::new();
        let mut i: usize = 0;
        while i < ids.len()
            invariant
                i <= ids@.len(),
                command@ == members_bytes(ids@.take(i as int)),
            decreases ids@.len() - i,
        {
            proof {
                assert(ids@.take(i + 1).drop_last() =~= ids@.take(i as int));
            }
            let mut word = u64_to_le_bytes(ids[i]);
            command.append(&mut word);
            i = i + 1;
        }
        assert(ids@.take(ids@.len() as int) =~= ids@);
        LogEntry { term, index, kind: EntryKind::Config, command }
    }

    /// Returns the voting members a configuration entry carries, or `None` for
    /// a command entry.
    ///
    /// A trailing partial group of bytes, reachable only through corruption, is
    /// ignored.
    #[must_use]
    pub fn members(&self) -> (r: Option<Vec<NodeId>>)
        ensures
            match r {
                Some(ids) => self@.members() == Some(ids@),
                None => self@.members() is None,
            },
    {
        if self.kind == EntryKind::Config {
            let mut out: Vec<u64> = Vec::new();
            let count: usize = self.command.len() / 8;
            let mut i: usize = 0;
            let ghost all = members_from_bytes(self.command@);
            while i < count
                invariant
                    i <= count,
                    count == self.command@.len() / 8,
                    self.command@.len() <= usize::MAX,
                    all == members_from_bytes(self.command@),
                    out@ == all.take(i as int),
                decreases count - i,
            {
                assert(8 * i + 8 <= self.command@.len());
                let id: u64 = u64_from_le_bytes(
                    vstd::slice::slice_subrange(self.command.as_slice(), 8 * i, 8 * i + 8),
                );
                assert(id == all[i as int]);
                out.push(id);
                i = i + 1;
                assert(all.take(i as int) =~= all.take(i - 1).push(id));
            }
            assert(all.take(count as int) =~= all);
            Some(out)
        } else {
            None
        }
    }
}

/// Clones the bytes of `bytes`.
pub fn copy_bytes(bytes: &[u8]) -> (r: Vec<u8>)
    ensures
        r@ == bytes@,
{
    let mut out: Vec<u8> = Vec::with_capacity(bytes.len());
    let mut i: usize = 0;
    while i < bytes.len()
        invariant
            i <= bytes@.len(),
            out@ == bytes@.take(i as int),
        decreases bytes@.len() - i,
    {
        out.push(bytes[i]);
        i = i + 1;
        assert(bytes@.take(i as int) =~= bytes@.take(i - 1).push(bytes@[i - 1]));
    }
    assert(bytes@.take(bytes@.len() as int) =~= bytes@);
    out
}

/// Clones the ids of `ids`.
pub fn copy_ids(ids: &[NodeId]) -> (r: Vec<NodeId>)
    ensures
        r@ == ids@,
{
    let mut out: Vec<NodeId> = Vec::with_capacity(ids.len());
    let mut i: usize = 0;
    while i < ids.len()
        invariant
            i <= ids@.len(),
            out@ == ids@.take(i as int),
        decreases ids@.len() - i,
    {
        out.push(ids[i]);
        i = i + 1;
        assert(ids@.take(i as int) =~= ids@.take(i - 1).push(ids@[i - 1]));
    }
    assert(ids@.take(ids@.len() as int) =~= ids@);
    out
}

impl Clone for LogEntry {
    fn clone(&self) -> (r: Self)
        ensures
            r@ == self@,
    {
        LogEntry {
            term: self.term,
            index: self.index,
            kind: self.kind,
            command: copy_bytes(self.command.as_slice()),
        }
    }
}

/// The models of a run of entries.
pub open spec fn entry_models(entries: Seq<LogEntry>) -> Seq<EntryModel> {
    Seq::new(entries.len(), |i: int| entries[i]@)
}

/// Clones a run of entries.
pub fn clone_entries(entries: &[LogEntry]) -> (r: Vec<LogEntry>)
    ensures
        entry_models(r@) == entry_models(entries@),
{
    let mut out: Vec<LogEntry> = Vec::with_capacity(entries.len());
    let mut i: usize = 0;
    while i < entries.len()
        invariant
            i <= entries@.len(),
            entry_models(out@) == entry_models(entries@.take(i as int)),
        decreases entries@.len() - i,
    {
        let ghost before = out@;
        out.push(entries[i].clone());
        i = i + 1;
        proof {
            assert(entry_models(out@) =~= entry_models(before).push(entries@[i - 1]@));
            assert(entry_models(entries@.take(i as int)) =~= entry_models(
                entries@.take(i - 1),
            ).push(entries@[i - 1]@));
        }
    }
    assert(entries@.take(entries@.len() as int) =~= entries@);
    out
}

/// The state Raft must persist before responding to any RPC.
///
/// Safety depends on the term and the vote surviving a crash: a node that
/// forgot it had already voted in a term could vote twice and help elect two
/// leaders.
#[derive(Clone, Copy, Debug, PartialEq, Eq, Structural)]
pub struct HardState {
    /// The latest term the node has seen.
    pub term: Term,
    /// The candidate this node voted for in `term`, if any.
    pub voted_for: Option<NodeId>,
}

impl HardState {
    /// The hard state of a node that has seen no election.
    pub open spec fn initial() -> HardState {
        HardState { term: 0, voted_for: None }
    }
}

impl Default for HardState {
    fn default() -> (r: Self)
        ensures
            r == HardState::initial(),
    {
        HardState { term: 0, voted_for: None }
    }
}

/// A point-in-time capture of the application's state machine, with the log
/// position it covers.
///
/// A snapshot lets the log discard the entries it subsumes and lets a leader
/// catch up a follower that has fallen too far behind. The protocol moves the
/// data but never interprets it.
#[derive(Debug, PartialEq, Eq)]
pub struct Snapshot {
    /// Index of the last log entry the snapshot includes.
    pub index: Index,
    /// Term of the last log entry the snapshot includes.
    pub term: Term,
    /// The voting members in effect at `index`.
    pub config: Vec<NodeId>,
    /// Opaque serialized state machine state.
    pub data: Vec<u8>,
}

/// The mathematical content of a [`Snapshot`].
#[verifier::ext_equal]
pub struct SnapshotModel {
    pub index: Index,
    pub term: Term,
    pub config: Seq<NodeId>,
    pub data: Seq<u8>,
}

impl View for Snapshot {
    type V = SnapshotModel;

    open spec fn view(&self) -> SnapshotModel {
        SnapshotModel {
            index: self.index,
            term: self.term,
            config: self.config@,
            data: self.data@,
        }
    }
}

impl Snapshot {
    /// Creates a snapshot covering the log through `index` (created in `term`),
    /// carrying serialized state `data` and no configuration.
    #[must_use]
    pub fn new(index: Index, term: Term, data: Vec<u8>) -> (r: Self)
        ensures
            r@ == (SnapshotModel { index, term, config: Seq::empty(), data: data@ }),
    {
        let config: Vec<NodeId> = Vec::new();
        Snapshot { index, term, config, data }
    }

    /// Creates a snapshot that also records the voting members in effect at
    /// `index`.
    #[must_use]
    pub fn with_config(index: Index, term: Term, config: Vec<NodeId>, data: Vec<u8>) -> (r: Self)
        ensures
            r@ == (SnapshotModel { index, term, config: config@, data: data@ }),
    {
        Snapshot { index, term, config, data }
    }
}

impl Clone for Snapshot {
    fn clone(&self) -> (r: Self)
        ensures
            r@ == self@,
    {
        Snapshot {
            index: self.index,
            term: self.term,
            config: copy_ids(self.config.as_slice()),
            data: copy_bytes(self.data.as_slice()),
        }
    }
}

} // verus!
