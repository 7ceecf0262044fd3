//! The mathematical model of a node, and the transition each event causes.
//!
//! [`NodeModel`] is what a node is: its settings, its log, and its volatile
//! state. [`NodeModel::step`] is the protocol: for a state and an event, the
//! next state and the actions for the caller, in order. It is a function, so
//! the protocol is deterministic. The executable node is proved to follow it.

use crate::config::ConfigModel;
use crate::error::ErrorModel;
use crate::log::LogModel;
use crate::message::{
    AppendEntriesReply, AppendModel, InstallModel, InstallSnapshotReply, MessageModel, PreVote,
    PreVoteReply, RequestVote, RequestVoteReply, TimeoutNow,
};
use crate::types::{EntryKind, EntryModel, HardState, Index, NodeId, Role, SnapshotModel, Term};
use vstd::prelude::*;

verus! {

/// What a leader knows of one other voter's log.
#[derive(Clone, Copy, Debug, PartialEq, Eq, Structural)]
pub struct Progress {
    /// The voter.
    pub peer: NodeId,
    /// Index of the next entry to send.
    pub next: Index,
    /// Highest index known to agree with the leader's log.
    pub matched: Index,
    /// The point of agreement is known, so batches are sent without waiting.
    pub streaming: bool,
}

impl Progress {
    /// Nothing is known yet of a voter's log.
    pub open spec fn fresh(peer: NodeId, next: Index) -> Progress {
        Progress { peer, next, matched: 0, streaming: false }
    }

    /// The voter's log is known to agree through `index` as well.
    pub open spec fn agreeing(self, index: Index) -> Progress {
        let matched = if index > self.matched {
            index
        } else {
            self.matched
        };
        Progress {
            matched,
            next: if self.next > matched {
                self.next
            } else {
                (matched + 1) as Index
            },
            streaming: true,
            ..self
        }
    }
}

/// The mathematical content of an event.
#[verifier::ext_equal]
pub enum EventModel {
    Tick,
    Message(MessageModel),
    Propose(Seq<u8>),
    Snapshot { index: Index, data: Seq<u8> },
    AddServer(NodeId),
    RemoveServer(NodeId),
    TransferLeadership(NodeId),
}

/// The mathematical content of an action.
#[verifier::ext_equal]
pub enum ActionModel {
    Send { to: NodeId, message: MessageModel },
    Apply { index: Index, term: Term, command: Seq<u8> },
    Snapshot { index: Index, term: Term },
    RestoreSnapshot { index: Index, term: Term, data: Seq<u8> },
    MembershipChanged { members: Seq<NodeId> },
}

/// What a node is at one moment.
#[verifier::ext_equal]
pub struct NodeModel {
    pub cfg: ConfigModel,
    pub log: LogModel,
    pub role: Role,
    pub term: Term,
    pub voted_for: Option<NodeId>,
    pub leader: Option<NodeId>,
    pub commit: Index,
    pub applied: Index,
    pub election_elapsed: u32,
    pub leader_elapsed: u32,
    pub heartbeat_elapsed: u32,
    pub election_timeout: u32,
    pub votes: Seq<NodeId>,
    pub rng: u64,
    pub members: Seq<NodeId>,
    pub progress: Seq<Progress>,
    pub transfer: Option<NodeId>,
}

/// What an event leads to.
#[verifier::ext_equal]
pub enum StepModel {
    /// The request is declined and the node stays as it is.
    Refused(ErrorModel),
    /// The node moves to a new state and hands out actions.
    Moved(NodeModel, Seq<ActionModel>),
}

/// The voters that an entry puts in place: those of a configuration entry that
/// names at least one.
pub open spec fn voters_in(entry: EntryModel) -> Option<Seq<NodeId>> {
    match entry.members() {
        Some(ids) => if ids.len() > 0 {
            Some(crate::members::sorted_ids(ids))
        } else {
            None
        },
        None => None,
    }
}

/// The position just past the last entry of `entries` that puts voters in
/// place, `0` if there is none.
pub open spec fn config_end(entries: Seq<EntryModel>) -> int
    decreases entries.len(),
{
    if entries.len() == 0 {
        0
    } else if voters_in(entries.last()) is Some {
        entries.len() as int
    } else {
        config_end(entries.drop_last())
    }
}

/// The position of the first of `entries`, from `at` on, that `log` does not
/// hold with the same term.
pub open spec fn first_new(log: LogModel, entries: Seq<EntryModel>, at: int) -> int
    decreases entries.len() - at,
{
    if at >= entries.len() {
        entries.len() as int
    } else if log.term_at(entries[at].index as int) == Some(entries[at].term) {
        first_new(log, entries, at + 1)
    } else {
        at
    }
}

/// The `Apply` actions for a run of committed entries: one per command, none
/// for a configuration.
pub open spec fn applies(entries: Seq<EntryModel>) -> Seq<ActionModel>
    decreases entries.len(),
{
    if entries.len() == 0 {
        Seq::empty()
    } else {
        let e = entries.last();
        let before = applies(entries.drop_last());
        if e.kind == EntryKind::Normal {
            before.push(ActionModel::Apply { index: e.index, term: e.term, command: e.command })
        } else {
            before
        }
    }
}

/// The position in `progress` of what is known of `peer`, or its length.
pub open spec fn slot_of(progress: Seq<Progress>, peer: NodeId) -> int
    decreases progress.len(),
{
    if progress.len() == 0 {
        0
    } else if slot_of(progress.drop_last(), peer) < progress.len() - 1 {
        slot_of(progress.drop_last(), peer)
    } else if progress.last().peer == peer {
        progress.len() - 1
    } else {
        progress.len() as int
    }
}

impl LogModel {
    /// The voters in effect after the entry at `index`, by the log alone: those
    /// of the latest configuration entry up to there, or of the snapshot.
    pub open spec fn voters_at(self, index: int) -> Option<Seq<NodeId>> {
        let upto = self.between(self.base_index() + 1, index);
        let end = config_end(upto);
        if end > 0 {
            voters_in(upto[end - 1])
        } else {
            match self.snapshot {
                Some(s) => if s.config.len() > 0 {
                    Some(crate::members::sorted_ids(s.config))
                } else {
                    None
                },
                None => None,
            }
        }
    }

    /// Index of the latest configuration entry held, `0` if there is none.
    pub open spec fn config_index(self) -> int {
        let end = config_end(self.entries);
        if end > 0 {
            self.base_index() + end
        } else {
            0
        }
    }

    /// First index of the run of entries that ends at `index` and has one term.
    pub open spec fn run_start(self, index: int) -> int
        decreases index,
    {
        if index >= 1 && self.holds(index) && self.holds(index - 1) && self.at(index - 1).term
            == self.at(index).term {
            self.run_start(index - 1)
        } else {
            index
        }
    }

    /// Greatest index up to `index`, from the base on, whose term is `term`; `0`
    /// if there is none.
    pub open spec fn last_of_term(self, term: Term, index: int) -> int
        decreases index,
    {
        if index <= 0 || index < self.base_index() {
            0
        } else if self.term_at(index) == Some(term) {
            index
        } else {
            self.last_of_term(term, index - 1)
        }
    }

    /// The log agrees with a leader's at `index`, where the leader's has `term`.
    pub open spec fn agrees_at(self, index: int, term: Term) -> bool {
        index == 0 || self.term_at(index) == Some(term)
    }

    /// The part of a batch following `prev` that the snapshot does not cover.
    pub open spec fn uncovered(self, prev: int, entries: Seq<EntryModel>) -> Seq<EntryModel> {
        entries.skip(crate::log::clamp(self.base_index() - prev, 0, entries.len() as int))
    }

    /// The log with the entries of a leader's batch in place: from the first one
    /// it does not hold on, its own tail gives way.
    pub open spec fn merge(self, entries: Seq<EntryModel>) -> LogModel {
        let k = first_new(self, entries, 0);
        if k >= entries.len() {
            self
        } else {
            self.truncate(entries[k].index as int).append(entries.skip(k))
        }
    }
}

/// A batch runs on from `prev` without gap, and leaves room for another index.
pub open spec fn follows(prev: int, entries: Seq<EntryModel>) -> bool {
    &&& forall|i: int|
        0 <= i < entries.len() ==> (#[trigger] entries[i]).index == prev + 1 + i
    &&& prev + entries.len() < u64::MAX
}

/// One more than `count`, as far as it can be counted.
pub open spec fn counted_up(count: u32) -> u32 {
    if count < u32::MAX {
        (count + 1) as u32
    } else {
        count
    }
}

impl NodeModel {
    // ---- what is derived from the state ----------------------------------

    /// The voters a node starts out with: itself and its peers.
    pub open spec fn bootstrap(cfg: ConfigModel) -> Seq<NodeId> {
        crate::members::sorted_ids(cfg.peers.push(cfg.id))
    }

    /// The voters in effect after the entry at `index`.
    pub open spec fn voters_at(self, index: int) -> Seq<NodeId> {
        match self.log.voters_at(index) {
            Some(ids) => ids,
            None => NodeModel::bootstrap(self.cfg),
        }
    }

    /// The voters in effect: the latest configuration in the log counts, whether
    /// committed or not.
    pub open spec fn voters(self) -> Seq<NodeId> {
        self.voters_at(self.log.last_index())
    }

    /// A majority of the voters.
    pub open spec fn quorum(self) -> nat {
        (self.members.len() / 2 + 1) as nat
    }

    /// Says whether this node votes.
    pub open spec fn is_voter(self) -> bool {
        self.members.contains(self.cfg.id)
    }

    /// The voters other than this node, in the order in which they are sent to:
    /// while the voters are those it was configured with, the order of its peers,
    /// each once, and after a change the ascending order.
    pub open spec fn others(self) -> Seq<NodeId> {
        if self.members == NodeModel::bootstrap(self.cfg) {
            crate::members::distinct(crate::members::without(self.cfg.peers, self.cfg.id))
        } else {
            crate::members::without(self.members, self.cfg.id)
        }
    }

    /// A leader is recognised and has been heard from within the minimum
    /// election timeout. A leader hears from itself.
    pub open spec fn leader_is_active(self) -> bool {
        self.role == Role::Leader || (self.leader is Some && self.leader_elapsed
            < self.cfg.election_timeout_min)
    }

    /// A log ending at `(term, index)` is at least as up to date as this node's.
    pub open spec fn up_to_date(self, term: Term, index: Index) -> bool {
        term > self.log.last_term() || (term == self.log.last_term() && index
            >= self.log.last_index())
    }

    /// Highest index known to be in `member`'s log.
    pub open spec fn matched(self, member: NodeId) -> int {
        if member == self.cfg.id {
            self.log.last_index()
        } else {
            self.progress[slot_of(self.progress, member)].matched as int
        }
    }

    /// Whether a member is known to hold the log through `index`.
    pub open spec fn holds_through(self, index: int) -> spec_fn(NodeId) -> bool {
        |m: NodeId| self.matched(m) >= index
    }

    /// The voters known to hold the log through `index`.
    pub open spec fn holders(self, index: int) -> Seq<NodeId> {
        self.members.filter(self.holds_through(index))
    }

    /// A leader may count `index` as committed: a majority holds it, and it was
    /// created in the current term.
    pub open spec fn may_commit(self, index: int) -> bool {
        self.holders(index).len() >= self.quorum() && self.log.term_at(index) == Some(self.term)
    }

    /// The greatest index up to `index` that a leader may newly commit, or the
    /// present commit index.
    pub open spec fn commit_target(self, index: int) -> int
        decreases index,
    {
        if index <= self.commit {
            self.commit as int
        } else if self.may_commit(index) {
            index
        } else {
            self.commit_target(index - 1)
        }
    }

    /// A leader has committed all that it may.
    pub open spec fn caught_up(self) -> bool {
        self.role == Role::Leader ==> self.commit_target(self.log.last_index()) == self.commit
    }

    /// The message that brings a voter forward from what is known of its log: the
    /// snapshot if its next entry is gone, else the next batch.
    pub open spec fn outgoing(self, p: Progress) -> MessageModel {
        if p.next <= self.log.base_index() {
            MessageModel::InstallSnapshot(
                InstallModel {
                    term: self.term,
                    leader: self.cfg.id,
                    snapshot: self.log.snapshot->0,
                },
            )
        } else {
            MessageModel::AppendEntries(
                AppendModel {
                    term: self.term,
                    leader: self.cfg.id,
                    prev_log_index: (p.next - 1) as Index,
                    prev_log_term: self.log.term_at(p.next - 1)->0,
                    entries: self.batch(p),
                    leader_commit: self.commit,
                },
            )
        }
    }

    /// The next entries for a voter, no more than the configured maximum.
    pub open spec fn batch(self, p: Progress) -> Seq<EntryModel> {
        self.log.between(p.next as int, p.next + self.cfg.max_batch - 1)
    }

    /// What is known of a voter's log once the next message is on its way.
    pub open spec fn after_sending(self, p: Progress) -> Progress {
        if p.next > self.log.base_index() && p.streaming {
            Progress { next: (p.next + self.batch(p).len()) as Index, ..p }
        } else {
            p
        }
    }

    /// What the leader knows of the voters after a change of their set.
    pub open spec fn regrouped(self) -> Seq<Progress> {
        Seq::new(
            self.others().len(),
            |i: int|
                {
                    let peer = self.others()[i];
                    let at = slot_of(self.progress, peer);
                    if at < self.progress.len() {
                        self.progress[at]
                    } else {
                        Progress::fresh(peer, (self.log.last_index() + 1) as Index)
                    }
                },
        )
    }

    // ---- well-formedness -------------------------------------------------

    /// What holds of every node between events.
    pub open spec fn wf(self) -> bool {
        &&& self.cfg.usable()
        &&& self.log.wf()
        &&& self.log.last_index() < u64::MAX
        &&& self.log.base_index() <= self.applied <= self.commit <= self.log.last_index()
        &&& self.log.hard == (HardState { term: self.term, voted_for: self.voted_for })
        &&& self.members == self.voters()
        &&& self.members.len() > 0
        &&& crate::members::ascending(self.members)
        &&& self.heartbeat_elapsed < self.cfg.heartbeat_interval
        &&& self.cfg.election_timeout_min <= self.election_timeout <= self.cfg.election_timeout_max
        &&& self.role == Role::Candidate ==> self.campaign_wf()
        &&& if self.role == Role::Leader {
            self.leadership_wf()
        } else {
            self.progress.len() == 0 && self.transfer is None
        }
    }

    /// What holds of a candidate: it knows no leader, voted for itself, and counts
    /// distinct voters.
    pub open spec fn campaign_wf(self) -> bool {
        &&& self.leader is None
        &&& self.voted_for == Some(self.cfg.id)
        &&& self.votes.no_duplicates()
        &&& forall|i: int|
            0 <= i < self.votes.len() ==> self.members.contains(#[trigger] self.votes[i])
    }

    /// What holds of a leader: it tracks exactly the other voters, and what it
    /// believes of each lies within its own log.
    pub open spec fn leadership_wf(self) -> bool {
        &&& self.leader == Some(self.cfg.id)
        &&& self.voted_for == Some(self.cfg.id)
        &&& self.progress.len() == self.others().len()
        &&& forall|i: int|
            0 <= i < self.progress.len() ==> {
                let p = #[trigger] self.progress[i];
                p.peer == self.others()[i] && p.matched < p.next <= self.log.last_index() + 1
            }
        &&& self.transfer matches Some(t) ==> self.others().contains(t)
    }

    // ---- the pieces of a transition --------------------------------------

    /// The initial state of a node over a recovered log.
    pub open spec fn initial(cfg: ConfigModel, log: LogModel) -> NodeModel {
        let blank = NodeModel {
            cfg,
            log,
            role: Role::Follower,
            term: log.hard.term,
            voted_for: log.hard.voted_for,
            leader: None,
            commit: log.base_index() as Index,
            applied: log.base_index() as Index,
            election_elapsed: 0,
            leader_elapsed: 0,
            heartbeat_elapsed: 0,
            election_timeout: crate::rng::drawn(
                cfg.seed,
                cfg.election_timeout_min,
                cfg.election_timeout_max,
            ),
            votes: Seq::empty(),
            rng: crate::rng::state_after_draw(
                cfg.seed,
                cfg.election_timeout_min,
                cfg.election_timeout_max,
            ),
            members: Seq::empty(),
            progress: Seq::empty(),
            transfer: None,
        };
        NodeModel { members: blank.voters(), ..blank }
    }

    /// A fresh random timeout, counted from zero.
    pub open spec fn timer_reset(self) -> NodeModel {
        NodeModel {
            election_elapsed: 0,
            election_timeout: crate::rng::drawn(
                self.rng,
                self.cfg.election_timeout_min,
                self.cfg.election_timeout_max,
            ),
            rng: crate::rng::state_after_draw(
                self.rng,
                self.cfg.election_timeout_min,
                self.cfg.election_timeout_max,
            ),
            ..self
        }
    }

    /// The term and vote written to the log.
    pub open spec fn persisted(self) -> NodeModel {
        NodeModel {
            log: self.log.with_hard(HardState { term: self.term, voted_for: self.voted_for }),
            ..self
        }
    }

    /// The node as a follower of `leader` in its present term.
    pub open spec fn following(self, leader: Option<NodeId>) -> NodeModel {
        NodeModel {
            role: Role::Follower,
            leader,
            votes: Seq::empty(),
            progress: Seq::empty(),
            transfer: None,
            ..self
        }
    }

    /// The node as a follower in the later term `term`, with its vote free.
    pub open spec fn adopted(self, term: Term) -> NodeModel {
        NodeModel { term, voted_for: None, ..self.following(None) }.persisted()
    }

    /// The node after seeing a message of `term`.
    pub open spec fn seen(self, term: Term) -> NodeModel {
        if term > self.term {
            self.adopted(term)
        } else {
            self
        }
    }

    /// Everything committed is handed out for application; if the log has grown
    /// past the threshold, a snapshot is asked for.
    pub open spec fn drained(self) -> (NodeModel, Seq<ActionModel>) {
        let done = applies(self.log.between(self.applied + 1, self.commit as int));
        let hint = self.applied < self.commit && self.cfg.snapshot_threshold > 0 && self.commit
            - self.log.base_index() >= self.cfg.snapshot_threshold;
        (
            NodeModel { applied: self.commit, ..self },
            if hint {
                done.push(
                    ActionModel::Snapshot {
                        index: self.commit,
                        term: self.log.term_at(self.commit as int)->0,
                    },
                )
            } else {
                done
            },
        )
    }

    /// A leader commits what it may. One that is no longer a voter steps down
    /// once the configuration without it is committed.
    pub open spec fn committed(self) -> (NodeModel, Seq<ActionModel>) {
        let target = self.commit_target(self.log.last_index());
        if target > self.commit {
            let (next, out) = NodeModel { commit: target as Index, ..self }.drained();
            if !next.is_voter() && next.log.config_index() <= next.commit {
                (next.following(None), out)
            } else {
                (next, out)
            }
        } else {
            (self, Seq::empty())
        }
    }

    /// A leader sends each other voter its next message.
    pub open spec fn broadcast(self) -> (NodeModel, Seq<ActionModel>) {
        (
            NodeModel {
                progress: Seq::new(
                    self.progress.len(),
                    |i: int| self.after_sending(self.progress[i]),
                ),
                ..self
            },
            Seq::new(
                self.progress.len(),
                |i: int|
                    ActionModel::Send {
                        to: self.progress[i].peer,
                        message: self.outgoing(self.progress[i]),
                    },
            ),
        )
    }

    /// A leader sends one other voter its next message.
    pub open spec fn sent_to(self, slot: int) -> (NodeModel, Seq<ActionModel>) {
        let p = self.progress[slot];
        (
            NodeModel { progress: self.progress.update(slot, self.after_sending(p)), ..self },
            seq![ActionModel::Send { to: p.peer, message: self.outgoing(p) }],
        )
    }

    /// A leader broadcasts, then commits what it may.
    pub open spec fn broadcast_and_committed(self) -> (NodeModel, Seq<ActionModel>) {
        let (sent, out) = self.broadcast();
        let (next, more) = sent.committed();
        (next, out + more)
    }

    /// The node as leader of its present term, knowing nothing yet of the
    /// others' logs.
    pub open spec fn leading(self) -> NodeModel {
        NodeModel {
            role: Role::Leader,
            leader: Some(self.cfg.id),
            heartbeat_elapsed: 0,
            progress: Seq::new(
                self.others().len(),
                |i: int|
                    Progress::fresh(self.others()[i], (self.log.last_index() + 1) as Index),
            ),
            transfer: None,
            ..self
        }
    }

    /// The node wins the election of its present term.
    pub open spec fn elected(self) -> (NodeModel, Seq<ActionModel>) {
        self.leading().broadcast_and_committed()
    }

    /// The node as a candidate of the next term, with its own vote persisted.
    pub open spec fn campaigning(self) -> NodeModel {
        NodeModel {
            role: Role::Candidate,
            term: (self.term + 1) as Term,
            voted_for: Some(self.cfg.id),
            leader: None,
            votes: seq![self.cfg.id],
            progress: Seq::empty(),
            transfer: None,
            ..self
        }.timer_reset().persisted()
    }

    /// The node's request for a vote.
    pub open spec fn vote_request(self, force: bool) -> MessageModel {
        MessageModel::RequestVote(
            RequestVote {
                term: self.term,
                candidate: self.cfg.id,
                last_log_index: self.log.last_index() as Index,
                last_log_term: self.log.last_term(),
                force,
            },
        )
    }

    /// The node stands for election in the next term. Where its own vote is a
    /// majority it wins at once.
    pub open spec fn election(self, force: bool) -> (NodeModel, Seq<ActionModel>) {
        let next = self.campaigning();
        if 1 >= next.quorum() {
            next.elected()
        } else {
            (
                next,
                Seq::new(
                    next.others().len(),
                    |i: int|
                        ActionModel::Send {
                            to: next.others()[i],
                            message: next.vote_request(force),
                        },
                ),
            )
        }
    }

    /// The node with the voters that its log names, and the news of a change.
    pub open spec fn reconfigured(self) -> (NodeModel, Seq<ActionModel>) {
        let next = NodeModel { members: self.voters(), ..self };
        (
            next,
            if next.members == self.members {
                Seq::empty()
            } else {
                seq![ActionModel::MembershipChanged { members: next.members }]
            },
        )
    }

    // ---- events ----------------------------------------------------------

    /// A node that does not lead has waited one tick longer, for its election
    /// timer and for its leader.
    pub open spec fn ticked(self) -> NodeModel {
        NodeModel {
            election_elapsed: counted_up(self.election_elapsed),
            leader_elapsed: counted_up(self.leader_elapsed),
            ..self
        }
    }

    /// The election timer has run out, and the node may stand.
    pub open spec fn election_due(self) -> bool {
        self.is_voter() && self.election_elapsed >= self.election_timeout
    }

    /// One logical tick.
    pub open spec fn on_tick(self) -> (NodeModel, Seq<ActionModel>) {
        if self.role == Role::Leader {
            self.on_leader_tick()
        } else if self.ticked().election_due() {
            self.ticked().election(false)
        } else {
            (self.ticked(), Seq::empty())
        }
    }

    /// A leader waits for the target of a transfer: one that does not take over
    /// within an election timeout is given up.
    pub open spec fn awaiting_transfer(self) -> NodeModel {
        if self.transfer is None {
            self
        } else if self.election_elapsed + 1 >= self.election_timeout {
            NodeModel { transfer: None, election_elapsed: 0, ..self }
        } else {
            NodeModel { election_elapsed: (self.election_elapsed + 1) as u32, ..self }
        }
    }

    /// A tick of a leader: the heartbeat goes out when it is due.
    pub open spec fn on_leader_tick(self) -> (NodeModel, Seq<ActionModel>) {
        let next = self.awaiting_transfer();
        if next.heartbeat_elapsed + 1 >= next.cfg.heartbeat_interval {
            NodeModel { heartbeat_elapsed: 0, ..next }.broadcast()
        } else {
            (
                NodeModel { heartbeat_elapsed: (next.heartbeat_elapsed + 1) as u32, ..next },
                Seq::empty(),
            )
        }
    }

    /// Why a client's request cannot be taken, if it cannot: only a leader that
    /// is not handing over accepts one.
    pub open spec fn refusal(self) -> Option<ErrorModel> {
        if self.role != Role::Leader {
            Some(ErrorModel::NotLeader { leader: self.leader })
        } else if self.transfer is Some {
            Some(ErrorModel::NotLeader { leader: self.transfer })
        } else {
            None
        }
    }

    /// A leader appends `entry`.
    pub open spec fn appended(self, entry: EntryModel) -> NodeModel {
        NodeModel { log: self.log.append(seq![entry]), ..self }
    }

    /// The entry with which a leader puts a command at the end of its log.
    pub open spec fn next_command(self, command: Seq<u8>) -> EntryModel {
        EntryModel::normal(self.term, (self.log.last_index() + 1) as Index, command)
    }

    /// The entry with which a leader puts the voters `ids` at the end of its log.
    pub open spec fn next_config(self, ids: Seq<NodeId>) -> EntryModel {
        EntryModel::config(self.term, (self.log.last_index() + 1) as Index, ids)
    }

    /// A client proposes a command.
    pub open spec fn on_propose(self, command: Seq<u8>) -> StepModel {
        match self.refusal() {
            Some(e) => StepModel::Refused(e),
            None => {
                let (next, out) = self.appended(
                    self.next_command(command),
                ).broadcast_and_committed();
                StepModel::Moved(next, out)
            },
        }
    }

    /// A configuration change is not yet committed.
    pub open spec fn change_in_flight(self) -> bool {
        self.log.config_index() > self.commit
    }

    /// A leader has the voters `ids` in its log, and tracks them.
    pub open spec fn changed(self, ids: Seq<NodeId>) -> NodeModel {
        let grown = NodeModel { members: ids, ..self.appended(self.next_config(ids)) };
        NodeModel { progress: grown.regrouped(), ..grown }
    }

    /// A leader puts the voters `ids` in place.
    pub open spec fn on_change(self, ids: Seq<NodeId>) -> (NodeModel, Seq<ActionModel>) {
        let (next, out) = self.changed(ids).broadcast_and_committed();
        (next, seq![ActionModel::MembershipChanged { members: ids }] + out)
    }

    /// A client asks for the voter set `ids`, of which `wanted` says whether it
    /// is a change to be made.
    pub open spec fn on_membership(self, ids: Seq<NodeId>, wanted: bool) -> StepModel {
        match self.refusal() {
            Some(e) => StepModel::Refused(e),
            None => if self.change_in_flight() {
                StepModel::Refused(ErrorModel::ConfigInProgress)
            } else if wanted {
                let (next, out) = self.on_change(ids);
                StepModel::Moved(next, out)
            } else {
                StepModel::Moved(self, Seq::empty())
            },
        }
    }

    /// A client asks for a voter to be added. One that votes already changes
    /// nothing.
    pub open spec fn on_add(self, id: NodeId) -> StepModel {
        self.on_membership(
            crate::members::insert_id(self.members, id),
            !self.members.contains(id),
        )
    }

    /// A client asks for a voter to be removed. One that does not vote changes
    /// nothing, and the last voter cannot go.
    pub open spec fn on_remove(self, id: NodeId) -> StepModel {
        self.on_membership(
            crate::members::without(self.members, id),
            self.members.contains(id) && self.members.len() > 1,
        )
    }

    /// The signal to take over, for a target that is fully caught up.
    pub open spec fn handover(self, slot: int) -> Seq<ActionModel> {
        let p = self.progress[slot];
        if self.transfer == Some(p.peer) && p.matched == self.log.last_index() {
            seq![
                ActionModel::Send {
                    to: p.peer,
                    message: MessageModel::TimeoutNow(
                        TimeoutNow { term: self.term, leader: self.cfg.id },
                    ),
                },
            ]
        } else {
            Seq::empty()
        }
    }

    /// A client asks the leader to hand over to `target`. A target that is the
    /// leader itself or does not vote changes nothing.
    pub open spec fn on_transfer(self, target: NodeId) -> StepModel {
        if self.role != Role::Leader {
            StepModel::Refused(ErrorModel::NotLeader { leader: self.leader })
        } else {
            let slot = slot_of(self.progress, target);
            if slot >= self.progress.len() {
                StepModel::Moved(self, Seq::empty())
            } else {
                let next = NodeModel { transfer: Some(target), election_elapsed: 0, ..self };
                if next.progress[slot].matched == next.log.last_index() {
                    StepModel::Moved(next, next.handover(slot))
                } else {
                    let (sent, out) = next.sent_to(slot);
                    StepModel::Moved(sent, out)
                }
            }
        }
    }

    /// The application hands over its state through `index`. Only an index that
    /// is applied, and past the present snapshot, compacts the log.
    pub open spec fn on_snapshot(self, index: Index, data: Seq<u8>) -> NodeModel {
        if self.log.base_index() < index <= self.applied {
            NodeModel {
                log: self.log.compact(
                    SnapshotModel {
                        index,
                        term: self.log.term_at(index as int)->0,
                        config: self.voters_at(index as int),
                        data,
                    },
                ),
                ..self
            }
        } else {
            self
        }
    }

    // ---- messages --------------------------------------------------------

    /// A probe is answered and changes nothing.
    pub open spec fn on_pre_vote(self, m: PreVote) -> Seq<ActionModel> {
        seq![
            ActionModel::Send {
                to: m.candidate,
                message: MessageModel::PreVoteReply(
                    PreVoteReply {
                        term: self.term,
                        vote_granted: m.term >= self.term && self.up_to_date(
                            m.last_log_term,
                            m.last_log_index,
                        ) && !self.leader_is_active(),
                        from: self.cfg.id,
                    },
                ),
            },
        ]
    }

    /// The vote asked for is free, and the candidate's log will do.
    pub open spec fn grants(self, m: RequestVote) -> bool {
        &&& m.term >= self.term
        &&& self.voted_for is None || self.voted_for == Some(m.candidate)
        &&& self.up_to_date(m.last_log_term, m.last_log_index)
    }

    /// A vote is cast and persisted before it is announced, or denied.
    pub open spec fn on_request_vote(self, m: RequestVote) -> (NodeModel, Seq<ActionModel>) {
        let granted = self.grants(m);
        let next = if granted {
            NodeModel { voted_for: Some(m.candidate), ..self }.persisted().timer_reset()
        } else {
            self
        };
        (
            next,
            seq![
                ActionModel::Send {
                    to: m.candidate,
                    message: MessageModel::RequestVoteReply(
                        RequestVoteReply {
                            term: next.term,
                            vote_granted: granted,
                            from: next.cfg.id,
                        },
                    ),
                },
            ],
        )
    }

    /// A vote of `voter` is counted.
    pub open spec fn counting(self, voter: NodeId) -> NodeModel {
        NodeModel { votes: self.votes.push(voter), ..self }
    }

    /// A vote arrives. Distinct voters count, and a majority elects.
    pub open spec fn on_vote_reply(self, m: RequestVoteReply) -> (NodeModel, Seq<ActionModel>) {
        if self.role == Role::Candidate && m.term == self.term && m.vote_granted
            && self.members.contains(m.from) && !self.votes.contains(m.from) {
            let next = self.counting(m.from);
            if next.votes.len() >= next.quorum() {
                next.elected()
            } else {
                (next, Seq::empty())
            }
        } else {
            (self, Seq::empty())
        }
    }

    /// The answer to an append.
    pub open spec fn append_reply(
        self,
        to: NodeId,
        success: bool,
        match_index: int,
        conflict_index: int,
        conflict_term: Term,
    ) -> Seq<ActionModel> {
        seq![
            ActionModel::Send {
                to,
                message: MessageModel::AppendEntriesReply(
                    AppendEntriesReply {
                        term: self.term,
                        success,
                        from: self.cfg.id,
                        match_index: match_index as Index,
                        conflict_index: conflict_index as Index,
                        conflict_term,
                    },
                ),
            },
        ]
    }

    /// A leader of this node's term is recognised.
    pub open spec fn recognising(self, leader: NodeId) -> NodeModel {
        NodeModel { leader_elapsed: 0, ..self.following(Some(leader)) }.timer_reset()
    }

    /// The batch would replace an entry that is committed. No leader sends such
    /// a batch, and none is taken.
    pub open spec fn undoes_commit(self, entries: Seq<EntryModel>) -> bool {
        let k = first_new(self.log, entries, 0);
        k < entries.len() && entries[k].index <= self.commit
    }

    /// A leader replicates.
    pub open spec fn on_append(self, m: AppendModel) -> (NodeModel, Seq<ActionModel>) {
        if m.term < self.term {
            (self, self.append_reply(m.leader, false, 0, 0, 0))
        } else {
            self.recognising(m.leader).on_leader_append(m)
        }
    }

    /// A recognised leader replicates: the consistency check decides. What lies
    /// below the snapshot can no longer be checked, and the leader is sent past
    /// what is committed here.
    pub open spec fn on_leader_append(self, m: AppendModel) -> (NodeModel, Seq<ActionModel>) {
        let prev = m.prev_log_index as int;
        if prev > self.log.last_index() {
            (
                self,
                self.append_reply(m.leader, false, 0, self.log.last_index() + 1, 0),
            )
        } else if prev != 0 && prev < self.log.base_index() {
            (self, self.append_reply(m.leader, false, 0, self.commit + 1, 0))
        } else if !self.log.agrees_at(prev, m.prev_log_term) {
            (
                self,
                self.append_reply(
                    m.leader,
                    false,
                    0,
                    self.log.run_start(prev),
                    self.log.term_at(prev)->0,
                ),
            )
        } else {
            let fresh = self.log.uncovered(prev, m.entries);
            if !follows(prev, m.entries) || self.undoes_commit(fresh) {
                (self, self.append_reply(m.leader, false, 0, self.commit + 1, 0))
            } else {
                self.accepted(m, fresh)
            }
        }
    }

    /// The commit index is raised to the leader's, as far as the logs are known to
    /// agree.
    pub open spec fn raised(self, leader_commit: Index, agreed: int) -> NodeModel {
        let target = if leader_commit < agreed {
            leader_commit as int
        } else {
            agreed
        };
        NodeModel {
            commit: (if target > self.commit {
                target
            } else {
                self.commit as int
            }) as Index,
            ..self
        }
    }

    /// The leader's commit index is followed, and what is newly committed handed
    /// out.
    pub open spec fn followed(self, leader_commit: Index, agreed: int) -> (
        NodeModel,
        Seq<ActionModel>,
    ) {
        self.raised(leader_commit, agreed).drained()
    }

    /// A batch is taken: merged into the log, the voters it names put in place,
    /// and the leader's commit index followed.
    pub open spec fn accepted(self, m: AppendModel, fresh: Seq<EntryModel>) -> (
        NodeModel,
        Seq<ActionModel>,
    ) {
        let agreed = m.prev_log_index + m.entries.len();
        let (merged, news) = NodeModel { log: self.log.merge(fresh), ..self }.reconfigured();
        let (next, done) = merged.followed(m.leader_commit, agreed);
        (next, news + done + next.append_reply(m.leader, true, agreed, 0, 0))
    }

    /// What the leader knows of one voter is now `p`.
    pub open spec fn knowing(self, slot: int, p: Progress) -> NodeModel {
        NodeModel { progress: self.progress.update(slot, p), ..self }
    }

    /// A voter is known to agree with the leader's log through `index`.
    pub open spec fn acknowledged(self, slot: int, index: Index) -> (NodeModel, Seq<ActionModel>) {
        if index > self.log.last_index() {
            (self, Seq::empty())
        } else {
            let known = self.progress[slot].agreeing(index);
            let (next, done) = self.knowing(slot, known).committed();
            if next.role != Role::Leader {
                (next, done)
            } else if known.next <= next.log.last_index() {
                let (sent, out) = next.sent_to(slot);
                (sent, done + out + sent.handover(slot))
            } else {
                (next, done + next.handover(slot))
            }
        }
    }

    /// Where to probe a voter after a rejection: past the leader's own last entry
    /// of the voter's conflicting term, or where the voter says; never at or
    /// below what is known to agree. That is further back than before, unless the
    /// voter says that it is ahead of where it was probed.
    pub open spec fn backed_off(self, p: Progress, m: AppendEntriesReply) -> int {
        let own = if m.conflict_term > 0 {
            self.log.last_of_term(m.conflict_term, p.next - 1)
        } else {
            0
        };
        let hint = if own > 0 {
            own + 1
        } else {
            m.conflict_index as int
        };
        if p.next < hint <= self.log.last_index() + 1 {
            hint
        } else {
            crate::log::clamp(
                hint,
                p.matched + 1,
                if p.next - 1 > p.matched + 1 {
                    p.next - 1
                } else {
                    p.matched + 1
                },
            )
        }
    }

    /// A voter answers an append.
    pub open spec fn on_append_reply(self, m: AppendEntriesReply) -> (NodeModel, Seq<ActionModel>) {
        let slot = slot_of(self.progress, m.from);
        if self.role != Role::Leader || m.term != self.term || slot >= self.progress.len() {
            (self, Seq::empty())
        } else if m.success {
            self.acknowledged(slot, m.match_index)
        } else {
            let p = self.progress[slot];
            self.knowing(
                slot,
                Progress { next: self.backed_off(p, m) as Index, streaming: false, ..p },
            ).sent_to(slot)
        }
    }

    /// The answer to a snapshot.
    pub open spec fn install_reply(self, to: NodeId, last_index: Index) -> Seq<ActionModel> {
        seq![
            ActionModel::Send {
                to,
                message: MessageModel::InstallSnapshotReply(
                    InstallSnapshotReply { term: self.term, from: self.cfg.id, last_index },
                ),
            },
        ]
    }

    /// A leader ships a snapshot. It is installed only if it reaches beyond what
    /// is committed here; otherwise what is covered already is acknowledged.
    pub open spec fn on_install(self, m: InstallModel) -> (NodeModel, Seq<ActionModel>) {
        if m.term < self.term {
            (self, self.install_reply(m.leader, 0))
        } else {
            let here = self.recognising(m.leader);
            if self.commit < m.snapshot.index < u64::MAX {
                let (next, news) = NodeModel {
                    log: here.log.compact(m.snapshot),
                    commit: m.snapshot.index,
                    applied: m.snapshot.index,
                    ..here
                }.reconfigured();
                (
                    next,
                    seq![
                        ActionModel::RestoreSnapshot {
                            index: m.snapshot.index,
                            term: m.snapshot.term,
                            data: m.snapshot.data,
                        },
                    ] + news + next.install_reply(m.leader, m.snapshot.index),
                )
            } else {
                (here, here.install_reply(m.leader, here.commit))
            }
        }
    }

    /// A voter acknowledges a snapshot.
    pub open spec fn on_install_reply(self, m: InstallSnapshotReply) -> (
        NodeModel,
        Seq<ActionModel>,
    ) {
        let slot = slot_of(self.progress, m.from);
        if self.role != Role::Leader || m.term != self.term || slot >= self.progress.len() {
            (self, Seq::empty())
        } else {
            self.acknowledged(slot, m.last_index)
        }
    }

    /// The leader hands over: a voter that does not lead campaigns at once, with
    /// force.
    pub open spec fn on_timeout_now(self, m: TimeoutNow) -> (NodeModel, Seq<ActionModel>) {
        if m.term < self.term || self.role == Role::Leader || !self.is_voter() {
            (self, Seq::empty())
        } else {
            self.election(true)
        }
    }

    /// A message arrives.
    ///
    /// Probes and their answers adopt no term. A vote request is ignored while a
    /// leader is active, unless forced. Any other message of a later term makes
    /// the node a follower in that term first.
    pub open spec fn on_message(self, m: MessageModel) -> (NodeModel, Seq<ActionModel>) {
        match m {
            MessageModel::PreVote(pv) => (self, self.on_pre_vote(pv)),
            MessageModel::PreVoteReply(_) => (self, Seq::empty()),
            MessageModel::RequestVote(rv) => if !rv.force && self.leader_is_active() {
                (self, Seq::empty())
            } else {
                self.seen(rv.term).on_request_vote(rv)
            },
            MessageModel::RequestVoteReply(r) => self.seen(r.term).on_vote_reply(r),
            MessageModel::AppendEntries(a) => self.seen(a.term).on_append(a),
            MessageModel::AppendEntriesReply(r) => self.seen(r.term).on_append_reply(r),
            MessageModel::InstallSnapshot(i) => self.seen(i.term).on_install(i),
            MessageModel::InstallSnapshotReply(r) => self.seen(r.term).on_install_reply(r),
            MessageModel::TimeoutNow(t) => self.seen(t.term).on_timeout_now(t),
        }
    }

    /// The event has the node stand for election.
    pub open spec fn stands_on(self, event: EventModel) -> bool {
        match event {
            EventModel::Tick => self.role != Role::Leader && self.ticked().election_due(),
            EventModel::Message(MessageModel::TimeoutNow(t)) => self.is_voter() && t.term
                >= self.term && (self.role != Role::Leader || t.term > self.term),
            _ => false,
        }
    }

    /// The event has the node change the voters.
    pub open spec fn starts_change(self, event: EventModel) -> bool {
        &&& self.refusal() is None
        &&& !self.change_in_flight()
        &&& match event {
            EventModel::AddServer(id) => !self.members.contains(id),
            EventModel::RemoveServer(id) => self.members.contains(id) && self.members.len() > 1,
            _ => false,
        }
    }

    /// The event has the node append an entry of its own.
    pub open spec fn appends_on(self, event: EventModel) -> bool {
        (event is Propose && self.refusal() is None) || self.starts_change(event)
    }

    /// The counters have room for what the event needs: a further term for an
    /// election, a further index for a new entry.
    pub open spec fn has_room_for(self, event: EventModel) -> bool {
        &&& self.stands_on(event) ==> match event {
            EventModel::Message(m) => self.seen(m.term()).term < u64::MAX,
            _ => self.term < u64::MAX,
        }
        &&& self.appends_on(event) ==> self.log.last_index() + 1 < u64::MAX
    }

    /// The message has the node write to its log: a later term, a vote, entries
    /// that it does not hold, or a snapshot that reaches beyond what is committed.
    pub open spec fn writes_on_message(self, m: MessageModel) -> bool {
        let here = self.seen(m.term());
        match m {
            MessageModel::PreVote(_) => false,
            MessageModel::PreVoteReply(_) => false,
            MessageModel::RequestVote(rv) => (rv.force || !self.leader_is_active()) && (rv.term
                > self.term || here.grants(rv)),
            MessageModel::AppendEntries(a) => a.term > self.term || (a.term >= self.term
                && here.takes_new(a)),
            MessageModel::InstallSnapshot(i) => i.term > self.term || (i.term >= self.term
                && self.commit < i.snapshot.index < u64::MAX),
            MessageModel::TimeoutNow(t) => t.term > self.term || self.stands_on(
                EventModel::Message(m),
            ),
            _ => m.term() > self.term,
        }
    }

    /// The append is accepted and holds entries that the log does not.
    pub open spec fn takes_new(self, m: AppendModel) -> bool {
        let prev = m.prev_log_index as int;
        let fresh = self.log.uncovered(prev, m.entries);
        &&& self.log.agrees_at(prev, m.prev_log_term)
        &&& follows(prev, m.entries)
        &&& !self.undoes_commit(fresh)
        &&& first_new(self.log, fresh, 0) < fresh.len()
    }

    /// The event has the node write to its log.
    pub open spec fn writes_on(self, event: EventModel) -> bool {
        match event {
            EventModel::Message(m) => self.writes_on_message(m),
            EventModel::Snapshot { index, .. } => self.log.base_index() < index <= self.applied,
            _ => self.stands_on(event) || self.appends_on(event),
        }
    }

    /// The protocol: what an event leads to.
    pub open spec fn step(self, event: EventModel) -> StepModel {
        match event {
            EventModel::Tick => {
                let (next, out) = self.on_tick();
                StepModel::Moved(next, out)
            },
            EventModel::Message(m) => {
                let (next, out) = self.on_message(m);
                StepModel::Moved(next, out)
            },
            EventModel::Propose(command) => self.on_propose(command),
            EventModel::Snapshot { index, data } => StepModel::Moved(
                self.on_snapshot(index, data),
                Seq::empty(),
            ),
            EventModel::AddServer(id) => self.on_add(id),
            EventModel::RemoveServer(id) => self.on_remove(id),
            EventModel::TransferLeadership(target) => self.on_transfer(target),
        }
    }
}

} // verus!
